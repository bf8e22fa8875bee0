use hillpath::emulator::crt::Crt;
use hillpath::emulator::Command;
use hillpath::emulator::Cpu;
use hillpath::emulator::parse_command_line;
use hillpath::emulator::Program;

#[test]
fn noparsing() {
    // [ noop ] [ addx ] [... ] [ addx ] [ ... ]
    // 0        1        2      3        4
    let program = Program::new(vec![
        Command::NoOp,
        Command::AddX(2),
        Command::AddX(-1),
    ]);
    let mut cpu = Cpu::load(program);
    while !cpu.done() {
        println!("{}:{}", cpu.clock().count_finished(), cpu.x_register().value());
        cpu.finish_frame();
    }
    println!("{}:{}", cpu.clock().count_finished(), cpu.x_register().value());
    assert_eq!(cpu.x_register().value(), 2);
}

#[test]
fn addx_timing() {
    // An addx blocks for one tick and lands at the end of the next.
    let program = Program::new(vec![Command::AddX(3), Command::AddX(-5)]);
    let mut cpu = Cpu::load(program);
    assert_eq!(cpu.x_register().value(), 1);
    cpu.finish_frame();
    assert_eq!(cpu.x_register().value(), 1);
    cpu.finish_frame();
    assert_eq!(cpu.x_register().value(), 4);
    cpu.finish_frame();
    assert_eq!(cpu.x_register().value(), 4);
    cpu.finish_frame();
    assert_eq!(cpu.x_register().value(), -1);
}

#[test]
fn crt_renders_sprite_rows() {
    // With the register pinned at its starting value of one, only the first
    // three pixels of each forty-pixel row are lit.
    let program = Program::new(vec![Command::NoOp]);
    let cpu = Cpu::load(program);
    let mut crt = Crt::new();
    for _ in 0..80 {
        crt.read(&cpu);
    }
    let rendered = crt.buffer();
    let row = format!("{}{}", "###", ".".repeat(37));
    assert_eq!(rendered, format!("{}\n{}", row, row));
}

#[test]
fn clock_counts_frames() {
    let program = Program::new(vec![Command::NoOp, Command::NoOp]);
    let mut cpu = Cpu::load(program);
    assert_eq!(cpu.clock().count_finished(), 0);
    assert_eq!(cpu.clock().current_frame(), 1);
    cpu.finish_frame();
    assert_eq!(cpu.clock().count_finished(), 1);
    assert_eq!(cpu.clock().current_frame(), 2);
}

#[test]
fn command_lines() {
    assert_eq!(parse_command_line(b"noop"), Command::NoOp);
    assert_eq!(parse_command_line(b"addx 2"), Command::AddX(2));
    assert_eq!(parse_command_line(b"addx -15"), Command::AddX(-15));
    assert_eq!(parse_command_line(b"  addx   -1  "), Command::AddX(-1));
}
