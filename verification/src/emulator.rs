//! A cycle-accurate CPU emulator: a single X register, a clock, a command
//! list, and a dispatcher that models the latency of each command.

use vstd::prelude::*;

use crate::terminal::digits_value;
use crate::terminal::is_digit;
use crate::terminal::lemma_digit_run;
use crate::terminal::lemma_digits_nonneg;
use crate::terminal::lemma_digits_prefix;

pub mod crt;
pub mod dispatcher;

verus! {

/// A whitespace byte, as the program listing understands it.
pub open spec fn ws_byte(b: u8) -> bool {
    b == 32 || b == 9 || b == 10 || b == 13
}

/// The first non-whitespace position at or after `i`.
pub open spec fn skip_ws(s: Seq<u8>, i: int) -> int
    decreases s.len() - i,
{
    if 0 <= i < s.len() && ws_byte(s[i]) {
        skip_ws(s, i + 1)
    } else {
        i
    }
}

/// The first whitespace position at or after `i`.
pub open spec fn token_end(s: Seq<u8>, i: int) -> int
    decreases s.len() - i,
{
    if 0 <= i < s.len() && !ws_byte(s[i]) {
        token_end(s, i + 1)
    } else {
        i
    }
}

pub(crate) proof fn lemma_skip_ws_run(s: Seq<u8>, i: int)
    requires
        0 <= i <= s.len(),
    ensures
        i <= skip_ws(s, i) <= s.len(),
        forall|j: int| i <= j < skip_ws(s, i) ==> ws_byte(#[trigger] s[j]),
        skip_ws(s, i) < s.len() ==> !ws_byte(s[skip_ws(s, i)]),
    decreases s.len() - i,
{
    if i < s.len() && ws_byte(s[i]) {
        lemma_skip_ws_run(s, i + 1);
    }
}

proof fn lemma_token_end_run(s: Seq<u8>, i: int)
    requires
        0 <= i <= s.len(),
    ensures
        i <= token_end(s, i) <= s.len(),
        forall|j: int| i <= j < token_end(s, i) ==> !ws_byte(#[trigger] s[j]),
        token_end(s, i) < s.len() ==> ws_byte(s[token_end(s, i)]),
    decreases s.len() - i,
{
    if i < s.len() && !ws_byte(s[i]) {
        lemma_token_end_run(s, i + 1);
    }
}

/// The line is a `noop` command: its first whitespace-separated token is
/// `noop` (anything after it is ignored).
pub open spec fn is_noop_line(s: Seq<u8>) -> bool {
    let a = skip_ws(s, 0);
    let b = token_end(s, a);
    s.subrange(a, b) == seq![110u8, 111u8, 111u8, 112u8]
}

/// The position of the numeric token of an `addx` line.
pub open spec fn addx_digits_start(s: Seq<u8>) -> int {
    let a2 = skip_ws(s, token_end(s, skip_ws(s, 0)));
    if 0 <= a2 < s.len() && s[a2] == 45 {
        a2 + 1
    } else {
        a2
    }
}

/// The line is an `addx` command: the token `addx`, then one integer token
/// (an optional minus sign and at least one digit, the value fitting the
/// register), and nothing further.
pub open spec fn is_addx_line(s: Seq<u8>) -> bool {
    let a = skip_ws(s, 0);
    let b = token_end(s, a);
    let a2 = skip_ws(s, b);
    let ds = addx_digits_start(s);
    let b2 = token_end(s, a2);
    &&& s.subrange(a, b) == seq![97u8, 100u8, 100u8, 120u8]
    &&& a2 < s.len()
    &&& ds < b2
    &&& forall|j: int| ds <= j < b2 ==> is_digit(#[trigger] s[j])
    &&& (if s[a2] == 45 {
        digits_value(s, ds, b2) <= isize::MAX + 1
    } else {
        digits_value(s, ds, b2) <= isize::MAX
    })
    &&& skip_ws(s, b2) == s.len()
}

/// The line is one program command.
pub open spec fn is_program_line(s: Seq<u8>) -> bool {
    ||| is_noop_line(s)
    ||| is_addx_line(s)
}

/// The signed value of an `addx` line's numeric token.
pub open spec fn addx_value(s: Seq<u8>) -> int {
    let a2 = skip_ws(s, token_end(s, skip_ws(s, 0)));
    let magnitude = digits_value(s, addx_digits_start(s), token_end(s, a2));
    if 0 <= a2 < s.len() && s[a2] == 45 {
        -magnitude
    } else {
        magnitude
    }
}

/// Reads the first non-whitespace position at or after `from`.
pub(crate) fn find_token_start(line: &[u8], from: usize) -> (r: usize)
    requires
        from <= line@.len(),
    ensures
        r == skip_ws(line@, from as int),
        from <= r <= line@.len(),
{
    let mut i: usize = from;
    while i < line.len() && (line[i] == 32 || line[i] == 9 || line[i] == 10 || line[i] == 13)
        invariant
            from <= i <= line@.len(),
            skip_ws(line@, from as int) == skip_ws(line@, i as int),
        decreases line@.len() - i,
    {
        i += 1;
    }
    i
}

/// Reads the first whitespace position at or after `from`.
fn find_token_end(line: &[u8], from: usize) -> (r: usize)
    requires
        from <= line@.len(),
    ensures
        r == token_end(line@, from as int),
        from <= r <= line@.len(),
{
    let mut i: usize = from;
    while i < line.len() && !(line[i] == 32 || line[i] == 9 || line[i] == 10 || line[i] == 13)
        invariant
            from <= i <= line@.len(),
            token_end(line@, from as int) == token_end(line@, i as int),
        decreases line@.len() - i,
    {
        i += 1;
    }
    i
}

/// Parses one program line into a command. The line must be a `noop` or a
/// well-formed `addx`.
pub fn parse_command_line(line: &[u8]) -> (r: Command)
    requires
        is_program_line(line@),
    ensures
        r == if is_noop_line(line@) {
            Command::NoOp
        } else {
            Command::AddX(addx_value(line@) as isize)
        },
{
    let a = find_token_start(line, 0);
    let b = find_token_end(line, a);
    proof {
        lemma_skip_ws_run(line@, 0);
        lemma_token_end_run(line@, a as int);
        if is_noop_line(line@) {
            assert(line@.subrange(a as int, b as int) == seq![110u8, 111u8, 111u8, 112u8]);
            assert(line@.subrange(a as int, b as int)[0] == line@[a as int]);
        } else {
            assert(is_addx_line(line@));
            assert(line@.subrange(a as int, b as int) == seq![97u8, 100u8, 100u8, 120u8]);
            assert(line@.subrange(a as int, b as int)[0] == line@[a as int]);
        }
    }
    if line[a] == 110 {
        proof {
            if is_addx_line(line@) {
                assert(line@[a as int] == 97);
            }
        }
        return Command::NoOp;
    }
    proof {
        if is_noop_line(line@) {
            assert(line@[a as int] == 110);
        }
        assert(is_addx_line(line@));
    }
    let a2 = find_token_start(line, b);
    let negative = line[a2] == 45;
    let ds = if negative {
        a2 + 1
    } else {
        a2
    };
    let b2 = find_token_end(line, a2);
    proof {
        lemma_skip_ws_run(line@, b as int);
        lemma_token_end_run(line@, a2 as int);
        assert(ds as int == addx_digits_start(line@));
        lemma_digits_prefix(line@, ds as int, ds as int, b2 as int);
    }
    let mut magnitude: u64 = 0;
    let mut j: usize = ds;
    while j < b2
        invariant
            is_addx_line(line@),
            ds as int == addx_digits_start(line@),
            b2 as int == token_end(line@, skip_ws(line@, token_end(line@, skip_ws(line@, 0)))),
            ds <= j <= b2 <= line@.len(),
            forall|m: int| ds <= m < b2 ==> is_digit(#[trigger] line@[m]),
            digits_value(line@, ds as int, b2 as int) <= isize::MAX + 1,
            magnitude == digits_value(line@, ds as int, j as int),
        decreases b2 - j,
    {
        proof {
            lemma_digits_prefix(line@, ds as int, j + 1, b2 as int);
        }
        magnitude = magnitude * 10 + ((line[j] - 48) as u64);
        j += 1;
    }
    let value: isize = if negative {
        if magnitude == (isize::MAX as u64) + 1 {
            isize::MIN
        } else {
            -(magnitude as isize)
        }
    } else {
        magnitude as isize
    };
    Command::AddX(value)
}

/// The X register.
pub struct Register {
    inner: isize,
}

impl Register {
    pub closed spec fn spec_value(self) -> int {
        self.inner as int
    }

    /// The register starts at one.
    fn starting() -> (r: Register)
        ensures
            r.spec_value() == 1,
    {
        Register { inner: 1 }
    }

    fn add(&mut self, rhs: isize)
        requires
            isize::MIN <= old(self).spec_value() + rhs <= isize::MAX,
        ensures
            final(self).spec_value() == old(self).spec_value() + rhs,
    {
        self.inner += rhs;
    }

    pub fn value(&self) -> (v: isize)
        ensures
            v == self.spec_value(),
    {
        self.inner
    }
}

/// Counts fully elapsed ticks.
pub struct Clock {
    inner: usize,
}

impl Clock {
    pub closed spec fn spec_count(self) -> nat {
        self.inner as nat
    }

    fn starting() -> (c: Clock)
        ensures
            c.spec_count() == 0,
    {
        Clock { inner: 0 }
    }

    fn tick(&mut self)
        requires
            old(self).spec_count() < usize::MAX,
        ensures
            final(self).spec_count() == old(self).spec_count() + 1,
    {
        self.inner += 1;
    }

    pub fn count_finished(&self) -> (n: usize)
        ensures
            n == self.spec_count(),
    {
        self.inner
    }

    pub fn current_frame(&self) -> (n: usize)
        requires
            self.spec_count() < usize::MAX,
        ensures
            n == self.spec_count() + 1,
    {
        self.inner + 1
    }
}

/// One CPU command.
#[derive(Debug, Clone, Copy, PartialEq, Eq, Structural)]
pub enum Command {
    AddX(isize),
    NoOp,
}

/// A fully materialised program: the commands still to be fetched.
pub struct Program {
    commands: Vec<Command>,
    position: usize,
}

impl Program {
    /// The commands not yet fetched.
    pub closed spec fn remaining(self) -> Seq<Command> {
        self.commands@.skip(self.position as int)
    }

    pub closed spec fn wf(self) -> bool {
        self.position <= self.commands@.len()
    }

    pub fn new(commands: Vec<Command>) -> (p: Program)
        ensures
            p.wf(),
            p.remaining() == commands@,
    {
        let p = Program { commands, position: 0 };
        proof {
            assert(p.remaining() =~= p.commands@);
        }
        p
    }

    /// Fetches the next command, if any is left.
    fn next_command(&mut self) -> (r: Option<Command>)
        requires
            old(self).wf(),
        ensures
            final(self).wf(),
            match r {
                Some(c) => old(self).remaining().len() > 0 && c == old(self).remaining()[0]
                    && final(self).remaining() == old(self).remaining().skip(1),
                None => old(self).remaining().len() == 0 && final(self).remaining() == old(
                    self,
                ).remaining(),
            },
    {
        if self.position < self.commands.len() {
            let c = self.commands[self.position];
            self.position += 1;
            proof {
                assert(final(self).remaining() =~= old(self).remaining().skip(1));
            }
            Some(c)
        } else {
            None
        }
    }
}

/// The CPU: register, clock, and blocking dispatcher.
pub struct Cpu {
    register: Register,
    clock: Clock,
    dispatcher: dispatcher::BlockingDispatcher,
}

impl Cpu {
    pub closed spec fn spec_register(self) -> int {
        self.register.spec_value()
    }

    pub closed spec fn spec_clock(self) -> nat {
        self.clock.spec_count()
    }

    pub closed spec fn spec_dispatcher(self) -> dispatcher::BlockingDispatcher {
        self.dispatcher
    }

    pub closed spec fn wf(self) -> bool {
        self.dispatcher.wf()
    }

    /// Loads a non-empty program, register at one, clock at zero.
    pub fn load(program: Program) -> (cpu: Cpu)
        requires
            program.wf(),
            program.remaining().len() > 0,
        ensures
            cpu.wf(),
            cpu.spec_register() == 1,
            cpu.spec_clock() == 0,
            cpu.spec_dispatcher().spec_next() == program.remaining()[0],
            cpu.spec_dispatcher().spec_blocking() == dispatcher::blocking_of(
                program.remaining()[0],
            ),
            cpu.spec_dispatcher().spec_remaining() == program.remaining().skip(1),
            !cpu.spec_dispatcher().spec_done(),
    {
        let d = match dispatcher::BlockingDispatcher::from_program(program) {
            Ok(d) => d,
            Err(_) => {
                proof {
                    assert(false);
                }
                unreached()
            },
        };
        Cpu { register: Register::starting(), clock: Clock::starting(), dispatcher: d }
    }

    /// Runs the CPU until the start of the next tick: the clock advances,
    /// and a command completed on the elapsed tick is applied to the
    /// register.
    pub fn finish_frame(&mut self)
        requires
            old(self).wf(),
            old(self).spec_clock() < usize::MAX,
            old(self).spec_dispatcher().spec_blocking() == 0 ==> match old(
                self,
            ).spec_dispatcher().spec_next() {
                Command::AddX(x) => isize::MIN <= old(self).spec_register() + x <= isize::MAX,
                Command::NoOp => true,
            },
        ensures
            final(self).wf(),
            final(self).spec_clock() == old(self).spec_clock() + 1,
            dispatcher::tick_transition(
                old(self).spec_dispatcher(),
                final(self).spec_dispatcher(),
            ),
            final(self).spec_register() == if old(self).spec_dispatcher().spec_blocking() == 0 {
                match old(self).spec_dispatcher().spec_next() {
                    Command::AddX(x) => old(self).spec_register() + x,
                    Command::NoOp => old(self).spec_register(),
                }
            } else {
                old(self).spec_register()
            },
    {
        self.clock.tick();
        if let Some(dispatcher::BlockingState::Completed(cmd)) = self.dispatcher.tick() {
            self.run_cmd(cmd);
        }
    }

    fn run_cmd(&mut self, cmd: Command)
        requires
            match cmd {
                Command::AddX(x) => isize::MIN <= old(self).spec_register() + x <= isize::MAX,
                Command::NoOp => true,
            },
        ensures
            final(self).spec_register() == match cmd {
                Command::AddX(x) => old(self).spec_register() + x,
                Command::NoOp => old(self).spec_register(),
            },
            final(self).spec_clock() == old(self).spec_clock(),
            final(self).spec_dispatcher() == old(self).spec_dispatcher(),
    {
        match cmd {
            Command::AddX(x) => self.register.add(x),
            Command::NoOp => {},
        }
    }

    pub fn x_register(&self) -> (r: &Register)
        ensures
            r.spec_value() == self.spec_register(),
    {
        &self.register
    }

    pub fn clock(&self) -> (c: &Clock)
        ensures
            c.spec_count() == self.spec_clock(),
    {
        &self.clock
    }

    pub fn done(&self) -> (d: bool)
        ensures
            d == self.spec_dispatcher().spec_done(),
    {
        self.dispatcher.is_done()
    }
}

} // verus!
