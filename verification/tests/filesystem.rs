use hillpath::filesystem::FileSystem;
use hillpath::terminal::entry;
use hillpath::terminal::Command;
use hillpath::terminal::Entry;

fn example_filesystem() -> FileSystem {
    // The terminal session of the classic example: directories are entered
    // (and created on first sight), file listings are recorded.
    let mut fs = FileSystem::new(70_000_000);
    fs.cd("/".to_string());
    fs.put_file("b.txt".to_string(), 14848514);
    fs.put_file("c.dat".to_string(), 8504156);
    fs.cd("a".to_string());
    fs.put_file("f".to_string(), 29116);
    fs.put_file("g".to_string(), 2557);
    fs.put_file("h.lst".to_string(), 62596);
    fs.cd("e".to_string());
    fs.put_file("i".to_string(), 584);
    fs.cd("..".to_string());
    fs.cd("..".to_string());
    fs.cd("d".to_string());
    fs.put_file("j".to_string(), 4060174);
    fs.put_file("d.log".to_string(), 8033020);
    fs.put_file("d.ext".to_string(), 5626152);
    fs.put_file("k".to_string(), 7214296);
    fs.finalize()
}

#[test]
fn example_sizes() {
    let fs = example_filesystem();
    assert_eq!(fs.occupied_size(), 48381165);
    assert_eq!(fs.total_size_below(100_000), 95437);
}

#[test]
fn deletion_candidate() {
    let fs = example_filesystem();
    // 21618835 bytes are free; deleting the smallest directory of at least
    // 8381165 bytes reaches the 30000000 target.
    assert_eq!(fs.delete_to_free(30_000_000), Some(24933642));
    // The free space already suffices for a small target.
    assert_eq!(fs.delete_to_free(1_000_000), Some(0));
    // The directory entered first holds the whole tree and still suffices.
    assert_eq!(fs.delete_to_free(70_000_000), Some(48381165));
    // No single directory can free more than the whole tree occupies.
    assert_eq!(fs.delete_to_free(70_000_001), None);
}

#[test]
fn empty_filesystem() {
    let fs = FileSystem::new(1_000).finalize();
    assert_eq!(fs.occupied_size(), 0);
    assert_eq!(fs.total_size_below(10), 0);
}

#[test]
fn nested_directories() {
    let mut fs = FileSystem::new(1_000_000);
    fs.create_dir("outer".to_string());
    fs.cd("outer".to_string());
    fs.put_file("data".to_string(), 100);
    fs.cd("inner".to_string());
    fs.put_file("more".to_string(), 50);
    let fs = fs.finalize();
    // inner: 50; outer: 150; root: 150; all of them below the limit.
    assert_eq!(fs.occupied_size(), 150);
    assert_eq!(fs.total_size_below(1_000), 150 + 150 + 50);
    // Only `inner` fits under a tight limit.
    assert_eq!(fs.total_size_below(100), 50);
}

#[test]
fn terminal_lines() {
    match entry(b"$ cd somewhere") {
        Entry::User(Command::Cd(name)) => assert_eq!(name, b"somewhere".to_vec()),
        _ => panic!("expected a cd command"),
    }
    match entry(b"$ ls") {
        Entry::User(Command::Ls) => {}
        _ => panic!("expected an ls command"),
    }
    match entry(b"dir a") {
        Entry::Directory(name) => assert_eq!(name, b"a".to_vec()),
        _ => panic!("expected a directory listing"),
    }
    match entry(b"14848514 b.txt") {
        Entry::File(size, name) => {
            assert_eq!(size, 14848514);
            assert_eq!(name, b"b.txt".to_vec());
        }
        _ => panic!("expected a file listing"),
    }
    // A backslash escapes the byte after it, spaces included.
    match entry(b"$ cd deep\\ space") {
        Entry::User(Command::Cd(name)) => assert_eq!(name, b"deep space".to_vec()),
        _ => panic!("expected a cd command"),
    }
}
