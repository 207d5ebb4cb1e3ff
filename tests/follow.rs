use simple_read_link::resolver::{Phase, ReadLink, ResolveError, Step, DEFAULT_MAX_HOPS};
use std::collections::HashMap;

const SANDBOX_DIR: &str = "/tmp/sandbox";

fn bytes(s: &str) -> Vec<u8> {
    s.as_bytes().to_vec()
}

fn sandbox(rest: &str) -> Vec<u8> {
    bytes(&format!("{}/{}", SANDBOX_DIR, rest))
}

/// The links of the test tree: path of the link, target stored in it.
fn tree() -> HashMap<Vec<u8>, Vec<u8>> {
    let mut links = HashMap::new();
    let mut add = |l: Vec<u8>, t: &str| {
        links.insert(l, bytes(t));
    };
    add(sandbox("symlink_file_absolute"), "/tmp/sandbox/test_file.txt");
    add(sandbox("tmp/test_folder/test_relative.sym.relative_1"), "test_relative.txt");
    add(sandbox("tmp/test_folder/test_relative.sym.relative_2"), "../test_folder/./test_relative.txt");
    add(sandbox("symlink_jump_3_rel_a"), "tmp/test_folder/test_relative.sym.relative_1");
    add(sandbox("symlink_jump_3_rel_b"), "/tmp/sandbox/tmp/test_folder/test_relative.sym.relative_2");
    add(sandbox("circular_c"), "circular_d");
    add(sandbox("circular_d"), "./circular_c");
    add(bytes("/test_root_symlink_abs"), "/test_root_file");
    add(bytes("/test_root_symlink_rel"), "test_root_file");
    links
}

/// Runs a walk to its end, answering each request from `links`; also
/// returns the number of steps taken.
fn run_counted(
    links: &HashMap<Vec<u8>, Vec<u8>>,
    cwd: &str,
    input: &[u8],
    max_hops: u64,
) -> (Result<Vec<u8>, ResolveError>, u64) {
    let (mut res, mut step) = ReadLink::from(&input.to_vec()).start(&bytes(cwd), max_hops);
    let mut steps: u64 = 0;
    loop {
        step = match step {
            Step::ReadLink(p) => res.on_link_read(links.get(&p).cloned()),
            Step::CheckSymlink(p) => res.on_symlink_checked(links.contains_key(&p)),
            Step::Done(r) => {
                assert_eq!(res.phase(), Phase::Finished);
                return (r, steps);
            }
        };
        steps += 1;
    }
}

fn run(links: &HashMap<Vec<u8>, Vec<u8>>, input: &[u8]) -> Result<Vec<u8>, ResolveError> {
    run_counted(links, "/home/user", input, DEFAULT_MAX_HOPS).0
}

fn follow(input: &[u8]) -> Result<Vec<u8>, ResolveError> {
    run(&tree(), input)
}

#[test]
fn test_readlink_against_normal_file() {
    let result = follow(&sandbox("test_file.txt"));
    assert!(result.is_err());
    assert_eq!(result, Err(ResolveError::Io));
}

#[test]
fn test_readlink_symlink_against_file_absolute_path() {
    let result = follow(&sandbox("symlink_file_absolute"));
    assert_eq!(result.unwrap(), sandbox("test_file.txt"));
}

#[test]
fn test_readlink_symlink_against_file_relative_path_1() {
    let result = follow(&sandbox("tmp/test_folder/test_relative.sym.relative_1"));
    assert_eq!(result.unwrap(), sandbox("tmp/test_folder/test_relative.txt"));
}

#[test]
fn test_readlink_symlink_against_file_relative_path_2() {
    let result = follow(&sandbox("tmp/test_folder/test_relative.sym.relative_2"));
    assert_eq!(result.unwrap(), sandbox("tmp/test_folder/test_relative.txt"));
}

#[test]
fn test_readlink_symlink_against_symlink_relative_path() {
    let result = follow(&sandbox("symlink_jump_3_rel_a"));
    assert_eq!(result.unwrap(), sandbox("tmp/test_folder/test_relative.txt"));
}

#[test]
fn test_readlink_symlink_against_symlink_absolute_path() {
    let result = follow(&sandbox("symlink_jump_3_rel_b"));
    assert_eq!(result.unwrap(), sandbox("tmp/test_folder/test_relative.txt"));
}

#[test]
fn test_readlink_against_circular_symlink() {
    let result = follow(&sandbox("circular_c"));
    assert!(result.is_err());
    assert_eq!(result, Err(ResolveError::HopLimitExceeded));
}

#[test]
fn test_readlink_against_hidden_files() {
    let result = follow(&sandbox("symlink_jump_3_rel_b"));
    assert_eq!(result.unwrap(), sandbox("tmp/test_folder/test_relative.txt"));
}

#[test]
fn test_readlink_against_files_in_root_abs() {
    let result = follow(b"/test_root_symlink_abs");
    assert_eq!(result.unwrap(), bytes("/test_root_file"));
}

#[test]
fn test_readlink_against_files_in_root_rel() {
    let result = follow(b"/test_root_symlink_rel");
    assert_eq!(result.unwrap(), bytes("/test_root_file"));
}

#[test]
fn test_symlink_against_file_absolute_path() {
    let result = follow(&sandbox("symlink_file_absolute"));
    assert_eq!(result, Ok(sandbox("test_file.txt")));
}

#[test]
fn test_symlink_against_file_relative_path_1() {
    let result = follow(&sandbox("tmp/test_folder/test_relative.sym.relative_1"));
    assert_eq!(result, Ok(sandbox("tmp/test_folder/test_relative.txt")));
}

#[test]
fn test_symlink_against_file_relative_path_2() {
    let result = follow(&sandbox("tmp/test_folder/test_relative.sym.relative_2"));
    assert_eq!(result, Ok(sandbox("tmp/test_folder/test_relative.txt")));
}

#[test]
fn test_symlink_against_symlink_relative_path() {
    let result = follow(&sandbox("symlink_jump_3_rel_a"));
    assert_eq!(result, Ok(sandbox("tmp/test_folder/test_relative.txt")));
}

#[test]
fn test_symlink_against_symlink_absolute_path() {
    let result = follow(&sandbox("symlink_jump_3_rel_b"));
    assert_eq!(result, Ok(sandbox("tmp/test_folder/test_relative.txt")));
}

#[test]
fn test_against_circular_symlink() {
    let result = follow(&sandbox("circular_c"));
    assert_eq!(result, Err(ResolveError::HopLimitExceeded));
}

#[test]
fn relative_input_is_anchored_at_cwd() {
    let (result, _) = run_counted(&tree(), "/tmp/sandbox/tmp", b"test_folder/test_relative.sym.relative_1", 5);
    // the first read is of the input as given, which the table does not hold
    assert_eq!(result, Err(ResolveError::Io));
    let mut links = tree();
    links.insert(bytes("test_folder/rel"), bytes("test_relative.txt"));
    let (result, _) = run_counted(&links, "/tmp/sandbox/tmp", b"test_folder/rel", 5);
    assert_eq!(result, Ok(sandbox("tmp/test_folder/test_relative.txt")));
}

#[test]
fn anchor_follows_each_link() {
    // a chain that descends into a folder and then reads a relative target there
    let mut links = HashMap::new();
    links.insert(bytes("/a/first"), bytes("sub/deeper/second"));
    links.insert(bytes("/a/sub/deeper/second"), bytes("../target"));
    let result = run(&links, b"/a/first");
    assert_eq!(result, Ok(bytes("/a/sub/target")));
}

#[test]
fn chain_within_bound_succeeds() {
    let mut links = HashMap::new();
    links.insert(bytes("/l1"), bytes("/l2"));
    links.insert(bytes("/l2"), bytes("l3"));
    links.insert(bytes("/l3"), bytes("/d/./f//"));
    assert_eq!(run_counted(&links, "/", b"/l1", 3).0, Ok(bytes("/d/f")));
    assert_eq!(run_counted(&links, "/", b"/l1", 2).0, Err(ResolveError::HopLimitExceeded));
}

#[test]
fn cycle_stops_within_step_bound() {
    let (result, steps) = run_counted(&tree(), "/", &sandbox("circular_c"), 7);
    assert_eq!(result, Err(ResolveError::HopLimitExceeded));
    assert!(steps <= 2 * 7 + 2);
    let mut links = HashMap::new();
    links.insert(bytes("/self"), bytes("self"));
    let (result, steps) = run_counted(&links, "/", b"/self", 1);
    assert_eq!(result, Err(ResolveError::HopLimitExceeded));
    assert_eq!(steps, 3);
}

#[test]
fn failed_read_midway_is_io() {
    let mut links = HashMap::new();
    links.insert(bytes("/a"), bytes("/b"));
    let (mut res, step) = ReadLink::from(&bytes("/a")).start(&bytes("/"), 10);
    assert!(matches!(step, Step::ReadLink(ref p) if *p == bytes("/a")));
    let step = res.on_link_read(links.get(&bytes("/a")).cloned());
    assert!(matches!(step, Step::CheckSymlink(ref p) if *p == bytes("/b")));
    assert_eq!(res.hops(), 1);
    // the path is reported as a link, but reading it then fails
    let step = res.on_symlink_checked(true);
    assert!(matches!(step, Step::ReadLink(ref p) if *p == bytes("/b")));
    let step = res.on_link_read(None);
    assert!(matches!(step, Step::Done(Err(ResolveError::Io))));
    assert_eq!(res.phase(), Phase::Finished);
}

#[test]
fn empty_input_is_io() {
    let (res, step) = ReadLink::from(&Vec::new()).start(&bytes("/"), 10);
    assert!(matches!(step, Step::Done(Err(ResolveError::Io))));
    assert_eq!(res.phase(), Phase::Finished);
}

#[test]
fn zero_bound_fails_on_first_read() {
    let (result, _) = run_counted(&tree(), "/", &sandbox("symlink_file_absolute"), 0);
    assert_eq!(result, Err(ResolveError::HopLimitExceeded));
}

#[test]
fn default_bound_is_fifty() {
    assert_eq!(DEFAULT_MAX_HOPS, 50);
    let mut links = HashMap::new();
    for i in 0..50 {
        links.insert(bytes(&format!("/n{}", i)), bytes(&format!("n{}", i + 1)));
    }
    assert_eq!(run(&links, b"/n0"), Ok(bytes("/n50")));
    links.insert(bytes("/n50"), bytes("n51"));
    assert_eq!(run(&links, b"/n0"), Err(ResolveError::HopLimitExceeded));
}

#[test]
fn read_link_keeps_its_path() {
    let mut a = ReadLink::from(&bytes("/x"));
    let b = a.new(&bytes("/y"));
    assert_eq!(*a.input_path(), bytes("/x"));
    assert_eq!(*b.input_path(), bytes("/y"));
    let (res, _) = b.start(&bytes("/"), 9);
    assert_eq!(res.max_hops(), 9);
    assert_eq!(res.hops(), 0);
    assert_eq!(res.phase(), Phase::AwaitLink);
}
