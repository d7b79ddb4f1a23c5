use snap::filters::parse;
use snap::filters::Filter;
use snap::filters::ParseError;
use snap::filters::ProcessRecord;
use snap::process_tree::ProcessTree;

fn record(pid: i32, uid: u32, comm: &str, env: &[(&str, &str)]) -> ProcessRecord {
    ProcessRecord {
        pid,
        uid: Some(uid),
        comm: Some(comm.to_string()),
        environ: Some(
            env.iter().map(|(k, v)| (k.to_string(), v.to_string())).collect(),
        ),
    }
}

fn empty_tree() -> ProcessTree {
    ProcessTree::new(Vec::new())
}

#[test]
fn uid_leaf_round_trip() {
    let tree = empty_tree();
    let (f, ate) = parse("uid(1000)").unwrap();
    assert_eq!(ate, 9);
    let direct = Filter::Uid(1000);
    let user = record(10, 1000, "sh", &[]);
    let root = record(1, 0, "init", &[]);
    assert!(f.eval(&user, &tree));
    assert!(!f.eval(&root, &tree));
    assert_eq!(f.eval(&user, &tree), direct.eval(&user, &tree));
    assert_eq!(f.eval(&root, &tree), direct.eval(&root, &tree));
}

#[test]
fn pid_and_comm_leaves_round_trip() {
    let tree = empty_tree();
    let (f, ate) = parse("pid(42)").unwrap();
    assert_eq!(ate, 7);
    assert!(f.eval(&record(42, 0, "x", &[]), &tree));
    assert!(!f.eval(&record(43, 0, "x", &[]), &tree));

    let (c, ate) = parse("comm(cat)").unwrap();
    assert_eq!(ate, 9);
    assert!(c.eval(&record(1, 0, "cat", &[]), &tree));
    assert!(!c.eval(&record(1, 0, "dog", &[]), &tree));
}

#[test]
fn env_leaves_round_trip() {
    let tree = empty_tree();
    let (k, _) = parse("env_k(DISPLAY)").unwrap();
    assert!(k.eval(&record(1, 0, "x", &[("DISPLAY", ":0")]), &tree));
    assert!(!k.eval(&record(1, 0, "x", &[("TERM", "xterm")]), &tree));

    let (kv, _) = parse("env_kv(SHELL,/bin/bash)").unwrap();
    assert!(kv.eval(&record(1, 0, "x", &[("SHELL", "/bin/bash")]), &tree));
    assert!(!kv.eval(&record(1, 0, "x", &[("SHELL", "/bin/sh")]), &tree));
}

#[test]
fn env_kv_trims_spaces() {
    let tree = empty_tree();
    let (kv, _) = parse("env_kv( SHELL , /bin/bash )").unwrap();
    assert!(kv.eval(&record(1, 0, "x", &[("SHELL", "/bin/bash")]), &tree));
}

#[test]
fn and_with_env_matches_only_root_with_display() {
    let tree = empty_tree();
    let (f, _) = parse("and(uid(0),env_k(DISPLAY))").unwrap();
    assert!(f.eval(&record(1, 0, "x", &[("DISPLAY", ":0")]), &tree));
    assert!(!f.eval(&record(1, 1000, "x", &[("DISPLAY", ":0")]), &tree));
    assert!(!f.eval(&record(1, 0, "x", &[]), &tree));
}

#[test]
fn not_inverts() {
    let tree = empty_tree();
    let (f, _) = parse("not(uid(0))").unwrap();
    assert!(!f.eval(&record(1, 0, "x", &[]), &tree));
    assert!(f.eval(&record(1, 5, "x", &[]), &tree));
}

#[test]
fn missing_close_is_error_not_panic() {
    assert!(parse("and(uid(0)").is_err());
}

#[test]
fn or_true_false_consumes_whole_input_and_holds() {
    let tree = empty_tree();
    let input = "or(true(),false())";
    let (f, ate) = parse(input).unwrap();
    assert_eq!(ate, input.chars().count());
    assert!(f.eval(&record(7, 7, "anything", &[]), &tree));
    assert!(f.eval(&record(0, 0, "", &[]), &tree));
}

#[test]
fn parse_error_kinds() {
    assert_eq!(parse("").unwrap_err(), ParseError::MissingOpen);
    assert_eq!(parse("uid0").unwrap_err(), ParseError::MissingOpen);
    assert_eq!(parse("and(uid(0)").unwrap_err(), ParseError::Unbalanced);
    assert_eq!(parse("foo(1)").unwrap_err(), ParseError::UnknownOperator);
    assert_eq!(parse("uid(x)").unwrap_err(), ParseError::BadNumber);
    assert_eq!(parse("pid(9z)").unwrap_err(), ParseError::BadNumber);
    assert_eq!(parse("descendants()").unwrap_err(), ParseError::BadNumber);
    assert_eq!(parse("env_kv(KEY)").unwrap_err(), ParseError::MissingValue);
    assert_eq!(parse("and()").unwrap_err(), ParseError::BadChild);
    assert_eq!(parse("uid(\u{e9})").unwrap_err(), ParseError::NotAscii);
}

#[test]
fn trailing_text_is_tolerated() {
    let (f, ate) = parse("uid(0)trailing").unwrap();
    assert_eq!(ate, 6);
    let tree = empty_tree();
    assert!(f.eval(&record(1, 0, "x", &[]), &tree));
}

#[test]
fn unreadable_attributes_evaluate_false() {
    let tree = empty_tree();
    let p = ProcessRecord { pid: 3, uid: None, comm: None, environ: None };
    let (uid, _) = parse("uid(0)").unwrap();
    let (comm, _) = parse("comm(cat)").unwrap();
    let (envk, _) = parse("env_k(A)").unwrap();
    assert!(!uid.eval(&p, &tree));
    assert!(!comm.eval(&p, &tree));
    assert!(!envk.eval(&p, &tree));
    // pid is always known
    let (pid, _) = parse("pid(3)").unwrap();
    assert!(pid.eval(&p, &tree));
}

#[test]
fn descendants_filter_includes_the_root_pid() {
    let tree = ProcessTree::new(vec![(2, 3), (3, 4)]);
    let (f, _) = parse("descendants(2)").unwrap();
    assert!(f.eval(&record(2, 0, "x", &[]), &tree));
    assert!(f.eval(&record(3, 0, "x", &[]), &tree));
    assert!(f.eval(&record(4, 0, "x", &[]), &tree));
    assert!(!f.eval(&record(5, 0, "x", &[]), &tree));
}

#[test]
fn decimal_text_round_trips() {
    assert_eq!(snap::digits::u64_to_string(0), "0");
    assert_eq!(snap::digits::u64_to_string(7), "7");
    assert_eq!(snap::digits::u64_to_string(1234567890), "1234567890");
    assert_eq!(snap::digits::parse_u32("4294967295"), Some(4294967295));
    assert_eq!(snap::digits::parse_u32("4294967296"), None);
    assert_eq!(snap::digits::parse_u32("+12"), Some(12));
    assert_eq!(snap::digits::parse_u32("-1"), None);
    assert_eq!(snap::digits::parse_u32(""), None);
    assert_eq!(snap::digits::parse_i32("-2147483648"), Some(-2147483648));
    assert_eq!(snap::digits::parse_i32("2147483648"), None);
    assert_eq!(snap::digits::parse_i32("-7"), Some(-7));
}

#[test]
fn negative_pid_filter_parses() {
    let tree = empty_tree();
    let (f, _) = parse("pid(-1)").unwrap();
    assert!(f.eval(&record(-1, 0, "x", &[]), &tree));
    assert!(!f.eval(&record(1, 0, "x", &[]), &tree));
}

#[test]
fn pid_split_filter_builds_the_grammar() {
    assert_eq!(snap::filters::pid_split_filter(&vec![7]), "pid(7)");
    assert_eq!(
        snap::filters::pid_split_filter(&vec![1, 2, 30]),
        "or(pid(1),pid(2),pid(30))"
    );
    // the built text parses back and matches exactly the listed pids
    let tree = empty_tree();
    let expr = snap::filters::pid_split_filter(&vec![1, 2]);
    let (f, ate) = parse(&expr).unwrap();
    assert_eq!(ate, expr.chars().count());
    assert!(f.eval(&record(1, 0, "x", &[]), &tree));
    assert!(f.eval(&record(2, 0, "x", &[]), &tree));
    assert!(!f.eval(&record(3, 0, "x", &[]), &tree));
}
