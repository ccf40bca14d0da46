//! Tests of segment file naming and directory scanning.

use kvs::{log_path, parse_log_name, sorted_gen_list};

#[test]
fn log_path_joins_dir_and_name() {
    let dir = b"/tmp/db".to_vec();
    assert_eq!(log_path(&dir, 1), b"/tmp/db/1.log".to_vec());
    assert_eq!(log_path(&dir, 0), b"/tmp/db/0.log".to_vec());
    assert_eq!(
        log_path(&dir, 18_446_744_073_709_551_615),
        b"/tmp/db/18446744073709551615.log".to_vec()
    );
}

#[test]
fn parse_accepts_canonical_names() {
    assert_eq!(parse_log_name(&b"1.log".to_vec()), Some(1));
    assert_eq!(parse_log_name(&b"0.log".to_vec()), Some(0));
    assert_eq!(parse_log_name(&b"42.log".to_vec()), Some(42));
    assert_eq!(
        parse_log_name(&b"18446744073709551615.log".to_vec()),
        Some(18_446_744_073_709_551_615)
    );
}

#[test]
fn parse_rejects_other_names() {
    let bad: Vec<&[u8]> = vec![
        b"",
        b".log",
        b"x.log",
        b"1.txt",
        b"1.log.bak",
        b"01.log",
        b"-1.log",
        b"18446744073709551616.log",
        b"engine",
    ];
    for name in bad {
        assert_eq!(parse_log_name(&name.to_vec()), None, "{:?}", name);
    }
}

#[test]
fn sorted_gen_list_sorts_and_filters() {
    let names: Vec<Vec<u8>> = vec![
        b"10.log".to_vec(),
        b"engine".to_vec(),
        b"2.log".to_vec(),
        b"notes.txt".to_vec(),
        b"1.log".to_vec(),
    ];
    assert_eq!(sorted_gen_list(&names), vec![1, 2, 10]);
    assert_eq!(sorted_gen_list(&Vec::new()), Vec::<u64>::new());
}

#[test]
fn sorted_gen_list_keeps_each_generation_once() {
    let names: Vec<Vec<u8>> = vec![b"1.log".to_vec(), b"1.log".to_vec(), b"2.log".to_vec()];
    assert_eq!(sorted_gen_list(&names), vec![1, 2]);
}
