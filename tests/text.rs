use aoc::text::parse_signed;
use aoc::text::split_lines;
use aoc::text::split_on;
use aoc::text::split_words;
use aoc::text::MoreItertools;

#[test]
fn splitting_keeps_empty_pieces() {
    assert_eq!(
        split_on(b"a,,bc,", b','),
        vec![b"a".to_vec(), vec![], b"bc".to_vec(), vec![]]
    );
    assert_eq!(split_on(b"", b','), vec![Vec::<u8>::new()]);
}

#[test]
fn lines_drop_final_separator() {
    assert_eq!(split_lines(b"ab\ncd\n"), vec![b"ab".to_vec(), b"cd".to_vec()]);
    assert_eq!(split_lines(b"ab\n\ncd"), vec![b"ab".to_vec(), vec![], b"cd".to_vec()]);
    assert!(split_lines(b"").is_empty());
}

#[test]
fn words_skip_runs_of_spaces() {
    assert_eq!(
        split_words(b"  12  3 -4 "),
        vec![b"12".to_vec(), b"3".to_vec(), b"-4".to_vec()]
    );
    assert!(split_words(b"   ").is_empty());
}

#[test]
fn numbers_are_read() {
    assert_eq!(b"0042".as_slice().parse_int(), 42);
    assert_eq!(b"".as_slice().parse_int(), 0);
    assert_eq!(parse_signed(b"-17"), -17);
    assert_eq!(parse_signed(b"+8"), 8);
    assert_eq!(parse_signed(b"9223372036854775807"), i64::MAX);
}
