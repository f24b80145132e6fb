use flamegraph::line::{parse_line, Annotation, LineError, StackLine};
use flamegraph::text::{compare_bytes, parse_u64, Rank};

fn line(text: &str) -> StackLine {
    parse_line(text.as_bytes()).unwrap().unwrap()
}

fn names(l: &StackLine) -> Vec<String> {
    l.frames.iter().map(|f| String::from_utf8(f.name.clone()).unwrap()).collect()
}

#[test]
fn a_stack_and_a_count() {
    let l = line("a;b 5");
    assert_eq!(names(&l), vec!["a", "b"]);
    assert_eq!(l.count, 5);
    assert_eq!(l.delta, None);
}

#[test]
fn two_counts_give_the_difference() {
    let l = line("a;b 5 8");
    assert_eq!(names(&l), vec!["a", "b"]);
    assert_eq!(l.count, 5);
    assert_eq!(l.delta, Some(3));
    let l = line("a 8 5");
    assert_eq!(l.count, 8);
    assert_eq!(l.delta, Some(-3));
}

#[test]
fn white_space_around_the_line_is_dropped() {
    let l = line("  \tmain;run   42 \r\n");
    assert_eq!(names(&l), vec!["main", "run"]);
    assert_eq!(l.count, 42);
}

#[test]
fn a_blank_line_is_no_line() {
    assert!(parse_line(b"").unwrap().is_none());
    assert!(parse_line(b"   \t \r").unwrap().is_none());
}

#[test]
fn names_may_hold_spaces() {
    let l = line("operator new(unsigned long);foo bar 3");
    assert_eq!(names(&l), vec!["operator new(unsigned long)", "foo bar"]);
    assert_eq!(l.count, 3);
}

#[test]
fn a_number_alone_before_the_count_is_the_stack() {
    let l = line("5 3");
    assert_eq!(names(&l), vec!["5"]);
    assert_eq!(l.count, 3);
    assert_eq!(l.delta, None);
}

#[test]
fn tags_become_annotations() {
    let l = line("f_[k];g_[i];h_[j];w_[w];plain_[x];_[k] 1");
    assert_eq!(names(&l), vec!["f", "g", "h", "w", "plain_[x]", ""]);
    let tags: Vec<Annotation> = l.frames.iter().map(|f| f.annotation).collect();
    assert_eq!(
        tags,
        vec![
            Annotation::Kernel,
            Annotation::Inlined,
            Annotation::Jit,
            Annotation::Waker,
            Annotation::Plain,
            Annotation::Kernel
        ]
    );
}

#[test]
fn empty_labels_are_frames_too() {
    let l = line("a;;b 1");
    assert_eq!(names(&l), vec!["a", "", "b"]);
}

#[test]
fn a_line_without_a_count() {
    assert_eq!(parse_line(b"abc").err(), Some(LineError::MissingCount));
    assert_eq!(parse_line(b"a;b;c").err(), Some(LineError::MissingCount));
}

#[test]
fn a_count_that_is_no_number() {
    assert_eq!(parse_line(b"a;b x").err(), Some(LineError::InvalidCount));
    assert_eq!(parse_line(b"a;b -5").err(), Some(LineError::InvalidCount));
    assert_eq!(parse_line(b"a;b 1.5").err(), Some(LineError::InvalidCount));
    assert_eq!(parse_line(b"a 99999999999999999999").err(), Some(LineError::InvalidCount));
}

#[test]
fn a_count_without_a_stack() {
    assert_eq!(parse_line(b"5").err(), Some(LineError::EmptyStack));
    assert_eq!(parse_line(b"  7  ").err(), Some(LineError::EmptyStack));
}

#[test]
fn a_count_of_zero() {
    assert_eq!(parse_line(b"a;b 0").err(), Some(LineError::ZeroCount));
    assert_eq!(parse_line(b"a;b 0 5").err(), Some(LineError::ZeroCount));
}

#[test]
fn counts_too_far_apart() {
    assert_eq!(
        parse_line(b"a 18446744073709551615 0").err(),
        Some(LineError::InvalidCount)
    );
    let l = line("a 1 9223372036854775808");
    assert_eq!(l.delta, Some(9223372036854775807));
    assert_eq!(parse_line(b"a 1 9223372036854775809").err(), Some(LineError::InvalidCount));
}

#[test]
fn the_largest_count() {
    let l = line("a 18446744073709551615");
    assert_eq!(l.count, u64::MAX);
    assert_eq!(parse_u64(b"18446744073709551616"), None);
    assert_eq!(parse_u64(b"007"), Some(7));
    assert_eq!(parse_u64(b""), None);
}

#[test]
fn alphabetical_order_of_bytes() {
    assert_eq!(compare_bytes(b"a", b"b"), Rank::Before);
    assert_eq!(compare_bytes(b"ab", b"a"), Rank::After);
    assert_eq!(compare_bytes(b"a", b"ab"), Rank::Before);
    assert_eq!(compare_bytes(b"abc", b"abc"), Rank::Same);
    assert_eq!(compare_bytes(b"", b""), Rank::Same);
    assert_eq!(compare_bytes(b"B", b"a"), Rank::Before);
}
