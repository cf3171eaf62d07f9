use cocorust::trace::Trace;
use std::path::PathBuf;

fn trace() -> Trace {
    Trace::new(PathBuf::from("out"))
}

#[test]
fn trace_keeps_its_directory() {
    let t = Trace::new(PathBuf::from("some/dir"));
    assert_eq!(t.dir(), &PathBuf::from("some/dir"));
}

#[test]
fn positive_width_pads_on_the_left() {
    assert_eq!(trace().format_string(String::from("ab"), 5), "   ab");
    assert_eq!(trace().format_string(String::from("7"), 2), " 7");
}

#[test]
fn negative_width_pads_on_the_right() {
    assert_eq!(trace().format_string(String::from("ab"), -5), "ab   ");
    assert_eq!(trace().format_string(String::from("name"), -6), "name  ");
}

#[test]
fn a_string_that_fills_the_field_stays() {
    assert_eq!(trace().format_string(String::from("hello"), 5), "hello");
    assert_eq!(trace().format_string(String::from("hello"), -5), "hello");
    assert_eq!(trace().format_string(String::from("hello"), 3), "hello");
    assert_eq!(trace().format_string(String::from("hello"), -3), "hello");
    assert_eq!(trace().format_string(String::from("hello"), 0), "hello");
}

#[test]
fn the_empty_string_becomes_blanks() {
    assert_eq!(trace().format_string(String::new(), 3), "   ");
    assert_eq!(trace().format_string(String::new(), -2), "  ");
    assert_eq!(trace().format_string(String::new(), 0), "");
}

#[test]
fn places_are_counted_in_bytes() {
    // "é" takes two bytes, so only one blank goes in front of "é1".
    assert_eq!(trace().format_string(String::from("é1"), 4), " é1");
    assert_eq!(trace().format_string(String::from("é1"), -4), "é1 ");
}
