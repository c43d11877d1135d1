use crdt_bench::adapter::Upstream;
use crdt_bench::engine_automerge::Automerge;
use crdt_bench::engine_cola::Cola;
use crdt_bench::engine_dt::Dt;
use crdt_bench::engine_yrs::Yrs;

// The default replace composition: an empty range with empty text touches
// nothing; an empty range with text only inserts; a non-empty range with
// empty text only removes.

#[test]
fn replace_noop_dt() {
    let mut r = Dt::from_str("abc");
    r.replace(1..1, "");
    assert_eq!(r.len(), 3);
    assert_eq!(r.content(), "abc");
}

#[test]
fn replace_insert_only_dt() {
    let mut r = Dt::from_str("abc");
    r.replace(1..1, "XY");
    assert_eq!(r.content(), "aXYbc");
}

#[test]
fn replace_remove_only_dt() {
    let mut r = Dt::from_str("abc");
    r.replace(1..2, "");
    assert_eq!(r.content(), "ac");
}

#[test]
fn replace_noop_yrs() {
    let mut r = Yrs::from_str("abc");
    r.replace(2..2, "");
    assert_eq!(r.len(), 3);
    assert_eq!(r.content(), "abc");
}

#[test]
fn replace_insert_only_yrs() {
    let mut r = Yrs::from_str("abc");
    r.replace(3..3, "d");
    assert_eq!(r.content(), "abcd");
}

#[test]
fn replace_remove_only_yrs() {
    let mut r = Yrs::from_str("abc");
    r.replace(0..2, "");
    assert_eq!(r.content(), "c");
}

#[test]
fn replace_noop_automerge() {
    let mut r = Automerge::from_str("abc");
    r.replace(0..0, "");
    assert_eq!(r.len(), 3);
    assert_eq!(r.content(), "abc");
}

#[test]
fn replace_both_parts_automerge() {
    let mut r = Automerge::from_str("abcdef");
    r.replace(1..4, "Z");
    assert_eq!(r.content(), "aZef");
    assert_eq!(r.len(), 4);
}

#[test]
fn replace_noop_cola() {
    let mut r = Cola::from_str("abc");
    r.replace(1..1, "");
    assert_eq!(r.len(), 3);
}

#[test]
fn replace_both_parts_cola() {
    let mut r = Cola::from_str("abcdef");
    r.replace(1..4, "Z");
    assert_eq!(r.len(), 4);
}

#[test]
fn insert_and_remove_directly_dt() {
    let mut r = Dt::from_str("hello");
    r.insert(5, " world");
    assert_eq!(r.content(), "hello world");
    r.remove(0..6);
    assert_eq!(r.content(), "world");
    assert_eq!(r.len(), 5);
}

#[test]
fn insert_and_remove_directly_yrs() {
    let mut r = Yrs::from_str("hello");
    r.insert(0, ">> ");
    assert_eq!(r.content(), ">> hello");
    r.remove(0..3);
    assert_eq!(r.content(), "hello");
}

#[test]
fn multibyte_byte_offset_edit_yrs() {
    // "é" is two bytes; editing after it uses byte offset 2.
    let mut r = Yrs::from_str("\u{e9}a");
    r.insert(2, "X");
    assert_eq!(r.content(), "\u{e9}Xa");
    assert_eq!(r.len(), 4);
}

#[test]
fn from_str_reports_seed_length() {
    assert_eq!(Dt::from_str("h\u{e9}llo").len(), 5);
    assert_eq!(Yrs::from_str("h\u{e9}llo").len(), 6);
    assert_eq!(Automerge::from_str("h\u{e9}llo").len(), 6);
    assert_eq!(Cola::from_str("h\u{e9}llo").len(), 6);
    assert_eq!(Dt::from_str("").len(), 0);
    assert_eq!(Yrs::from_str("").len(), 0);
}
