use crdt_bench::adapter::{ReplayError, Upstream};
use crdt_bench::driver::{expected_end_len, replay_upstream_checked};
use crdt_bench::engine_automerge::Automerge;
use crdt_bench::engine_cola::Cola;
use crdt_bench::engine_dt::Dt;
use crdt_bench::engine_yrs::Yrs;
use crdt_bench::trace::{Patch, Trace, Transaction};

fn patch(pos: usize, del: usize, ins: &str) -> Patch {
    Patch {
        pos,
        del,
        ins: ins.to_string(),
    }
}

fn one_patch_trace(start: &str, p: Patch, end: &str) -> Trace {
    Trace {
        start_content: start.to_string(),
        end_content: end.to_string(),
        txns: vec![Transaction { patches: vec![p] }],
    }
}

fn hello_trace() -> Trace {
    one_patch_trace("", patch(0, 0, "hello"), "hello")
}

fn hello_there_trace() -> Trace {
    one_patch_trace("hello world", patch(6, 5, "there"), "hello there")
}

#[test]
fn insert_into_empty_dt() {
    let t = hello_trace();
    let r = replay_upstream_checked::<Dt>(&t).unwrap();
    assert_eq!(r.len(), 5);
    assert_eq!(r.content(), "hello");
}

#[test]
fn insert_into_empty_yrs() {
    let t = hello_trace();
    let r = replay_upstream_checked::<Yrs>(&t).unwrap();
    assert_eq!(r.len(), 5);
    assert_eq!(r.content(), "hello");
}

#[test]
fn insert_into_empty_automerge() {
    let t = hello_trace();
    let r = replay_upstream_checked::<Automerge>(&t).unwrap();
    assert_eq!(r.len(), 5);
    assert_eq!(r.content(), "hello");
}

#[test]
fn insert_into_empty_cola() {
    let t = hello_trace();
    let r = replay_upstream_checked::<Cola>(&t).unwrap();
    assert_eq!(r.len(), 5);
}

#[test]
fn replace_word_dt() {
    let t = hello_there_trace();
    let r = replay_upstream_checked::<Dt>(&t).unwrap();
    assert_eq!(r.len(), 11);
    assert_eq!(r.content(), "hello there");
}

#[test]
fn replace_word_yrs() {
    let t = hello_there_trace();
    let r = replay_upstream_checked::<Yrs>(&t).unwrap();
    assert_eq!(r.len(), 11);
    assert_eq!(r.content(), "hello there");
}

#[test]
fn replace_word_automerge() {
    let t = hello_there_trace();
    let r = replay_upstream_checked::<Automerge>(&t).unwrap();
    assert_eq!(r.len(), 11);
    assert_eq!(r.content(), "hello there");
}

#[test]
fn replace_word_cola() {
    let t = hello_there_trace();
    let r = replay_upstream_checked::<Cola>(&t).unwrap();
    assert_eq!(r.len(), 11);
}

#[test]
fn multi_transaction_replay() {
    let t = Trace {
        start_content: "abc".to_string(),
        end_content: "aXYd".to_string(),
        txns: vec![
            Transaction {
                patches: vec![patch(1, 2, "XY"), patch(3, 0, "c")],
            },
            Transaction {
                patches: vec![patch(3, 1, "d")],
            },
        ],
    };
    let r = replay_upstream_checked::<Dt>(&t).unwrap();
    assert_eq!(r.content(), "aXYd");
    assert_eq!(r.len(), 4);
}

#[test]
fn out_of_bounds_patch_is_rejected() {
    let t = one_patch_trace("abc", patch(7, 0, "x"), "abc");
    match replay_upstream_checked::<Dt>(&t) {
        Err(ReplayError::InvalidPatch) => {}
        other => panic!("expected an invalid patch error, got {:?}", other.is_ok()),
    }
}

#[test]
fn deletion_beyond_end_is_rejected() {
    let t = one_patch_trace("abc", patch(1, 5, ""), "a");
    match replay_upstream_checked::<Yrs>(&t) {
        Err(ReplayError::InvalidPatch) => {}
        other => panic!("expected an invalid patch error, got {:?}", other.is_ok()),
    }
}

#[test]
fn off_boundary_byte_offset_is_rejected() {
    // The second byte of a two-byte character is not a valid byte offset.
    let t = one_patch_trace("\u{e9}bc", patch(1, 0, "x"), "\u{e9}xbc");
    match replay_upstream_checked::<Yrs>(&t) {
        Err(ReplayError::InvalidPatch) => {}
        other => panic!("expected an invalid patch error, got {:?}", other.is_ok()),
    }
}

#[test]
fn length_mismatch_is_reported() {
    let t = one_patch_trace("", patch(0, 0, "hello"), "hello!!");
    match replay_upstream_checked::<Dt>(&t) {
        Err(ReplayError::LengthMismatch { expected, actual }) => {
            assert_eq!(expected, 7);
            assert_eq!(actual, 5);
        }
        _ => panic!("expected a length mismatch"),
    }
}

#[test]
fn expected_end_len_follows_unit() {
    let t = one_patch_trace("", patch(0, 0, "\u{e9}a"), "\u{e9}a");
    // Two codepoints, three UTF-8 bytes.
    assert_eq!(expected_end_len::<Dt>(&t), 2);
    assert_eq!(expected_end_len::<Yrs>(&t), 3);
}

#[test]
fn unit_flags_match_engines() {
    assert!(!Dt::edits_use_byte_offsets());
    assert!(Yrs::edits_use_byte_offsets());
    assert!(Automerge::edits_use_byte_offsets());
    assert!(Cola::edits_use_byte_offsets());
    assert_eq!(Dt::name(), "diamond-types");
    assert_eq!(Yrs::name(), "yrs");
    assert_eq!(Automerge::name(), "automerge");
    assert_eq!(Cola::name(), "cola");
}
