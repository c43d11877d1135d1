use crdt_bench::adapter::{Downstream, Upstream};
use yrs::updates::decoder::Decode;
use crdt_bench::driver::{expected_end_len, replay_downstream};
use crdt_bench::engine_dt::Dt;
use crdt_bench::engine_yrs::Yrs;
use crdt_bench::trace::{Patch, Trace, Transaction};

fn patch(pos: usize, del: usize, ins: &str) -> Patch {
    Patch {
        pos,
        del,
        ins: ins.to_string(),
    }
}

fn hello_there_trace() -> Trace {
    Trace {
        start_content: "hello world".to_string(),
        end_content: "hello there".to_string(),
        txns: vec![Transaction {
            patches: vec![patch(6, 5, "there")],
        }],
    }
}

#[test]
fn single_update_downstream_dt() {
    let t = hello_there_trace();
    let (baseline, updates) = Dt::upstream_updates(&t).unwrap();
    assert_eq!(updates.len(), 1);
    assert_eq!(baseline.content(), "hello world");
    let expected = expected_end_len::<Dt>(&t);
    let merged = replay_downstream(&baseline, &updates, expected).unwrap();
    assert_eq!(merged.len(), 11);
    assert_eq!(merged.content(), "hello there");
}

#[test]
fn single_update_downstream_yrs() {
    let t = hello_there_trace();
    let (baseline, updates) = Yrs::upstream_updates(&t).unwrap();
    assert_eq!(updates.len(), 1);
    assert_eq!(baseline.content(), "hello world");
    let expected = expected_end_len::<Yrs>(&t);
    let merged = replay_downstream(&baseline, &updates, expected).unwrap();
    assert_eq!(merged.len(), 11);
    assert_eq!(merged.content(), "hello there");
}

#[test]
fn one_update_per_patch() {
    let t = Trace {
        start_content: "".to_string(),
        end_content: "adbC".to_string(),
        txns: vec![
            Transaction {
                patches: vec![patch(0, 0, "abc")],
            },
            Transaction {
                patches: vec![patch(1, 0, "d"), patch(3, 1, "C")],
            },
        ],
    };
    let (_, updates) = Dt::upstream_updates(&t).unwrap();
    assert_eq!(updates.len(), 3);
}

#[test]
fn repeated_trials_are_isolated_dt() {
    let t = hello_there_trace();
    let (baseline, updates) = Dt::upstream_updates(&t).unwrap();
    let expected = expected_end_len::<Dt>(&t);
    // Applying the fixed update sequence to fresh clones must give the same
    // result every trial; the baseline itself stays unmutated.
    for _ in 0..3 {
        let merged = replay_downstream(&baseline, &updates, expected).unwrap();
        assert_eq!(merged.content(), "hello there");
    }
    assert_eq!(baseline.content(), "hello world");
}

#[test]
fn derivation_is_deterministic_dt() {
    let t = hello_there_trace();
    let (b1, u1) = Dt::upstream_updates(&t).unwrap();
    let (b2, u2) = Dt::upstream_updates(&t).unwrap();
    assert_eq!(b1.content(), b2.content());
    assert_eq!(u1.len(), u2.len());
    let expected = expected_end_len::<Dt>(&t);
    let m1 = replay_downstream(&b1, &u1, expected).unwrap();
    let m2 = replay_downstream(&b2, &u2, expected).unwrap();
    assert_eq!(m1.content(), m2.content());
}

#[test]
fn derivation_is_deterministic_yrs() {
    let t = hello_there_trace();
    let (b1, u1) = Yrs::upstream_updates(&t).unwrap();
    let (b2, u2) = Yrs::upstream_updates(&t).unwrap();
    assert_eq!(b1.content(), b2.content());
    assert_eq!(u1.len(), u2.len());
    let expected = expected_end_len::<Yrs>(&t);
    let m1 = replay_downstream(&b1, &u1, expected).unwrap();
    let m2 = replay_downstream(&b2, &u2, expected).unwrap();
    assert_eq!(m1.content(), m2.content());
}

#[test]
fn duplicate_preserves_content() {
    let t = hello_there_trace();
    let (baseline, _) = Yrs::upstream_updates(&t).unwrap();
    let copy = baseline.duplicate();
    assert_eq!(copy.content(), "hello world");
    assert_eq!(copy.len(), baseline.len());
}

#[test]
fn captured_updates_decode_yrs() {
    let t = hello_there_trace();
    let (_, updates) = Yrs::upstream_updates(&t).unwrap();
    for u in &updates {
        assert!(yrs::Update::decode_v1(u).is_ok());
    }
}
