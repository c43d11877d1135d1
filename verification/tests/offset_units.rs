use crdt_bench::adapter::Upstream;
use crdt_bench::driver::replay_upstream_checked;
use crdt_bench::engine_dt::Dt;
use crdt_bench::engine_yrs::Yrs;
use crdt_bench::trace::{chars_to_bytes, simulate, Patch, Trace, Transaction};

fn patch(pos: usize, del: usize, ins: &str) -> Patch {
    Patch {
        pos,
        del,
        ins: ins.to_string(),
    }
}

#[test]
fn transform_is_identity_on_ascii_offsets() {
    let t = Trace {
        start_content: "hello world".to_string(),
        end_content: "hello there".to_string(),
        txns: vec![Transaction {
            patches: vec![patch(6, 5, "there")],
        }],
    };
    let t2 = chars_to_bytes(&t).unwrap();
    assert_eq!(t2.txns[0].patches[0].pos, 6);
    assert_eq!(t2.txns[0].patches[0].del, 5);
    assert_eq!(t2.txns[0].patches[0].ins, "there");
}

#[test]
fn transform_widens_multibyte_offsets() {
    // "héllo": the char offset 2 sits after a two-byte character.
    let t = Trace {
        start_content: "h\u{e9}llo".to_string(),
        end_content: "h\u{e9}Xlo".to_string(),
        txns: vec![Transaction {
            patches: vec![patch(2, 1, "X")],
        }],
    };
    let t2 = chars_to_bytes(&t).unwrap();
    assert_eq!(t2.txns[0].patches[0].pos, 3);
    assert_eq!(t2.txns[0].patches[0].del, 1);
}

#[test]
fn transform_round_trip_matches_codepoint_replay() {
    // Replaying the transformed trace on a byte-offset engine matches
    // replaying the original on a codepoint-offset engine.
    let t = Trace {
        start_content: "h\u{e9}llo".to_string(),
        end_content: "hello".to_string(),
        txns: vec![Transaction {
            patches: vec![patch(1, 1, "e")],
        }],
    };
    let t2 = chars_to_bytes(&t).unwrap();
    let by_chars = replay_upstream_checked::<Dt>(&t).unwrap();
    let by_bytes = replay_upstream_checked::<Yrs>(&t2).unwrap();
    assert_eq!(by_chars.content(), "hello");
    assert_eq!(by_bytes.content(), "hello");
    assert_eq!(by_chars.content(), by_bytes.content());
}

#[test]
fn transform_rejects_invalid_traces() {
    let t = Trace {
        start_content: "ab".to_string(),
        end_content: "ab".to_string(),
        txns: vec![Transaction {
            patches: vec![patch(5, 0, "x")],
        }],
    };
    assert!(chars_to_bytes(&t).is_none());
}

#[test]
fn simulate_validates_and_measures() {
    let t = Trace {
        start_content: "h\u{e9}llo".to_string(),
        end_content: "hello".to_string(),
        txns: vec![Transaction {
            patches: vec![patch(1, 1, "e")],
        }],
    };
    // In codepoint units the patch is valid; the final document is "hello",
    // five characters and five bytes.
    let (doc, bytes) = simulate(false, &t).unwrap();
    assert_eq!(doc.len(), 5);
    assert_eq!(bytes, 5);
    // In byte units offset 1 splits the two-byte character.
    assert!(simulate(true, &t).is_none());
}

#[test]
fn total_patches_counts_every_transaction() {
    let t = Trace {
        start_content: "".to_string(),
        end_content: "".to_string(),
        txns: vec![
            Transaction {
                patches: vec![patch(0, 0, "a"), patch(0, 0, "b")],
            },
            Transaction { patches: vec![] },
            Transaction {
                patches: vec![patch(0, 0, "c")],
            },
        ],
    };
    assert_eq!(crdt_bench::trace::total_patches(&t), 3);
}
