//! The replay drivers: feed a whole trace into one adapter instance
//! (upstream), or apply a captured update sequence to a fresh clone of a
//! baseline instance (downstream), and verify the final document length
//! against the expected end content.

use vstd::prelude::*;

verus! {

use crate::unit::{unit_len, byte_len};
use crate::trace::{
    Trace, PatchModel, Patch, replay_trace, replay_txns, replay_patches, apply_patch, simulate,
    str_byte_len, lemma_replay_patches_split, lemma_replay_txns_split, lemma_off_le_ulen,
    lemma_unit_len_le_byte,
};
use crate::adapter::{Upstream, Downstream, ReplayError};
use vstd::string::StrSliceExecFns;

/// The expected final document length of a trace, in the adapter's unit.
pub fn expected_end_len<R: Upstream>(trace: &Trace) -> (n: usize)
    ensures
        n as int == unit_len(R::byte_offsets(), trace@.end),
{
    if R::edits_use_byte_offsets() {
        str_byte_len(trace.end_content.as_str())
    } else {
        trace.end_content.as_str().unicode_len()
    }
}

/// Replays every patch of the trace, in order, against a fresh instance of
/// `R`, then verifies the final length against the expected end content
/// length in `R`'s unit. The trace's offsets must already be in `R`'s unit
/// and in bounds (check with [`crate::trace::simulate`] or use
/// [`replay_upstream_checked`]).
pub fn replay_upstream<R: Upstream>(trace: &Trace) -> (res: Result<R, ReplayError>)
    requires
        replay_trace(R::byte_offsets(), trace@) is Some,
    ensures
        match res {
            Ok(r) => {
                &&& r.inv()
                &&& Some(r.text()) == replay_trace(R::byte_offsets(), trace@)
                &&& unit_len(R::byte_offsets(), r.text()) == unit_len(
                    R::byte_offsets(),
                    trace@.end,
                )
            },
            Err(e) => {
                &&& e matches ReplayError::LengthMismatch { expected, actual }
                    && expected as int == unit_len(R::byte_offsets(), trace@.end)
                    && actual as int == unit_len(
                    R::byte_offsets(),
                    replay_trace(R::byte_offsets(), trace@).unwrap(),
                )
                &&& unit_len(
                    R::byte_offsets(),
                    replay_trace(R::byte_offsets(), trace@).unwrap(),
                ) != unit_len(R::byte_offsets(), trace@.end)
            },
        },
{
    let ghost u = R::byte_offsets();
    let ghost tm = t_model(trace);
    let start_str = trace.start_content.as_str();
    let mut r = R::from_str(start_str);
    proof {
        assert(tm.txns.take(0) =~= Seq::<Seq<PatchModel>>::empty());
        assert(replay_txns(u, tm.start, tm.txns.take(0)) == Some(r.text()));
    }
    let mut ti: usize = 0;
    while ti < trace.txns.len()
        invariant
            tm == trace@,
            replay_trace(u, tm) is Some,
            u == R::byte_offsets(),
            0 <= ti <= trace.txns@.len(),
            tm.txns.len() == trace.txns@.len(),
            r.inv(),
            byte_len(r.text()) <= u32::MAX,
            replay_txns(u, tm.start, tm.txns.take(ti as int)) == Some(r.text()),
        decreases trace.txns@.len() - ti,
    {
        let tx = &trace.txns[ti];
        let ghost txm = tm.txns[ti as int];
        let ghost doc0 = r.text();
        proof {
            assert(txm == tx@);
            assert(txm.take(0) =~= Seq::<PatchModel>::empty());
        }
        let mut pi: usize = 0;
        while pi < tx.patches.len()
            invariant
                tm == trace@,
                replay_trace(u, tm) is Some,
                u == R::byte_offsets(),
                0 <= ti < trace.txns@.len(),
                tm.txns.len() == trace.txns@.len(),
                txm == tm.txns[ti as int],
                txm.len() == tx.patches@.len(),
                txm == tx.patches@.map_values(|q: Patch| q@),
                0 <= pi <= tx.patches@.len(),
                r.inv(),
                byte_len(r.text()) <= u32::MAX,
                replay_txns(u, tm.start, tm.txns.take(ti as int)) == Some(doc0),
                replay_patches(u, doc0, txm.take(pi as int)) == Some(r.text()),
            decreases tx.patches@.len() - pi,
        {
            let p = &tx.patches[pi];
            let ghost cur = r.text();
            proof {
                assert(txm[pi as int] == p@);
                assert(txm.take(pi as int + 1).drop_last() =~= txm.take(pi as int));
                assert(txm.take(pi as int + 1).last() == txm[pi as int]);
                // The whole trace replays, so this very patch must apply.
                assert(txm =~= txm.take(pi as int + 1) + txm.skip(pi as int + 1));
                lemma_replay_patches_split(
                    u,
                    doc0,
                    txm.take(pi as int + 1),
                    txm.skip(pi as int + 1),
                );
                assert(tm.txns.take(ti as int + 1).drop_last() =~= tm.txns.take(ti as int));
                assert(tm.txns.take(ti as int + 1).last() == txm);
                assert(tm.txns =~= tm.txns.take(ti as int + 1) + tm.txns.skip(ti as int + 1));
                lemma_replay_txns_split(
                    u,
                    tm.start,
                    tm.txns.take(ti as int + 1),
                    tm.txns.skip(ti as int + 1),
                );
                assert(apply_patch(u, cur, p@) is Some);
                lemma_off_le_ulen(u, cur, p@.pos + p@.del);
                lemma_unit_len_le_byte(u, cur);
            }
            let end = p.pos + p.del;
            r.replace(p.pos..end, p.ins.as_str());
            pi = pi + 1;
        }
        proof {
            assert(txm.take(txm.len() as int) =~= txm);
            assert(tm.txns.take(ti as int + 1).drop_last() =~= tm.txns.take(ti as int));
            assert(tm.txns.take(ti as int + 1).last() == txm);
        }
        ti = ti + 1;
    }
    proof {
        assert(tm.txns.take(trace.txns@.len() as int) =~= tm.txns);
    }
    let actual = r.len();
    let expected = expected_end_len::<R>(trace);
    if actual == expected {
        Ok(r)
    } else {
        Err(ReplayError::LengthMismatch { expected, actual })
    }
}

spec fn t_model(t: &Trace) -> crate::trace::TraceModel {
    t@
}

/// Validates the trace first, then replays it upstream: the complete,
/// panic-free entry point for traces of unknown validity.
pub fn replay_upstream_checked<R: Upstream>(trace: &Trace) -> (res: Result<R, ReplayError>)
    ensures
        match res {
            Ok(r) => {
                &&& replay_trace(R::byte_offsets(), trace@) is Some
                &&& r.inv()
                &&& Some(r.text()) == replay_trace(R::byte_offsets(), trace@)
                &&& unit_len(R::byte_offsets(), r.text()) == unit_len(
                    R::byte_offsets(),
                    trace@.end,
                )
            },
            Err(ReplayError::InvalidPatch) => replay_trace(R::byte_offsets(), trace@) is None,
            Err(ReplayError::CaptureFailed) => false,
            Err(ReplayError::LengthMismatch { expected, actual }) => {
                &&& replay_trace(R::byte_offsets(), trace@) is Some
                &&& expected as int == unit_len(R::byte_offsets(), trace@.end)
                &&& actual as int == unit_len(
                    R::byte_offsets(),
                    replay_trace(R::byte_offsets(), trace@).unwrap(),
                )
                &&& unit_len(
                    R::byte_offsets(),
                    replay_trace(R::byte_offsets(), trace@).unwrap(),
                ) != unit_len(R::byte_offsets(), trace@.end)
            },
        },
{
    let bytes = R::edits_use_byte_offsets();
    match simulate(bytes, trace) {
        Some(_) => replay_upstream::<R>(trace),
        None => Err(ReplayError::InvalidPatch),
    }
}

/// Update derivation is deterministic at the model level: any two
/// derivations from the same trace yield baselines holding the same document
/// content, and capture equally many updates.
pub proof fn lemma_derivation_deterministic<R: Downstream>(
    trace: &Trace,
    b1: &R,
    n1: int,
    b2: &R,
    n2: int,
)
    requires
        b1.text() == trace@.start,
        n1 == crate::trace::patch_count(trace@.txns),
        b2.text() == trace@.start,
        n2 == crate::trace::patch_count(trace@.txns),
    ensures
        b1.text() == b2.text(),
        n1 == n2,
{
}

/// Clones the baseline instance and applies every captured update in order,
/// then verifies the final length. Cloning is mandatory: updates are captured
/// against one specific causal starting state, and re-applying them to an
/// already mutated instance would corrupt results.
pub fn replay_downstream<R: Downstream>(
    baseline: &R,
    updates: &Vec<R::Update>,
    expected_len: usize,
) -> (res: Result<R, ReplayError>)
    requires
        baseline.inv(),
    ensures
        match res {
            Ok(r) => {
                &&& r.inv()
                &&& unit_len(R::byte_offsets(), r.text()) == expected_len
            },
            Err(e) => e matches ReplayError::LengthMismatch { expected, actual }
                && expected == expected_len && actual != expected_len,
        },
        updates@.len() == 0 && unit_len(R::byte_offsets(), baseline.text()) == expected_len
            ==> res is Ok,
{
    let mut r = baseline.duplicate();
    let mut i: usize = 0;
    while i < updates.len()
        invariant
            r.inv(),
            0 <= i <= updates@.len(),
            updates@.len() == 0 ==> r.text() == baseline.text(),
        decreases updates@.len() - i,
    {
        r.apply_update(&updates[i]);
        i = i + 1;
    }
    let actual = r.len();
    if actual == expected_len {
        Ok(r)
    } else {
        Err(ReplayError::LengthMismatch { expected: expected_len, actual })
    }
}

} // verus!
