//! Adapter for the diamond-types list CRDT. Edits are addressed in codepoint
//! offsets; the engine's state is an append-only operation log whose checked
//! out tip is the current document. Downstream updates are the engine's
//! serialized encoding of the operations since a previous local version.

use vstd::prelude::*;

verus! {

use diamond_types::list::OpLog;
use crate::unit::{byte_len, edit_ok, edited};
use crate::trace::{
    Trace, Patch, PatchModel, replay_trace, replay_txns, replay_patches, apply_patch, simulate,
    patch_count, lemma_replay_patches_split, lemma_replay_txns_split, lemma_off_le_ulen,
    lemma_unit_len_le_byte,
};
use crate::adapter::{Upstream, Downstream, ReplayError};

#[verifier::external_type_specification]
#[verifier::external_body]
pub struct ExOpLog(OpLog);

/// The characters of the document that an oplog's full history produces.
pub uninterp spec fn dt_text(o: OpLog) -> Seq<char>;

/// The agent id has been created in this oplog.
pub uninterp spec fn dt_agent_ok(o: OpLog, agent: u32) -> bool;

/// The local version is one this oplog knows and can encode changes from.
pub uninterp spec fn dt_frontier_ok(o: OpLog, v: Seq<usize>) -> bool;

/// Relies on diamond_types::list::OpLog::new: a fresh oplog holds an empty
/// document, and the root (empty) version is always known.
#[verifier::external_body]
fn dt_new() -> (o: OpLog)
    ensures
        dt_text(o) == Seq::<char>::empty(),
        dt_frontier_ok(o, Seq::<usize>::empty()),
{
    OpLog::new()
}

/// Relies on OpLog::get_or_create_agent_id: registers an agent name and
/// returns its id; the document, known versions and existing agents are
/// unchanged.
#[verifier::external_body]
fn dt_agent(o: &mut OpLog, name: &str) -> (a: u32)
    ensures
        dt_agent_ok(*final(o), a),
        dt_text(*final(o)) == dt_text(*old(o)),
        forall|v: Seq<usize>| dt_frontier_ok(*old(o), v) ==> dt_frontier_ok(*final(o), v),
        forall|b: u32| dt_agent_ok(*old(o), b) ==> dt_agent_ok(*final(o), b),
{
    o.get_or_create_agent_id(name)
}

/// Relies on OpLog::add_insert: appends a local insertion of `s` at
/// codepoint position `pos` and returns the resulting version. The log is
/// append-only, so agents and previously known versions stay valid.
#[verifier::external_body]
fn dt_insert(o: &mut OpLog, agent: u32, pos: usize, s: &str) -> (t: usize)
    requires
        dt_agent_ok(*old(o), agent),
        s@.len() > 0,
        pos as int <= dt_text(*old(o)).len(),
    ensures
        dt_text(*final(o)) == dt_text(*old(o)).take(pos as int) + s@ + dt_text(*old(o)).skip(
            pos as int,
        ),
        dt_frontier_ok(*final(o), seq![t]),
        forall|v: Seq<usize>| dt_frontier_ok(*old(o), v) ==> dt_frontier_ok(*final(o), v),
        forall|b: u32| dt_agent_ok(*old(o), b) ==> dt_agent_ok(*final(o), b),
{
    o.add_insert(agent, pos, s)
}

/// Relies on OpLog::add_delete_without_content: appends a local deletion of
/// the codepoint range and returns the resulting version. The log is
/// append-only, so agents and previously known versions stay valid.
#[verifier::external_body]
fn dt_delete(o: &mut OpLog, agent: u32, start: usize, end: usize) -> (t: usize)
    requires
        dt_agent_ok(*old(o), agent),
        start < end,
        end as int <= dt_text(*old(o)).len(),
    ensures
        dt_text(*final(o)) == dt_text(*old(o)).take(start as int) + dt_text(*old(o)).skip(
            end as int,
        ),
        dt_frontier_ok(*final(o), seq![t]),
        forall|v: Seq<usize>| dt_frontier_ok(*old(o), v) ==> dt_frontier_ok(*final(o), v),
        forall|b: u32| dt_agent_ok(*old(o), b) ==> dt_agent_ok(*final(o), b),
{
    o.add_delete_without_content(agent, start..end)
}

/// Relies on OpLog::checkout_tip and Branch::len: the current document
/// length in codepoints.
#[verifier::external_body]
fn dt_len(o: &OpLog) -> (n: usize)
    ensures
        n as int == dt_text(*o).len(),
{
    o.checkout_tip().len()
}

/// Relies on OpLog::checkout_tip and Branch::content: the current document
/// contents.
#[verifier::external_body]
fn dt_content(o: &OpLog) -> (s: String)
    ensures
        s@ == dt_text(*o),
{
    o.checkout_tip().content().to_string()
}

/// Relies on OpLog::encode_from: serializes the changes made since the given
/// version into one update capsule.
#[verifier::external_body]
fn dt_encode_from(o: &OpLog, from: &Vec<usize>) -> (u: Vec<u8>)
    requires
        dt_frontier_ok(*o, from@),
{
    let opts = diamond_types::list::encoding::EncodeOptions {
        user_data: None,
        store_start_branch_content: true,
        store_inserted_content: true,
        store_deleted_content: false,
        compress_content: false,
        verbose: false,
    };
    o.encode_from(opts, from.as_slice())
}

/// Relies on OpLog::decode_and_add: merges a previously encoded update into
/// this oplog; merging only adds history, so agents and known versions stay
/// valid.
#[verifier::external_body]
fn dt_merge(o: &mut OpLog, data: &[u8]) -> (ok: bool)
    ensures
        forall|v: Seq<usize>| dt_frontier_ok(*old(o), v) ==> dt_frontier_ok(*final(o), v),
        forall|b: u32| dt_agent_ok(*old(o), b) ==> dt_agent_ok(*final(o), b),
{
    o.decode_and_add(data).is_ok()
}

/// Relies on OpLog::clone: an independent copy with the same history,
/// document, agents and known versions.
#[verifier::external_body]
fn dt_clone(o: &OpLog) -> (r: OpLog)
    ensures
        dt_text(r) == dt_text(*o),
        forall|v: Seq<usize>| dt_frontier_ok(*o, v) ==> dt_frontier_ok(r, v),
        forall|b: u32| dt_agent_ok(*o, b) ==> dt_agent_ok(r, b),
{
    o.clone()
}

/// The diamond-types engine adapter: an operation log, the local agent, and
/// the current local version that downstream captures encode from.
pub struct Dt {
    oplog: OpLog,
    agent: u32,
    version: Vec<usize>,
}

impl Dt {
    /// The adapter's current document contents.
    pub fn content(&self) -> (s: String)
        ensures
            s@ == self.text(),
    {
        dt_content(&self.oplog)
    }

    fn copy_version(&self) -> (v: Vec<usize>)
        ensures
            v@ == self.version@,
    {
        let mut v: Vec<usize> = Vec::new();
        let mut k: usize = 0;
        while k < self.version.len()
            invariant
                0 <= k <= self.version@.len(),
                v@ == self.version@.take(k as int),
            decreases self.version@.len() - k,
        {
            v.push(self.version[k]);
            proof {
                assert(self.version@.take(k as int + 1) =~= self.version@.take(k as int)
                    + seq![self.version@[k as int]]);
            }
            k = k + 1;
        }
        proof {
            assert(self.version@.take(self.version@.len() as int) =~= self.version@);
        }
        v
    }

    /// One whole patch against the engine: delete the non-empty part of the
    /// range, insert the non-empty text, exactly as `replace` composes them,
    /// while keeping previously known versions encodable.
    fn splice_patch(&mut self, pos: usize, end: usize, ins: &str)
        requires
            old(self).inv(),
            pos <= end,
            edit_ok(false, old(self).text(), pos as int, end as int),
        ensures
            final(self).inv(),
            final(self).text() == edited(false, old(self).text(), pos as int, end as int, ins@),
            forall|v: Seq<usize>|
                dt_frontier_ok(old(self).oplog, v) ==> dt_frontier_ok(final(self).oplog, v),
    {
        let ghost doc = self.text();
        if end > pos {
            let t = dt_delete(&mut self.oplog, self.agent, pos, end);
            let mut v: Vec<usize> = Vec::new();
            v.push(t);
            self.version = v;
            proof {
                assert(self.version@ =~= seq![t]);
            }
        } else {
            proof {
                assert(doc.take(pos as int) + Seq::<char>::empty() + doc.skip(pos as int) =~= doc);
            }
        }
        if !ins.is_empty() {
            let ghost mid = self.text();
            proof {
                assert(mid =~= doc.take(pos as int) + doc.skip(end as int));
                assert(pos as int <= mid.len()) by {
                    assert(doc.take(pos as int).len() == pos as int);
                }
            }
            let t = dt_insert(&mut self.oplog, self.agent, pos, ins);
            let mut v: Vec<usize> = Vec::new();
            v.push(t);
            self.version = v;
            proof {
                assert(self.version@ =~= seq![t]);
                assert(mid.take(pos as int) =~= doc.take(pos as int));
                assert(mid.skip(pos as int) =~= doc.skip(end as int));
                assert(self.text() =~= doc.take(pos as int) + ins@ + doc.skip(end as int));
            }
        } else {
            proof {
                assert(self.text() =~= doc.take(pos as int) + ins@ + doc.skip(end as int));
            }
        }
    }
}

impl Upstream for Dt {
    closed spec fn text(&self) -> Seq<char> {
        dt_text(self.oplog)
    }

    closed spec fn inv(&self) -> bool {
        &&& dt_agent_ok(self.oplog, self.agent)
        &&& dt_frontier_ok(self.oplog, self.version@)
    }

    open spec fn byte_offsets() -> bool {
        false
    }

    fn edits_use_byte_offsets() -> (r: bool) {
        false
    }

    fn name() -> (r: &'static str) {
        "diamond-types"
    }

    fn from_str(s: &str) -> (r: Self) {
        let mut oplog = dt_new();
        let agent = dt_agent(&mut oplog, "bench");
        let mut version: Vec<usize> = Vec::new();
        if !s.is_empty() {
            let t = dt_insert(&mut oplog, agent, 0, s);
            version = Vec::new();
            version.push(t);
            proof {
                assert(version@ =~= seq![t]);
                assert(dt_text(oplog) =~= s@);
            }
        } else {
            proof {
                assert(version@ =~= Seq::<usize>::empty());
                assert(dt_text(oplog) =~= s@);
            }
        }
        Dt { oplog, agent, version }
    }

    fn insert(&mut self, at_offset: usize, text: &str) {
        let ghost doc = self.text();
        let t = dt_insert(&mut self.oplog, self.agent, at_offset, text);
        let mut v: Vec<usize> = Vec::new();
        v.push(t);
        self.version = v;
        proof {
            assert(self.version@ =~= seq![t]);
            assert(self.text() == edited(
                false,
                doc,
                at_offset as int,
                at_offset as int,
                text@,
            ));
        }
    }

    fn remove(&mut self, between_offsets: core::ops::Range<usize>) {
        let ghost doc = self.text();
        let start = between_offsets.start;
        let end = between_offsets.end;
        let t = dt_delete(&mut self.oplog, self.agent, start, end);
        let mut v: Vec<usize> = Vec::new();
        v.push(t);
        self.version = v;
        proof {
            assert(self.version@ =~= seq![t]);
            assert(self.text() == edited(
                false,
                doc,
                start as int,
                end as int,
                Seq::<char>::empty(),
            ));
        }
    }

    fn len(&self) -> (r: usize) {
        dt_len(&self.oplog)
    }
}

impl Downstream for Dt {
    type Update = Vec<u8>;

    open spec fn update_ok(u: Vec<u8>) -> bool {
        true
    }

    fn duplicate(&self) -> (r: Self) {
        Dt { oplog: dt_clone(&self.oplog), agent: self.agent, version: self.copy_version() }
    }

    fn upstream_updates(trace: &Trace) -> (res: Result<(Self, Vec<Vec<u8>>), ReplayError>) {
        match simulate(false, trace) {
            Some(_) => {},
            None => {
                return Err(ReplayError::InvalidPatch);
            },
        }
        let ghost tm = trace@;
        let mut upstream = Self::from_str(trace.start_content.as_str());
        let mut updates: Vec<Vec<u8>> = Vec::new();
        proof {
            assert(tm.txns.take(0) =~= Seq::<Seq<PatchModel>>::empty());
            assert(patch_count(tm.txns.take(0)) == 0);
        }
        let mut ti: usize = 0;
        while ti < trace.txns.len()
            invariant
                tm == trace@,
                replay_trace(false, tm) is Some,
                0 <= ti <= trace.txns@.len(),
                tm.txns.len() == trace.txns@.len(),
                upstream.inv(),
                byte_len(upstream.text()) <= u32::MAX,
                replay_txns(false, tm.start, tm.txns.take(ti as int)) == Some(upstream.text()),
                updates@.len() == patch_count(tm.txns.take(ti as int)),
            decreases trace.txns@.len() - ti,
        {
            let tx = &trace.txns[ti];
            let ghost txm = tm.txns[ti as int];
            let ghost doc0 = upstream.text();
            let ghost count0 = updates@.len() as int;
            proof {
                assert(txm == tx@);
                assert(txm.take(0) =~= Seq::<PatchModel>::empty());
            }
            let mut pi: usize = 0;
            while pi < tx.patches.len()
                invariant
                    tm == trace@,
                    replay_trace(false, tm) is Some,
                    0 <= ti < trace.txns@.len(),
                    tm.txns.len() == trace.txns@.len(),
                    txm == tm.txns[ti as int],
                    txm.len() == tx.patches@.len(),
                    txm == tx.patches@.map_values(|q: Patch| q@),
                    0 <= pi <= tx.patches@.len(),
                    upstream.inv(),
                    byte_len(upstream.text()) <= u32::MAX,
                    replay_txns(false, tm.start, tm.txns.take(ti as int)) == Some(doc0),
                    replay_patches(false, doc0, txm.take(pi as int)) == Some(upstream.text()),
                    count0 == patch_count(tm.txns.take(ti as int)),
                    updates@.len() == count0 + pi,
                decreases tx.patches@.len() - pi,
            {
                let p = &tx.patches[pi];
                let ghost cur = upstream.text();
                proof {
                    assert(txm[pi as int] == p@);
                    assert(txm.take(pi as int + 1).drop_last() =~= txm.take(pi as int));
                    assert(txm.take(pi as int + 1).last() == txm[pi as int]);
                    assert(txm =~= txm.take(pi as int + 1) + txm.skip(pi as int + 1));
                    lemma_replay_patches_split(
                        false,
                        doc0,
                        txm.take(pi as int + 1),
                        txm.skip(pi as int + 1),
                    );
                    assert(tm.txns.take(ti as int + 1).drop_last() =~= tm.txns.take(ti as int));
                    assert(tm.txns.take(ti as int + 1).last() == txm);
                    assert(tm.txns =~= tm.txns.take(ti as int + 1) + tm.txns.skip(ti as int + 1));
                    lemma_replay_txns_split(
                        false,
                        tm.start,
                        tm.txns.take(ti as int + 1),
                        tm.txns.skip(ti as int + 1),
                    );
                    assert(apply_patch(false, cur, p@) is Some);
                    lemma_off_le_ulen(false, cur, p@.pos + p@.del);
                    lemma_unit_len_le_byte(false, cur);
                }
                let prev_version = upstream.copy_version();
                let end = p.pos + p.del;
                upstream.splice_patch(p.pos, end, p.ins.as_str());
                let u = dt_encode_from(&upstream.oplog, &prev_version);
                updates.push(u);
                pi = pi + 1;
            }
            proof {
                assert(txm.take(txm.len() as int) =~= txm);
                assert(tm.txns.take(ti as int + 1).drop_last() =~= tm.txns.take(ti as int));
                assert(tm.txns.take(ti as int + 1).last() == txm);
                assert(patch_count(tm.txns.take(ti as int + 1)) == patch_count(
                    tm.txns.take(ti as int),
                ) + txm.len());
            }
            ti = ti + 1;
        }
        proof {
            assert(tm.txns.take(trace.txns@.len() as int) =~= tm.txns);
        }
        let baseline = Self::from_str(trace.start_content.as_str());
        Ok((baseline, updates))
    }

    fn apply_update(&mut self, update: &Vec<u8>) {
        let _merged = dt_merge(&mut self.oplog, update.as_slice());
    }
}

} // verus!
