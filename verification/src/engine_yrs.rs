//! Adapter for the yrs (Y.js port) CRDT. The document lives in a `yrs::Doc`
//! and is edited through a text handle; offsets are UTF-8 byte offsets (the
//! doc's default offset kind), and the engine indexes with `u32`. Downstream
//! updates are v1-encoded state diffs against the destination's state vector.

use vstd::prelude::*;

verus! {

use crate::unit::{
    byte_len, off_to_idx, edit_ok, edited, lemma_byte_len_concat, lemma_idx_take, lemma_idx_mono,
    lemma_byte_len_ge_len,
};
use crate::trace::{
    Trace, Patch, PatchModel, replay_trace, replay_txns, replay_patches, apply_patch, simulate,
    patch_count, lemma_replay_patches_split, lemma_replay_txns_split, lemma_off_le_ulen,
    lemma_unit_len_le_byte, lemma_byte_len_split3,
};
use crate::adapter::{Upstream, Downstream, ReplayError};
use yrs::{Text, Transact, GetString, ReadTxn};
use yrs::updates::decoder::Decode;

#[verifier::external_type_specification]
#[verifier::external_body]
pub struct ExDoc(yrs::Doc);

#[verifier::external_type_specification]
#[verifier::external_body]
pub struct ExTextRef(yrs::TextRef);

/// The characters of the text a doc currently holds.
pub uninterp spec fn yrs_text(d: yrs::Doc) -> Seq<char>;

/// The text handle belongs to this doc's root text.
pub uninterp spec fn yrs_pair_ok(d: yrs::Doc, t: yrs::TextRef) -> bool;

/// yrs::Update::decode_v1 succeeds on these bytes; decoding depends on the
/// bytes alone.
pub uninterp spec fn yrs_decodable(u: Seq<u8>) -> bool;

/// The one root-text name every doc of this adapter uses; forked docs must
/// receive their content under the same name the source doc created it with.
const ROOT_TEXT: &'static str = "bench";

/// The yrs engine adapter: a doc and the handle of its root text.
pub struct Yrs {
    doc: yrs::Doc,
    textref: yrs::TextRef,
}

/// Relies on yrs::Doc::new, Doc::get_or_insert_text and yrs::Text::push: a
/// fresh doc whose sole root text, under the adapter's fixed name, holds
/// exactly `s`. The doc's default offset kind counts UTF-8 bytes.
#[verifier::external_body]
fn raw_new(s: &str) -> (y: Yrs)
    requires
        byte_len(s@) <= u32::MAX,
    ensures
        yrs_pair_ok(y.doc, y.textref),
        yrs_text(y.doc) == s@,
{
    let doc = yrs::Doc::new();
    let textref = doc.get_or_insert_text(ROOT_TEXT);
    {
        let mut txn = doc.transact_mut();
        textref.push(&mut txn, s);
    }
    Yrs { doc, textref }
}

/// Relies on yrs::Text::insert with byte offsets: inserts the chunk at the
/// byte offset, which must lie on a character boundary within bounds.
#[verifier::external_body]
fn raw_insert(y: &mut Yrs, at: u32, s: &str)
    requires
        yrs_pair_ok(old(y).doc, old(y).textref),
        s@.len() > 0,
        off_to_idx(true, yrs_text(old(y).doc), at as int) is Some,
        byte_len(yrs_text(old(y).doc)) + byte_len(s@) <= u32::MAX,
    ensures
        yrs_pair_ok(final(y).doc, final(y).textref),
        yrs_text(final(y).doc) == edited(true, yrs_text(old(y).doc), at as int, at as int, s@),
{
    let mut txn = y.doc.transact_mut();
    y.textref.insert(&mut txn, at, s);
}

/// Relies on yrs::Text::remove_range with byte offsets: removes `len` bytes
/// at the byte offset; both ends must lie on character boundaries in bounds.
#[verifier::external_body]
fn raw_remove(y: &mut Yrs, at: u32, len: u32)
    requires
        yrs_pair_ok(old(y).doc, old(y).textref),
        len > 0,
        edit_ok(true, yrs_text(old(y).doc), at as int, at as int + len as int),
    ensures
        yrs_pair_ok(final(y).doc, final(y).textref),
        yrs_text(final(y).doc) == edited(
            true,
            yrs_text(old(y).doc),
            at as int,
            at as int + len as int,
            Seq::<char>::empty(),
        ),
{
    let mut txn = y.doc.transact_mut();
    y.textref.remove_range(&mut txn, at, len);
}

/// Relies on yrs::Text::len: the text's length in bytes (the doc's offset
/// kind), tracked by the engine as a u32.
#[verifier::external_body]
fn raw_len(y: &Yrs) -> (n: u32)
    requires
        yrs_pair_ok(y.doc, y.textref),
    ensures
        n as int == byte_len(yrs_text(y.doc)),
{
    let txn = y.doc.transact();
    y.textref.len(&txn)
}

/// Relies on yrs::GetString::get_string: the text's current contents.
#[verifier::external_body]
fn raw_get_string(y: &Yrs) -> (s: String)
    requires
        yrs_pair_ok(y.doc, y.textref),
    ensures
        s@ == yrs_text(y.doc),
{
    let txn = y.doc.transact();
    y.textref.get_string(&txn)
}

/// Relies on ReadTxn::state_vector, ReadTxn::encode_diff_v1,
/// yrs::Update::decode_v1 and TransactionMut::apply_update: encodes the
/// source doc's changes the destination has not seen, applies them to the
/// destination, and returns the encoded diff together with whether it
/// decoded.
#[verifier::external_body]
fn raw_capture(dst: &mut Yrs, src: &Yrs) -> (r: (Vec<u8>, bool))
    requires
        yrs_pair_ok(old(dst).doc, old(dst).textref),
    ensures
        yrs_pair_ok(final(dst).doc, final(dst).textref),
        r.1 == yrs_decodable(r.0@),
{
    let sv = dst.doc.transact().state_vector();
    let enc = src.doc.transact().encode_diff_v1(&sv);
    let decoded = match yrs::Update::decode_v1(&enc) {
        Ok(update) => {
            let _ = dst.doc.transact_mut().apply_update(update);
            true
        },
        Err(_) => false,
    };
    (enc, decoded)
}

/// Relies on yrs::Update::decode_v1 and TransactionMut::apply_update: merges
/// a previously captured update; the engine tracks content length as a u32,
/// so the text stays within the u32 index range.
#[verifier::external_body]
fn raw_apply(y: &mut Yrs, data: &[u8]) -> (ok: bool)
    requires
        yrs_pair_ok(old(y).doc, old(y).textref),
    ensures
        yrs_pair_ok(final(y).doc, final(y).textref),
        byte_len(yrs_text(final(y).doc)) <= u32::MAX,
{
    match yrs::Update::decode_v1(data) {
        Ok(update) => y.doc.transact_mut().apply_update(update).is_ok(),
        Err(_) => false,
    }
}

/// Relies on ReadTxn::encode_state_as_update_v1 against the empty state
/// vector, yrs::Update::decode_v1 and TransactionMut::apply_update: builds
/// an independent doc holding the same text, under the same fixed root name
/// that every doc of this adapter uses.
#[verifier::external_body]
fn raw_fork(src: &Yrs) -> (y: Yrs)
    requires
        yrs_pair_ok(src.doc, src.textref),
    ensures
        yrs_pair_ok(y.doc, y.textref),
        yrs_text(y.doc) == yrs_text(src.doc),
{
    let enc = src.doc.transact().encode_state_as_update_v1(&yrs::StateVector::default());
    let doc = yrs::Doc::new();
    let textref = doc.get_or_insert_text(ROOT_TEXT);
    if let Ok(update) = yrs::Update::decode_v1(&enc) {
        let _ = doc.transact_mut().apply_update(update);
    }
    Yrs { doc, textref }
}

impl Yrs {
    /// The adapter's current document contents.
    pub fn content(&self) -> (s: String)
        requires
            self.inv(),
        ensures
            s@ == self.text(),
    {
        raw_get_string(self)
    }
}

impl Upstream for Yrs {
    closed spec fn text(&self) -> Seq<char> {
        yrs_text(self.doc)
    }

    closed spec fn inv(&self) -> bool {
        &&& yrs_pair_ok(self.doc, self.textref)
        &&& byte_len(yrs_text(self.doc)) <= u32::MAX
    }

    open spec fn byte_offsets() -> bool {
        true
    }

    fn edits_use_byte_offsets() -> (r: bool) {
        true
    }

    fn name() -> (r: &'static str) {
        "yrs"
    }

    fn from_str(s: &str) -> (r: Self) {
        raw_new(s)
    }

    fn insert(&mut self, at_offset: usize, text: &str) {
        let ghost doc = self.text();
        proof {
            lemma_off_le_ulen(true, doc, at_offset as int);
            let i = off_to_idx(true, doc, at_offset as int).unwrap();
            lemma_idx_take(true, doc, at_offset as int);
            assert(doc =~= doc.take(i) + doc.skip(i));
            lemma_byte_len_concat(doc.take(i), doc.skip(i));
            let ed = edited(true, doc, at_offset as int, at_offset as int, text@);
            assert(ed =~= (doc.take(i) + text@) + doc.skip(i));
            lemma_byte_len_concat(doc.take(i) + text@, doc.skip(i));
            lemma_byte_len_concat(doc.take(i), text@);
            assert(byte_len(ed) == byte_len(doc) + byte_len(text@));
        }
        raw_insert(self, at_offset as u32, text);
    }

    fn remove(&mut self, between_offsets: core::ops::Range<usize>) {
        let start = between_offsets.start;
        let end = between_offsets.end;
        let ghost doc = self.text();
        proof {
            lemma_off_le_ulen(true, doc, end as int);
            let i = off_to_idx(true, doc, start as int).unwrap();
            let j = off_to_idx(true, doc, end as int).unwrap();
            lemma_idx_take(true, doc, start as int);
            lemma_idx_take(true, doc, end as int);
            lemma_idx_mono(true, doc, start as int, end as int);
            let ed = edited(true, doc, start as int, end as int, Seq::<char>::empty());
            assert(ed =~= (doc.take(i) + Seq::<char>::empty()) + doc.skip(j));
            lemma_byte_len_concat(doc.take(i) + Seq::<char>::empty(), doc.skip(j));
            lemma_byte_len_concat(doc.take(i), Seq::<char>::empty());
            assert(byte_len(Seq::<char>::empty()) == 0) by {
                lemma_byte_len_ge_len(Seq::<char>::empty());
                assert(vstd::utf8::encode_utf8(Seq::<char>::empty()) =~= Seq::<u8>::empty());
            }
            lemma_byte_len_split3(doc, i, j);
            lemma_byte_len_ge_len(doc.subrange(i, j));
            assert(byte_len(ed) <= byte_len(doc));
        }
        raw_remove(self, start as u32, (end - start) as u32);
    }

    fn len(&self) -> (r: usize) {
        raw_len(self) as usize
    }
}

impl Downstream for Yrs {
    type Update = Vec<u8>;

    open spec fn update_ok(u: Vec<u8>) -> bool {
        yrs_decodable(u@)
    }

    fn duplicate(&self) -> (r: Self) {
        raw_fork(self)
    }

    fn upstream_updates(trace: &Trace) -> (res: Result<(Self, Vec<Vec<u8>>), ReplayError>) {
        match simulate(true, trace) {
            Some(_) => {},
            None => {
                return Err(ReplayError::InvalidPatch);
            },
        }
        let ghost tm = trace@;
        let mut upstream = Self::from_str(trace.start_content.as_str());
        // The destination and the returned baseline are forked from the
        // source's initial state, so that captured diffs extend what they
        // already share instead of duplicating the seed content.
        let mut downstream = raw_fork(&upstream);
        let baseline = raw_fork(&upstream);
        let mut updates: Vec<Vec<u8>> = Vec::new();
        proof {
            assert(tm.txns.take(0) =~= Seq::<Seq<PatchModel>>::empty());
            assert(patch_count(tm.txns.take(0)) == 0);
        }
        let mut ti: usize = 0;
        while ti < trace.txns.len()
            invariant
                tm == trace@,
                replay_trace(true, tm) is Some,
                0 <= ti <= trace.txns@.len(),
                tm.txns.len() == trace.txns@.len(),
                upstream.inv(),
                yrs_pair_ok(downstream.doc, downstream.textref),
                replay_txns(true, tm.start, tm.txns.take(ti as int)) == Some(upstream.text()),
                updates@.len() == patch_count(tm.txns.take(ti as int)),
                forall|k: int| 0 <= k < updates@.len() ==> yrs_decodable(#[trigger] updates@[k]@),
            decreases trace.txns@.len() - ti,
        {
            let tx = &trace.txns[ti];
            let ghost txm = tm.txns[ti as int];
            let ghost doc0 = upstream.text();
            let ghost count0 = updates@.len() as int;
            proof {
                assert(txm == tx@);
                assert(txm.take(0) =~= Seq::<PatchModel>::empty());
            }
            let mut pi: usize = 0;
            while pi < tx.patches.len()
                invariant
                    tm == trace@,
                    replay_trace(true, tm) is Some,
                    0 <= ti < trace.txns@.len(),
                    tm.txns.len() == trace.txns@.len(),
                    txm == tm.txns[ti as int],
                    txm.len() == tx.patches@.len(),
                    txm == tx.patches@.map_values(|q: Patch| q@),
                    0 <= pi <= tx.patches@.len(),
                    upstream.inv(),
                    yrs_pair_ok(downstream.doc, downstream.textref),
                    replay_txns(true, tm.start, tm.txns.take(ti as int)) == Some(doc0),
                    replay_patches(true, doc0, txm.take(pi as int)) == Some(upstream.text()),
                    count0 == patch_count(tm.txns.take(ti as int)),
                    updates@.len() == count0 + pi,
                    forall|k: int|
                        0 <= k < updates@.len() ==> yrs_decodable(#[trigger] updates@[k]@),
                decreases tx.patches@.len() - pi,
            {
                let p = &tx.patches[pi];
                let ghost cur = upstream.text();
                proof {
                    assert(txm[pi as int] == p@);
                    assert(txm.take(pi as int + 1).drop_last() =~= txm.take(pi as int));
                    assert(txm.take(pi as int + 1).last() == txm[pi as int]);
                    assert(txm =~= txm.take(pi as int + 1) + txm.skip(pi as int + 1));
                    lemma_replay_patches_split(
                        true,
                        doc0,
                        txm.take(pi as int + 1),
                        txm.skip(pi as int + 1),
                    );
                    assert(tm.txns.take(ti as int + 1).drop_last() =~= tm.txns.take(ti as int));
                    assert(tm.txns.take(ti as int + 1).last() == txm);
                    assert(tm.txns =~= tm.txns.take(ti as int + 1) + tm.txns.skip(ti as int + 1));
                    lemma_replay_txns_split(
                        true,
                        tm.start,
                        tm.txns.take(ti as int + 1),
                        tm.txns.skip(ti as int + 1),
                    );
                    assert(apply_patch(true, cur, p@) is Some);
                    lemma_off_le_ulen(true, cur, p@.pos + p@.del);
                    lemma_unit_len_le_byte(true, cur);
                }
                let end = p.pos + p.del;
                upstream.replace(p.pos..end, p.ins.as_str());
                let (u, decoded) = raw_capture(&mut downstream, &upstream);
                if !decoded {
                    return Err(ReplayError::CaptureFailed);
                }
                let ghost prev_updates = updates@;
                updates.push(u);
                proof {
                    assert(updates@ =~= prev_updates.push(u));
                }
                pi = pi + 1;
            }
            proof {
                assert(txm.take(txm.len() as int) =~= txm);
                assert(tm.txns.take(ti as int + 1).drop_last() =~= tm.txns.take(ti as int));
                assert(tm.txns.take(ti as int + 1).last() == txm);
                assert(patch_count(tm.txns.take(ti as int + 1)) == patch_count(
                    tm.txns.take(ti as int),
                ) + txm.len());
            }
            ti = ti + 1;
        }
        proof {
            assert(tm.txns.take(trace.txns@.len() as int) =~= tm.txns);
        }
        Ok((baseline, updates))
    }

    fn apply_update(&mut self, update: &Vec<u8>) {
        let _merged = raw_apply(self, update.as_slice());
    }
}

} // verus!
