//! The trace model: a recorded editing workload as a sequence of transactions,
//! each an ordered sequence of positional patches, together with the expected
//! start and end document contents. Offsets are interpreted in one unit,
//! codepoints or bytes; a pure transform reinterprets a codepoint-offset trace
//! as the equivalent byte-offset trace.

use vstd::prelude::*;

verus! {

use vstd::string::StrSliceExecFns;
use crate::unit::{
    scalar_width, byte_len, unit_len, off_to_idx, edit_ok, edited, scalar_width_exec,
    lemma_scalar_width_bounds, lemma_byte_len_singleton, lemma_byte_len_concat,
    lemma_unit_len_concat, lemma_byte_len_ge_len, lemma_unit_len_nonneg, lemma_idx_take,
    lemma_prefix_idx, lemma_idx_mono,
};

/// One atomic edit: delete `del` units at `pos`, then insert `ins` there.
pub struct Patch {
    pub pos: usize,
    pub del: usize,
    pub ins: String,
}

/// Mathematical model of a patch.
pub ghost struct PatchModel {
    pub pos: int,
    pub del: int,
    pub ins: Seq<char>,
}

impl View for Patch {
    type V = PatchModel;

    open spec fn view(&self) -> PatchModel {
        PatchModel { pos: self.pos as int, del: self.del as int, ins: self.ins@ }
    }
}

/// An ordered group of patches applied as one editing step.
pub struct Transaction {
    pub patches: Vec<Patch>,
}

impl View for Transaction {
    type V = Seq<PatchModel>;

    open spec fn view(&self) -> Seq<PatchModel> {
        self.patches@.map_values(|p: Patch| p@)
    }
}

/// A recorded editing trace. Patch offsets are relative to the document state
/// after all prior patches of the whole trace, in one fixed offset unit.
pub struct Trace {
    pub start_content: String,
    pub end_content: String,
    pub txns: Vec<Transaction>,
}

/// Mathematical model of a trace.
pub ghost struct TraceModel {
    pub start: Seq<char>,
    pub end: Seq<char>,
    pub txns: Seq<Seq<PatchModel>>,
}

impl View for Trace {
    type V = TraceModel;

    open spec fn view(&self) -> TraceModel {
        TraceModel {
            start: self.start_content@,
            end: self.end_content@,
            txns: self.txns@.map_values(|t: Transaction| t@),
        }
    }
}

/// Total number of patches in a trace, the input-size hint that throughput is
/// normalized by.
pub open spec fn patch_count(ts: Seq<Seq<PatchModel>>) -> int
    decreases ts.len(),
{
    if ts.len() == 0 {
        0
    } else {
        patch_count(ts.drop_last()) + ts.last().len()
    }
}

pub proof fn lemma_patch_count_nonneg(ts: Seq<Seq<PatchModel>>)
    ensures
        patch_count(ts) >= 0,
    decreases ts.len(),
{
    if ts.len() > 0 {
        lemma_patch_count_nonneg(ts.drop_last());
    }
}

/// The document after one patch, when the patch addresses character
/// boundaries in bounds and the result still fits machine limits.
pub open spec fn apply_patch(bytes: bool, doc: Seq<char>, p: PatchModel) -> Option<Seq<char>> {
    if edit_ok(bytes, doc, p.pos, p.pos + p.del) && byte_len(
        edited(bytes, doc, p.pos, p.pos + p.del, p.ins),
    ) <= u32::MAX {
        Some(edited(bytes, doc, p.pos, p.pos + p.del, p.ins))
    } else {
        None
    }
}

/// The document after a sequence of patches, applied strictly in order.
pub open spec fn replay_patches(bytes: bool, doc: Seq<char>, ps: Seq<PatchModel>) -> Option<
    Seq<char>,
>
    decreases ps.len(),
{
    if ps.len() == 0 {
        Some(doc)
    } else {
        match replay_patches(bytes, doc, ps.drop_last()) {
            Some(d) => apply_patch(bytes, d, ps.last()),
            None => None,
        }
    }
}

/// The document after a sequence of transactions.
pub open spec fn replay_txns(bytes: bool, doc: Seq<char>, ts: Seq<Seq<PatchModel>>) -> Option<
    Seq<char>,
>
    decreases ts.len(),
{
    if ts.len() == 0 {
        Some(doc)
    } else {
        match replay_txns(bytes, doc, ts.drop_last()) {
            Some(d) => replay_patches(bytes, d, ts.last()),
            None => None,
        }
    }
}

/// The document a whole trace produces from its start content, or `None` if
/// the start content exceeds the engines' index range or some patch is out
/// of bounds in the given unit.
pub open spec fn replay_trace(bytes: bool, t: TraceModel) -> Option<Seq<char>> {
    if byte_len(t.start) <= u32::MAX {
        replay_txns(bytes, t.start, t.txns)
    } else {
        None
    }
}

pub proof fn lemma_unit_len_le_byte(bytes: bool, s: Seq<char>)
    ensures
        0 <= unit_len(bytes, s) <= byte_len(s),
{
    lemma_byte_len_ge_len(s);
}

pub proof fn lemma_byte_len_split3(s: Seq<char>, i: int, j: int)
    requires
        0 <= i <= j <= s.len(),
    ensures
        byte_len(s) == byte_len(s.take(i)) + byte_len(s.subrange(i, j)) + byte_len(s.skip(j)),
{
    assert(s =~= s.take(i) + s.subrange(i, j) + s.skip(j));
    lemma_byte_len_concat(s.take(i) + s.subrange(i, j), s.skip(j));
    lemma_byte_len_concat(s.take(i), s.subrange(i, j));
}

/// A mapped offset never exceeds the document's unit length.
pub proof fn lemma_off_le_ulen(bytes: bool, s: Seq<char>, off: int)
    requires
        off_to_idx(bytes, s, off) is Some,
    ensures
        0 <= off <= unit_len(bytes, s),
{
    lemma_idx_take(bytes, s, off);
    let i = off_to_idx(bytes, s, off).unwrap();
    assert(s =~= s.take(i) + s.skip(i));
    lemma_unit_len_concat(bytes, s.take(i), s.skip(i));
    lemma_unit_len_nonneg(bytes, s.take(i));
    lemma_unit_len_nonneg(bytes, s.skip(i));
}

pub proof fn lemma_replay_patches_split(bytes: bool, doc: Seq<char>, a: Seq<PatchModel>, b: Seq<
    PatchModel,
>)
    ensures
        replay_patches(bytes, doc, a + b) == (match replay_patches(bytes, doc, a) {
            Some(d) => replay_patches(bytes, d, b),
            None => None,
        }),
    decreases b.len(),
{
    if b.len() == 0 {
        assert(a + b =~= a);
    } else {
        assert((a + b).drop_last() =~= a + b.drop_last());
        assert((a + b).last() == b.last());
        lemma_replay_patches_split(bytes, doc, a, b.drop_last());
    }
}

pub proof fn lemma_replay_txns_split(bytes: bool, doc: Seq<char>, a: Seq<Seq<PatchModel>>, b: Seq<
    Seq<PatchModel>,
>)
    ensures
        replay_txns(bytes, doc, a + b) == (match replay_txns(bytes, doc, a) {
            Some(d) => replay_txns(bytes, d, b),
            None => None,
        }),
    decreases b.len(),
{
    if b.len() == 0 {
        assert(a + b =~= a);
    } else {
        assert((a + b).drop_last() =~= a + b.drop_last());
        assert((a + b).last() == b.last());
        lemma_replay_txns_split(bytes, doc, a, b.drop_last());
    }
}

/// Relies on str::chars: iterating a string slice yields exactly its
/// characters, in order.
#[verifier::external_body]
fn str_chars(s: &str) -> (v: Vec<char>)
    ensures
        v@ == s@,
{
    s.chars().collect()
}

/// Relies on str::len: the length of a string slice's UTF-8 encoding in
/// bytes, which always fits in usize.
#[verifier::external_body]
pub(crate) fn str_byte_len(s: &str) -> (n: usize)
    ensures
        n == byte_len(s@),
{
    s.len()
}

/// Character index of a unit offset into `doc`, by scanning character widths.
fn off_idx_exec(bytes: bool, doc: &Vec<char>, off: usize) -> (r: Option<usize>)
    ensures
        match r {
            Some(i) => off_to_idx(bytes, doc@, off as int) == Some(i as int),
            None => off_to_idx(bytes, doc@, off as int) is None,
        },
{
    if !bytes {
        if off <= doc.len() {
            Some(off)
        } else {
            None
        }
    } else {
        let mut i: usize = 0;
        let mut acc: usize = 0;
        proof {
            assert(doc@.take(0) =~= Seq::<char>::empty());
            assert(vstd::utf8::encode_utf8(Seq::<char>::empty()) =~= Seq::<u8>::empty());
            assert(doc@.skip(0) =~= doc@);
        }
        loop
            invariant
                0 <= i <= doc@.len(),
                acc <= off,
                byte_len(doc@.take(i as int)) == acc,
                off_to_idx(bytes, doc@, off as int) == (match crate::unit::byte_off_to_idx(
                    doc@.skip(i as int),
                    off - acc,
                ) {
                    Some(k) => Some(i + k),
                    None => None,
                }),
            decreases doc@.len() - i, off - acc,
        {
            if acc == off {
                proof {
                    assert(crate::unit::byte_off_to_idx(doc@.skip(i as int), 0) == Some(0int));
                }
                return Some(i);
            }
            if i == doc.len() {
                proof {
                    assert(doc@.skip(i as int) =~= Seq::<char>::empty());
                }
                return None;
            }
            let c = doc[i];
            let w = scalar_width_exec(c);
            proof {
                lemma_scalar_width_bounds(c);
                assert(doc@.skip(i as int)[0] == c);
                assert(doc@.skip(i as int).drop_first() =~= doc@.skip(i as int + 1));
                assert(doc@.take(i as int + 1) =~= doc@.take(i as int) + seq![c]);
                lemma_byte_len_concat(doc@.take(i as int), seq![c]);
                lemma_byte_len_singleton(c);
            }
            if off - acc < w {
                return None;
            }
            i = i + 1;
            acc = acc + w;
        }
    }
}

/// Total byte width of the characters `doc[i..j]`.
fn byte_len_range(doc: &Vec<char>, i: usize, j: usize) -> (n: usize)
    requires
        i <= j <= doc@.len(),
        byte_len(doc@) <= usize::MAX,
    ensures
        n == byte_len(doc@.subrange(i as int, j as int)),
{
    let mut k: usize = i;
    let mut acc: usize = 0;
    proof {
        assert(doc@.subrange(i as int, i as int) =~= Seq::<char>::empty());
    }
    while k < j
        invariant
            i <= k <= j <= doc@.len(),
            byte_len(doc@) <= usize::MAX,
            acc == byte_len(doc@.subrange(i as int, k as int)),
        decreases j - k,
    {
        let c = doc[k];
        let w = scalar_width_exec(c);
        proof {
            lemma_scalar_width_bounds(c);
            assert(doc@.subrange(i as int, k as int + 1) =~= doc@.subrange(i as int, k as int)
                + seq![c]);
            lemma_byte_len_concat(doc@.subrange(i as int, k as int), seq![c]);
            lemma_byte_len_singleton(c);
            lemma_byte_len_split3(doc@, i as int, k as int + 1);
            lemma_byte_len_ge_len(doc@.take(i as int));
            lemma_byte_len_ge_len(doc@.skip(k as int + 1));
        }
        acc = acc + w;
        k = k + 1;
    }
    acc
}

/// Applies one patch to the simulated document. `cur_b` must be the
/// document's byte length; returns the new byte length, or `None` when the
/// patch is invalid (the document is then unchanged).
fn apply_patch_exec(bytes: bool, doc: &mut Vec<char>, cur_b: usize, p: &Patch) -> (r: Option<
    usize,
>)
    requires
        byte_len(old(doc)@) == cur_b,
    ensures
        match r {
            Some(nb) => {
                &&& apply_patch(bytes, old(doc)@, p@) == Some(final(doc)@)
                &&& byte_len(final(doc)@) == nb
            },
            None => {
                &&& apply_patch(bytes, old(doc)@, p@) is None
                &&& final(doc)@ == old(doc)@
            },
        },
{
    proof {
        lemma_unit_len_le_byte(bytes, doc@);
    }
    let end = match p.pos.checked_add(p.del) {
        Some(e) => e,
        None => {
            proof {
                if off_to_idx(bytes, doc@, p@.pos + p@.del) is Some {
                    lemma_off_le_ulen(bytes, doc@, p@.pos + p@.del);
                }
            }
            return None;
        },
    };
    let i = match off_idx_exec(bytes, doc, p.pos) {
        Some(i) => i,
        None => {
            return None;
        },
    };
    let j = match off_idx_exec(bytes, doc, end) {
        Some(j) => j,
        None => {
            return None;
        },
    };
    proof {
        lemma_idx_mono(bytes, doc@, p@.pos, p@.pos + p@.del);
        lemma_idx_take(bytes, doc@, p@.pos);
        lemma_idx_take(bytes, doc@, p@.pos + p@.del);
    }
    let rw = byte_len_range(doc, i, j);
    proof {
        lemma_byte_len_split3(doc@, i as int, j as int);
        lemma_byte_len_ge_len(doc@.take(i as int));
        lemma_byte_len_ge_len(doc@.subrange(i as int, j as int));
        lemma_byte_len_ge_len(doc@.skip(j as int));
        lemma_byte_len_concat(doc@.take(i as int) + p@.ins, doc@.skip(j as int));
        lemma_byte_len_concat(doc@.take(i as int), p@.ins);
    }
    let ins_bytes = str_byte_len(p.ins.as_str());
    let nb = match (cur_b - rw).checked_add(ins_bytes) {
        Some(nb) => nb,
        None => {
            return None;
        },
    };
    if nb > u32::MAX as usize {
        return None;
    }
    let ins_chars = str_chars(p.ins.as_str());
    let mut nd: Vec<char> = Vec::new();
    let mut k: usize = 0;
    proof {
        assert(nd@ =~= doc@.take(0));
    }
    while k < i
        invariant
            0 <= k <= i <= doc@.len(),
            nd@ == doc@.take(k as int),
        decreases i - k,
    {
        nd.push(doc[k]);
        proof {
            assert(doc@.take(k as int + 1) =~= doc@.take(k as int) + seq![doc@[k as int]]);
        }
        k = k + 1;
    }
    let mut k2: usize = 0;
    while k2 < ins_chars.len()
        invariant
            0 <= k2 <= ins_chars@.len(),
            ins_chars@ == p@.ins,
            i <= doc@.len(),
            nd@ == doc@.take(i as int) + ins_chars@.take(k2 as int),
        decreases ins_chars@.len() - k2,
    {
        nd.push(ins_chars[k2]);
        proof {
            assert(ins_chars@.take(k2 as int + 1) =~= ins_chars@.take(k2 as int)
                + seq![ins_chars@[k2 as int]]);
            assert(doc@.take(i as int) + ins_chars@.take(k2 as int + 1) =~= (doc@.take(i as int)
                + ins_chars@.take(k2 as int)) + seq![ins_chars@[k2 as int]]);
        }
        k2 = k2 + 1;
    }
    proof {
        assert(ins_chars@.take(ins_chars@.len() as int) =~= p@.ins);
    }
    let mut k3: usize = j;
    while k3 < doc.len()
        invariant
            j <= k3 <= doc@.len(),
            i <= j,
            nd@ == doc@.take(i as int) + p@.ins + doc@.subrange(j as int, k3 as int),
        decreases doc@.len() - k3,
    {
        nd.push(doc[k3]);
        proof {
            assert(doc@.subrange(j as int, k3 as int + 1) =~= doc@.subrange(j as int, k3 as int)
                + seq![doc@[k3 as int]]);
            assert(doc@.take(i as int) + p@.ins + doc@.subrange(j as int, k3 as int + 1) =~= (
            doc@.take(i as int) + p@.ins + doc@.subrange(j as int, k3 as int)) + seq![doc@[k3
                as int]]);
        }
        k3 = k3 + 1;
    }
    proof {
        assert(doc@.subrange(j as int, doc@.len() as int) =~= doc@.skip(j as int));
        assert(nd@ == edited(bytes, doc@, p@.pos, p@.pos + p@.del, p@.ins));
    }
    *doc = nd;
    Some(nb)
}

/// Replays a whole trace on a simulated document, validating every patch.
/// Returns the final document and its byte length, or `None` when some patch
/// is out of bounds in the given unit.
pub fn simulate(bytes: bool, t: &Trace) -> (r: Option<(Vec<char>, usize)>)
    ensures
        match r {
            Some(p) => {
                &&& replay_trace(bytes, t@) == Some(p.0@)
                &&& byte_len(p.0@) == p.1
            },
            None => replay_trace(bytes, t@) is None,
        },
{
    let start_str = t.start_content.as_str();
    let mut doc = str_chars(start_str);
    let mut cur_b: usize = str_byte_len(start_str);
    if cur_b > u32::MAX as usize {
        return None;
    }
    let ghost tm = t@;
    proof {
        assert(byte_len(doc@) == cur_b);
        assert(tm.txns.take(0) =~= Seq::<Seq<PatchModel>>::empty());
        assert(replay_txns(bytes, tm.start, tm.txns.take(0)) == Some(doc@));
    }
    let mut ti: usize = 0;
    while ti < t.txns.len()
        invariant
            tm == t@,
            0 <= ti <= t.txns@.len(),
            tm.txns.len() == t.txns@.len(),
            byte_len(doc@) == cur_b,
            replay_txns(bytes, tm.start, tm.txns.take(ti as int)) == Some(doc@),
        decreases t.txns@.len() - ti,
    {
        let tx = &t.txns[ti];
        let ghost txm = tm.txns[ti as int];
        proof {
            assert(txm == tx@);
        }
        let ghost doc0 = doc@;
        let ghost cb0 = cur_b;
        proof {
            assert(txm.take(0) =~= Seq::<PatchModel>::empty());
        }
        let mut pi: usize = 0;
        while pi < tx.patches.len()
            invariant
                tm == t@,
                0 <= ti < t.txns@.len(),
                tm.txns.len() == t.txns@.len(),
                txm == tm.txns[ti as int],
                txm == t.txns@[ti as int]@,
                txm.len() == tx.patches@.len(),
                txm == tx.patches@.map_values(|q: Patch| q@),
                0 <= pi <= tx.patches@.len(),
                byte_len(doc@) == cur_b,
                replay_txns(bytes, tm.start, tm.txns.take(ti as int)) == Some(doc0),
                replay_patches(bytes, doc0, txm.take(pi as int)) == Some(doc@),
            decreases tx.patches@.len() - pi,
        {
            let p = &tx.patches[pi];
            let ghost before = doc@;
            let res = apply_patch_exec(bytes, &mut doc, cur_b, p);
            proof {
                assert(txm.take(pi as int + 1).drop_last() =~= txm.take(pi as int));
                assert(txm.take(pi as int + 1).last() == txm[pi as int]);
                assert(txm[pi as int] == p@);
            }
            match res {
                Some(nb) => {
                    cur_b = nb;
                },
                None => {
                    proof {
                        assert(replay_patches(bytes, doc0, txm.take(pi as int + 1)) is None);
                        assert(txm =~= txm.take(pi as int + 1) + txm.skip(pi as int + 1));
                        lemma_replay_patches_split(
                            bytes,
                            doc0,
                            txm.take(pi as int + 1),
                            txm.skip(pi as int + 1),
                        );
                        assert(replay_patches(bytes, doc0, txm) is None);
                        assert(tm.txns.take(ti as int + 1).drop_last() =~= tm.txns.take(ti as int));
                        assert(tm.txns.take(ti as int + 1).last() == txm);
                        assert(replay_txns(bytes, tm.start, tm.txns.take(ti as int + 1)) is None);
                        assert(tm.txns =~= tm.txns.take(ti as int + 1) + tm.txns.skip(
                            ti as int + 1,
                        ));
                        lemma_replay_txns_split(
                            bytes,
                            tm.start,
                            tm.txns.take(ti as int + 1),
                            tm.txns.skip(ti as int + 1),
                        );
                    }
                    return None;
                },
            }
            pi = pi + 1;
        }
        proof {
            assert(txm.take(txm.len() as int) =~= txm);
            assert(tm.txns.take(ti as int + 1).drop_last() =~= tm.txns.take(ti as int));
            assert(tm.txns.take(ti as int + 1).last() == txm);
            assert(replay_txns(bytes, tm.start, tm.txns.take(ti as int + 1)) == Some(doc@));
        }
        ti = ti + 1;
    }
    proof {
        assert(tm.txns.take(t.txns@.len() as int) =~= tm.txns);
    }
    Some((doc, cur_b))
}

/// The trace's total patch count, the input-size hint handed to the
/// measurement harness, saturating at the machine limit.
pub fn total_patches(t: &Trace) -> (n: usize)
    ensures
        patch_count(t@.txns) <= usize::MAX ==> n as int == patch_count(t@.txns),
        patch_count(t@.txns) > usize::MAX ==> n == usize::MAX,
{
    let ghost tm = t@;
    let mut n: usize = 0;
    proof {
        assert(tm.txns.take(0) =~= Seq::<Seq<PatchModel>>::empty());
    }
    let mut ti: usize = 0;
    while ti < t.txns.len()
        invariant
            tm == t@,
            0 <= ti <= t.txns@.len(),
            tm.txns.len() == t.txns@.len(),
            patch_count(tm.txns.take(ti as int)) <= usize::MAX ==> n as int == patch_count(
                tm.txns.take(ti as int),
            ),
            patch_count(tm.txns.take(ti as int)) > usize::MAX ==> n == usize::MAX,
        decreases t.txns@.len() - ti,
    {
        let len = t.txns[ti].patches.len();
        proof {
            assert(tm.txns.take(ti as int + 1).drop_last() =~= tm.txns.take(ti as int));
            assert(tm.txns.take(ti as int + 1).last() == tm.txns[ti as int]);
            assert(tm.txns[ti as int].len() == len);
            lemma_patch_count_nonneg(tm.txns.take(ti as int));
        }
        n = match n.checked_add(len) {
            Some(m) => m,
            None => usize::MAX,
        };
        ti = ti + 1;
    }
    proof {
        assert(tm.txns.take(t.txns@.len() as int) =~= tm.txns);
    }
    n
}

/// Reinterprets a codepoint-offset trace as the equivalent byte-offset trace:
/// every position and deletion count is mapped through the UTF-8 widths of
/// the document state it addresses. Replaying the result in byte offsets
/// produces exactly what replaying the original in codepoint offsets does.
pub fn chars_to_bytes(t: &Trace) -> (r: Option<Trace>)
    ensures
        match r {
            Some(t2) => {
                &&& replay_trace(false, t@) is Some
                &&& t2@.start == t@.start
                &&& t2@.end == t@.end
                &&& t2@.txns.len() == t@.txns.len()
                &&& forall|k: int|
                    0 <= k < t@.txns.len() ==> t2@.txns[k].len() == t@.txns[k].len()
                &&& replay_trace(true, t2@) == replay_trace(false, t@)
            },
            None => replay_trace(false, t@) is None,
        },
{
    let start_str = t.start_content.as_str();
    let mut doc = str_chars(start_str);
    let mut cur_b: usize = str_byte_len(start_str);
    if cur_b > u32::MAX as usize {
        return None;
    }
    let ghost tm = t@;
    let mut out_txns: Vec<Transaction> = Vec::new();
    proof {
        assert(byte_len(doc@) == cur_b);
        assert(tm.txns.take(0) =~= Seq::<Seq<PatchModel>>::empty());
        assert(out_txns@.map_values(|x: Transaction| x@) =~= Seq::<Seq<PatchModel>>::empty());
    }
    let mut ti: usize = 0;
    while ti < t.txns.len()
        invariant
            tm == t@,
            0 <= ti <= t.txns@.len(),
            tm.txns.len() == t.txns@.len(),
            byte_len(doc@) == cur_b,
            out_txns@.len() == ti,
            forall|k: int|
                0 <= k < ti ==> out_txns@.map_values(|x: Transaction| x@)[k].len()
                    == #[trigger] tm.txns[k].len(),
            replay_txns(false, tm.start, tm.txns.take(ti as int)) == Some(doc@),
            replay_txns(true, tm.start, out_txns@.map_values(|x: Transaction| x@)) == Some(doc@),
        decreases t.txns@.len() - ti,
    {
        let tx = &t.txns[ti];
        let ghost txm = tm.txns[ti as int];
        let ghost doc0 = doc@;
        let mut out_patches: Vec<Patch> = Vec::new();
        proof {
            assert(txm == tx@);
            assert(txm.take(0) =~= Seq::<PatchModel>::empty());
            assert(out_patches@.map_values(|q: Patch| q@) =~= Seq::<PatchModel>::empty());
        }
        let mut pi: usize = 0;
        while pi < tx.patches.len()
            invariant
                tm == t@,
                0 <= ti < t.txns@.len(),
                tm.txns.len() == t.txns@.len(),
                txm == tm.txns[ti as int],
                txm.len() == tx.patches@.len(),
                txm == tx.patches@.map_values(|q: Patch| q@),
                0 <= pi <= tx.patches@.len(),
                byte_len(doc@) == cur_b,
                out_patches@.len() == pi,
                replay_txns(false, tm.start, tm.txns.take(ti as int)) == Some(doc0),
                replay_patches(false, doc0, txm.take(pi as int)) == Some(doc@),
                replay_patches(true, doc0, out_patches@.map_values(|q: Patch| q@)) == Some(doc@),
            decreases tx.patches@.len() - pi,
        {
            let p = &tx.patches[pi];
            let ghost before = doc@;
            proof {
                assert(txm[pi as int] == p@);
                assert(txm.take(pi as int + 1).drop_last() =~= txm.take(pi as int));
                assert(txm.take(pi as int + 1).last() == txm[pi as int]);
            }
            let iopt = off_idx_exec(false, &doc, p.pos);
            let endopt = p.pos.checked_add(p.del);
            let jopt = match endopt {
                Some(e) => off_idx_exec(false, &doc, e),
                None => None,
            };
            let (i, j) = match (iopt, jopt) {
                (Some(i), Some(j)) => (i, j),
                _ => {
                    proof {
                        lemma_unit_len_le_byte(false, doc@);
                        if off_to_idx(false, doc@, p@.pos + p@.del) is Some {
                            lemma_off_le_ulen(false, doc@, p@.pos + p@.del);
                        }
                        assert(apply_patch(false, doc@, p@) is None);
                        assert(replay_patches(false, doc0, txm.take(pi as int + 1)) is None);
                        assert(txm =~= txm.take(pi as int + 1) + txm.skip(pi as int + 1));
                        lemma_replay_patches_split(
                            false,
                            doc0,
                            txm.take(pi as int + 1),
                            txm.skip(pi as int + 1),
                        );
                        assert(tm.txns.take(ti as int + 1).drop_last() =~= tm.txns.take(
                            ti as int,
                        ));
                        assert(tm.txns.take(ti as int + 1).last() == txm);
                        assert(tm.txns =~= tm.txns.take(ti as int + 1) + tm.txns.skip(
                            ti as int + 1,
                        ));
                        lemma_replay_txns_split(
                            false,
                            tm.start,
                            tm.txns.take(ti as int + 1),
                            tm.txns.skip(ti as int + 1),
                        );
                    }
                    return None;
                },
            };
            let bpos = byte_len_range(&doc, 0, i);
            let bdel = byte_len_range(&doc, i, j);
            let bp = Patch { pos: bpos, del: bdel, ins: p.ins.clone() };
            proof {
                assert(doc@.subrange(0, i as int) =~= doc@.take(i as int));
                assert(doc@ =~= doc@.take(i as int) + doc@.skip(i as int));
                lemma_prefix_idx(true, doc@.take(i as int), doc@.skip(i as int));
                assert(doc@.take(j as int) =~= doc@.take(i as int) + doc@.subrange(
                    i as int,
                    j as int,
                ));
                lemma_byte_len_concat(doc@.take(i as int), doc@.subrange(i as int, j as int));
                assert(doc@ =~= doc@.take(j as int) + doc@.skip(j as int));
                lemma_prefix_idx(true, doc@.take(j as int), doc@.skip(j as int));
                assert(off_to_idx(true, doc@, bp@.pos) == Some(i as int));
                assert(off_to_idx(true, doc@, bp@.pos + bp@.del) == Some(j as int));
                assert(edited(true, doc@, bp@.pos, bp@.pos + bp@.del, bp@.ins) == edited(
                    false,
                    doc@,
                    p@.pos,
                    p@.pos + p@.del,
                    p@.ins,
                ));
                assert(apply_patch(true, doc@, bp@) == apply_patch(false, doc@, p@));
            }
            let res = apply_patch_exec(false, &mut doc, cur_b, p);
            match res {
                Some(nb) => {
                    let ghost prevout = out_patches@.map_values(|q: Patch| q@);
                    let ghost bpm = bp@;
                    cur_b = nb;
                    out_patches.push(bp);
                    proof {
                        let outv = out_patches@.map_values(|q: Patch| q@);
                        assert(outv =~= prevout.push(bpm));
                        assert(outv.drop_last() =~= prevout);
                        assert(outv.last() == bpm);
                        assert(replay_patches(true, doc0, outv) == apply_patch(
                            true,
                            before,
                            bpm,
                        ));
                    }
                },
                None => {
                    proof {
                        assert(replay_patches(false, doc0, txm.take(pi as int + 1)) is None);
                        assert(txm =~= txm.take(pi as int + 1) + txm.skip(pi as int + 1));
                        lemma_replay_patches_split(
                            false,
                            doc0,
                            txm.take(pi as int + 1),
                            txm.skip(pi as int + 1),
                        );
                        assert(tm.txns.take(ti as int + 1).drop_last() =~= tm.txns.take(
                            ti as int,
                        ));
                        assert(tm.txns.take(ti as int + 1).last() == txm);
                        assert(tm.txns =~= tm.txns.take(ti as int + 1) + tm.txns.skip(
                            ti as int + 1,
                        ));
                        lemma_replay_txns_split(
                            false,
                            tm.start,
                            tm.txns.take(ti as int + 1),
                            tm.txns.skip(ti as int + 1),
                        );
                    }
                    return None;
                },
            }
            pi = pi + 1;
        }
        proof {
            assert(txm.take(txm.len() as int) =~= txm);
            assert(tm.txns.take(ti as int + 1).drop_last() =~= tm.txns.take(ti as int));
            assert(tm.txns.take(ti as int + 1).last() == txm);
        }
        let ghost opv = out_patches@.map_values(|q: Patch| q@);
        let ghost prev_txns = out_txns@.map_values(|x: Transaction| x@);
        out_txns.push(Transaction { patches: out_patches });
        proof {
            let outv = out_txns@.map_values(|x: Transaction| x@);
            assert(outv =~= prev_txns.push(opv));
            assert(outv.drop_last() =~= prev_txns);
            assert(outv.last() == opv);
            assert(replay_txns(true, tm.start, outv) == replay_patches(true, doc0, opv));
            assert(opv.len() == txm.len());
            assert(forall|k: int|
                0 <= k < ti + 1 ==> outv[k].len() == #[trigger] tm.txns[k].len());
        }
        ti = ti + 1;
    }
    proof {
        assert(tm.txns.take(t.txns@.len() as int) =~= tm.txns);
    }
    let t2 = Trace {
        start_content: t.start_content.clone(),
        end_content: t.end_content.clone(),
        txns: out_txns,
    };
    Some(t2)
}


/// Every character of the trace's start content, end content and insertions
/// is a single-byte (ASCII) character.
pub open spec fn single_byte_trace(t: TraceModel) -> bool {
    &&& vstd::utf8::is_ascii_chars(t.start)
    &&& vstd::utf8::is_ascii_chars(t.end)
    &&& forall|i: int, k: int|
        0 <= i < t.txns.len() && 0 <= k < t.txns[i].len() ==> vstd::utf8::is_ascii_chars(
            (#[trigger] t.txns[i][k]).ins,
        )
}

proof fn lemma_apply_patch_ascii(bytes: bool, doc: Seq<char>, p: PatchModel)
    requires
        vstd::utf8::is_ascii_chars(doc),
        vstd::utf8::is_ascii_chars(p.ins),
        apply_patch(bytes, doc, p) is Some,
    ensures
        vstd::utf8::is_ascii_chars(apply_patch(bytes, doc, p).unwrap()),
{
    let i = off_to_idx(bytes, doc, p.pos).unwrap();
    let j = off_to_idx(bytes, doc, p.pos + p.del).unwrap();
    lemma_idx_take(bytes, doc, p.pos);
    lemma_idx_take(bytes, doc, p.pos + p.del);
    lemma_idx_mono(bytes, doc, p.pos, p.pos + p.del);
    let ed = edited(bytes, doc, p.pos, p.pos + p.del, p.ins);
    assert forall|m: int| 0 <= m < ed.len() implies '\0' <= #[trigger] ed[m] <= '\u{7f}' by {
        if m < i {
            assert(ed[m] == doc[m]);
        } else if m < i + p.ins.len() {
            assert(ed[m] == p.ins[m - i]);
        } else {
            assert(ed[m] == doc[j + (m - (i + p.ins.len()))]);
        }
    }
}

proof fn lemma_replay_patches_ascii(bytes: bool, doc: Seq<char>, ps: Seq<PatchModel>)
    requires
        vstd::utf8::is_ascii_chars(doc),
        forall|k: int| 0 <= k < ps.len() ==> vstd::utf8::is_ascii_chars((#[trigger] ps[k]).ins),
        replay_patches(bytes, doc, ps) is Some,
    ensures
        vstd::utf8::is_ascii_chars(replay_patches(bytes, doc, ps).unwrap()),
    decreases ps.len(),
{
    if ps.len() > 0 {
        lemma_replay_patches_ascii(bytes, doc, ps.drop_last());
        lemma_apply_patch_ascii(bytes, replay_patches(bytes, doc, ps.drop_last()).unwrap(), ps.last());
    }
}

proof fn lemma_replay_txns_ascii(bytes: bool, doc: Seq<char>, ts: Seq<Seq<PatchModel>>)
    requires
        vstd::utf8::is_ascii_chars(doc),
        forall|i: int, k: int|
            0 <= i < ts.len() && 0 <= k < ts[i].len() ==> vstd::utf8::is_ascii_chars(
                (#[trigger] ts[i][k]).ins,
            ),
        replay_txns(bytes, doc, ts) is Some,
    ensures
        vstd::utf8::is_ascii_chars(replay_txns(bytes, doc, ts).unwrap()),
    decreases ts.len(),
{
    if ts.len() > 0 {
        assert(forall|i: int, k: int|
            0 <= i < ts.drop_last().len() && 0 <= k < ts.drop_last()[i].len()
                ==> vstd::utf8::is_ascii_chars((#[trigger] ts.drop_last()[i][k]).ins));
        lemma_replay_txns_ascii(bytes, doc, ts.drop_last());
        let mid = replay_txns(bytes, doc, ts.drop_last()).unwrap();
        assert(forall|k: int|
            0 <= k < ts.last().len() ==> vstd::utf8::is_ascii_chars(
                (#[trigger] ts.last()[k]).ins,
            )) by {
            assert(ts.last() == ts[ts.len() - 1]);
        }
        lemma_replay_patches_ascii(bytes, mid, ts.last());
    }
}

/// Offset-unit round trip on single-byte content: when a trace holds only
/// single-byte characters, replaying its byte-offset variant in byte units
/// and replaying the original in codepoint units yield one document, whose
/// byte length and codepoint length are one number; the end content's two
/// unit lengths coincide the same way, so the two adapters' final lengths
/// match, and match the end content's length, under exactly the same
/// condition. The replay equality hypothesis is what [`chars_to_bytes`]
/// ensures of its result.
pub proof fn lemma_single_byte_round_trip(t: TraceModel, tb: TraceModel)
    requires
        single_byte_trace(t),
        replay_trace(false, t) is Some,
        replay_trace(true, tb) == replay_trace(false, t),
        tb.end == t.end,
    ensures
        unit_len(true, replay_trace(true, tb).unwrap()) == unit_len(
            false,
            replay_trace(false, t).unwrap(),
        ),
        unit_len(true, tb.end) == unit_len(false, t.end),
{
    let d = replay_trace(false, t).unwrap();
    lemma_replay_txns_ascii(false, t.start, t.txns);
    vstd::utf8::is_ascii_chars_encode_utf8(d);
    vstd::utf8::is_ascii_chars_encode_utf8(t.end);
}

} // verus!
