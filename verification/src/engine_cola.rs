//! Adapter for the cola CRDT. A cola replica holds no text of its own: it
//! tracks only the structure and length (in bytes) of a buffer the caller
//! edits alongside it. The adapter carries the intended buffer as a ghost
//! document, tied to the replica by the invariant that the replica's length
//! equals the buffer's byte length.

use vstd::prelude::*;

verus! {

use crate::unit::{
    byte_len, off_to_idx, edited, lemma_byte_len_concat, lemma_idx_take, lemma_idx_mono,
    lemma_byte_len_ge_len,
};
use crate::trace::{str_byte_len, lemma_off_le_ulen, lemma_byte_len_split3};
use crate::adapter::Upstream;

#[verifier::external_type_specification]
#[verifier::external_body]
pub struct ExReplica(cola::Replica);

/// The length, in bytes, of the buffer this replica tracks.
pub uninterp spec fn cola_len(r: cola::Replica) -> int;

/// Relies on cola::Replica::new: a replica tracking a buffer of the given
/// byte length; the id must not be zero.
#[verifier::external_body]
fn cola_new(id: u64, len: usize) -> (r: cola::Replica)
    requires
        id != 0,
    ensures
        cola_len(r) == len,
{
    cola::Replica::new(id, len)
}

/// Relies on cola::Replica::inserted: records an insertion of `len` bytes at
/// `at`, which must be within bounds.
#[verifier::external_body]
fn cola_inserted(r: &mut cola::Replica, at: usize, len: usize)
    requires
        at as int <= cola_len(*old(r)),
        cola_len(*old(r)) + len <= usize::MAX,
    ensures
        cola_len(*final(r)) == cola_len(*old(r)) + len,
{
    let _ = r.inserted(at, len);
}

/// Relies on cola::Replica::deleted: records a deletion of the byte range,
/// which must be within bounds and well ordered.
#[verifier::external_body]
fn cola_deleted(r: &mut cola::Replica, start: usize, end: usize)
    requires
        start <= end,
        end as int <= cola_len(*old(r)),
    ensures
        cola_len(*final(r)) == cola_len(*old(r)) - (end - start),
{
    let _ = r.deleted(start..end);
}

/// Relies on cola::Replica::len: the tracked buffer's byte length.
#[verifier::external_body]
fn cola_len_exec(r: &cola::Replica) -> (n: usize)
    ensures
        n as int == cola_len(*r),
{
    r.len()
}

/// The cola engine adapter: the replica and the ghost buffer it tracks.
pub struct Cola {
    replica: cola::Replica,
    buf: Ghost<Seq<char>>,
}

impl Upstream for Cola {
    closed spec fn text(&self) -> Seq<char> {
        self.buf@
    }

    closed spec fn inv(&self) -> bool {
        cola_len(self.replica) == byte_len(self.buf@)
    }

    open spec fn byte_offsets() -> bool {
        true
    }

    fn edits_use_byte_offsets() -> (r: bool) {
        true
    }

    fn name() -> (r: &'static str) {
        "cola"
    }

    fn from_str(s: &str) -> (r: Self) {
        let n = str_byte_len(s);
        let replica = cola_new(1, n);
        Cola { replica, buf: Ghost(s@) }
    }

    fn insert(&mut self, at_offset: usize, text: &str) {
        let ghost doc = self.buf@;
        let n = str_byte_len(text);
        proof {
            lemma_off_le_ulen(true, doc, at_offset as int);
            let i = off_to_idx(true, doc, at_offset as int).unwrap();
            lemma_idx_take(true, doc, at_offset as int);
            let ed = edited(true, doc, at_offset as int, at_offset as int, text@);
            assert(doc =~= doc.take(i) + doc.skip(i));
            lemma_byte_len_concat(doc.take(i), doc.skip(i));
            assert(ed =~= (doc.take(i) + text@) + doc.skip(i));
            lemma_byte_len_concat(doc.take(i) + text@, doc.skip(i));
            lemma_byte_len_concat(doc.take(i), text@);
            assert(byte_len(ed) == byte_len(doc) + byte_len(text@));
            lemma_byte_len_ge_len(doc.take(i));
            lemma_byte_len_ge_len(doc.skip(i));
        }
        cola_inserted(&mut self.replica, at_offset, n);
        self.buf = Ghost(
            edited(true, doc, at_offset as int, at_offset as int, text@),
        );
    }

    fn remove(&mut self, between_offsets: core::ops::Range<usize>) {
        let start = between_offsets.start;
        let end = between_offsets.end;
        let ghost doc = self.buf@;
        proof {
            lemma_off_le_ulen(true, doc, end as int);
            let i = off_to_idx(true, doc, start as int).unwrap();
            let j = off_to_idx(true, doc, end as int).unwrap();
            lemma_idx_take(true, doc, start as int);
            lemma_idx_take(true, doc, end as int);
            lemma_idx_mono(true, doc, start as int, end as int);
            let ed = edited(true, doc, start as int, end as int, Seq::<char>::empty());
            assert(ed =~= (doc.take(i) + Seq::<char>::empty()) + doc.skip(j));
            lemma_byte_len_concat(doc.take(i) + Seq::<char>::empty(), doc.skip(j));
            lemma_byte_len_concat(doc.take(i), Seq::<char>::empty());
            assert(vstd::utf8::encode_utf8(Seq::<char>::empty()) =~= Seq::<u8>::empty());
            lemma_byte_len_split3(doc, i, j);
            assert(doc.take(j) =~= doc.take(i) + doc.subrange(i, j));
            lemma_byte_len_concat(doc.take(i), doc.subrange(i, j));
            assert(byte_len(doc.subrange(i, j)) == end - start);
            assert(byte_len(ed) == byte_len(doc) - (end - start));
        }
        cola_deleted(&mut self.replica, start, end);
        self.buf = Ghost(edited(true, doc, start as int, end as int, Seq::<char>::empty()));
    }

    fn len(&self) -> (r: usize) {
        cola_len_exec(&self.replica)
    }
}

} // verus!
