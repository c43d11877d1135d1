//! The uniform capability interfaces that every wrapped replication engine
//! implements: `Upstream` for local edit application and `Downstream` for
//! capturing and merging causal updates.

use vstd::prelude::*;

verus! {

use crate::unit::{
    unit_len, byte_len, off_to_idx, edit_ok, edited, lemma_idx_take, lemma_prefix_idx,
    lemma_idx_mono,
};
use crate::trace::{Trace, replay_trace, patch_count};

/// Why a replay run failed.
#[derive(Clone, Copy, PartialEq, Eq, Structural, Debug)]
pub enum ReplayError {
    /// Some patch addressed an offset out of bounds of the document, or off a
    /// character boundary in a byte-offset unit.
    InvalidPatch,
    /// The replayed document's final length differed from the expected end
    /// content's length; a correctness failure of the adapter under test.
    LengthMismatch { expected: usize, actual: usize },
    /// The engine failed to encode or decode a captured update during
    /// derivation.
    CaptureFailed,
}

/// Local, single-replica edit application. The document is modelled as the
/// sequence of its characters; offsets are interpreted in the adapter's
/// declared unit (codepoints, or UTF-8 bytes when `byte_offsets()` holds).
pub trait Upstream: Sized {
    /// The characters of the adapter's current document.
    spec fn text(&self) -> Seq<char>;

    /// The adapter's internal well-formedness.
    spec fn inv(&self) -> bool;

    /// Whether edit offsets and lengths are counted in UTF-8 bytes rather
    /// than codepoints.
    spec fn byte_offsets() -> bool;

    /// The declared offset unit; a trace must be pre-transformed to this unit
    /// before replay, or results are silently wrong.
    fn edits_use_byte_offsets() -> (r: bool)
        ensures
            r == Self::byte_offsets(),
    ;

    /// The engine's display name.
    fn name() -> (r: &'static str);

    /// A fresh document instance seeded with `s`, which must fit the
    /// engines' index range.
    fn from_str(s: &str) -> (r: Self)
        requires
            byte_len(s@) <= u32::MAX,
        ensures
            r.inv(),
            r.text() == s@,
    ;

    /// Inserts `text` at `at_offset`. Engines reject empty insertions, so the
    /// text must be non-empty and the offset must address a character
    /// boundary in bounds.
    fn insert(&mut self, at_offset: usize, text: &str)
        requires
            old(self).inv(),
            text@.len() > 0,
            off_to_idx(Self::byte_offsets(), old(self).text(), at_offset as int) is Some,
            byte_len(
                edited(
                    Self::byte_offsets(),
                    old(self).text(),
                    at_offset as int,
                    at_offset as int,
                    text@,
                ),
            ) <= u32::MAX,
        ensures
            final(self).inv(),
            final(self).text() == edited(
                Self::byte_offsets(),
                old(self).text(),
                at_offset as int,
                at_offset as int,
                text@,
            ),
    ;

    /// Deletes the half-open offset range. Engines reject empty deletions, so
    /// the range must be non-empty and within bounds.
    fn remove(&mut self, between_offsets: core::ops::Range<usize>)
        requires
            old(self).inv(),
            between_offsets.start < between_offsets.end,
            edit_ok(
                Self::byte_offsets(),
                old(self).text(),
                between_offsets.start as int,
                between_offsets.end as int,
            ),
        ensures
            final(self).inv(),
            final(self).text() == edited(
                Self::byte_offsets(),
                old(self).text(),
                between_offsets.start as int,
                between_offsets.end as int,
                Seq::<char>::empty(),
            ),
    ;

    /// The document's current size, in codepoints or bytes depending on
    /// `byte_offsets()`.
    fn len(&self) -> (r: usize)
        requires
            self.inv(),
        ensures
            r as int == unit_len(Self::byte_offsets(), self.text()),
    ;

    /// Replaces the range with `text`: performs `remove` only when the range
    /// is non-empty, then `insert` only when the text is non-empty, so that
    /// neither is ever invoked with degenerate arguments.
    fn replace(&mut self, between_offsets: core::ops::Range<usize>, text: &str)
        requires
            old(self).inv(),
            between_offsets.start <= between_offsets.end,
            edit_ok(
                Self::byte_offsets(),
                old(self).text(),
                between_offsets.start as int,
                between_offsets.end as int,
            ),
            byte_len(
                edited(
                    Self::byte_offsets(),
                    old(self).text(),
                    between_offsets.start as int,
                    between_offsets.end as int,
                    text@,
                ),
            ) <= u32::MAX,
        ensures
            final(self).inv(),
            final(self).text() == edited(
                Self::byte_offsets(),
                old(self).text(),
                between_offsets.start as int,
                between_offsets.end as int,
                text@,
            ),
    {
        let start = between_offsets.start;
        let end = between_offsets.end;
        let ghost u = Self::byte_offsets();
        let ghost doc = self.text();
        let ghost i = off_to_idx(u, doc, start as int).unwrap();
        let ghost j = off_to_idx(u, doc, end as int).unwrap();
        proof {
            lemma_idx_mono(u, doc, start as int, end as int);
            lemma_idx_take(u, doc, start as int);
            lemma_idx_take(u, doc, end as int);
        }
        if end > start {
            self.remove(start..end);
            proof {
                assert(self.text() =~= doc.take(i) + doc.skip(j));
            }
        } else {
            proof {
                assert(i == j);
                assert(doc.take(i) + Seq::<char>::empty() + doc.skip(i) =~= doc);
            }
        }
        if !text.is_empty() {
            let ghost mid = self.text();
            proof {
                assert(mid =~= doc.take(i) + doc.skip(j));
                lemma_prefix_idx(u, doc.take(i), doc.skip(j));
                assert(doc.take(i).len() == i);
                assert(off_to_idx(u, mid, start as int) == Some(i));
                assert(mid.take(i) =~= doc.take(i));
                assert(mid.skip(i) =~= doc.skip(j));
                assert(edited(u, mid, start as int, start as int, text@) =~= edited(
                    u,
                    doc,
                    start as int,
                    end as int,
                    text@,
                ));
            }
            self.insert(start, text);
            proof {
                assert(mid.take(i) =~= doc.take(i));
                assert(mid.skip(i) =~= doc.skip(j));
                assert(self.text() =~= doc.take(i) + text@ + doc.skip(j));
            }
        } else {
            proof {
                assert(self.text() =~= doc.take(i) + text@ + doc.skip(j));
            }
        }
    }
}

/// Capturing one causal update per patch and merging captured updates into
/// another, causally related replica.
pub trait Downstream: Upstream {
    /// The engine's opaque delta representation; an immutable value that may
    /// be applied to any clone of the baseline it was captured against.
    type Update;

    /// What holds of every update this engine captures (for an engine whose
    /// updates are serialized, that they decode).
    spec fn update_ok(u: Self::Update) -> bool;

    /// A fresh, independently owned instance with the same document content,
    /// used to isolate repeated measurement trials from one another.
    fn duplicate(&self) -> (r: Self)
        requires
            self.inv(),
        ensures
            r.inv(),
            r.text() == self.text(),
    ;

    /// Replays the whole trace against an internal source instance, capturing
    /// after every single patch the causal delta since the previous capture
    /// point. Returns a separate, freshly created baseline instance seeded
    /// with the trace's start content, paired with the captured updates, one
    /// per patch.
    fn upstream_updates(trace: &Trace) -> (res: Result<(Self, Vec<Self::Update>), ReplayError>)
        ensures
            match res {
                Ok(p) => {
                    &&& replay_trace(Self::byte_offsets(), trace@) is Some
                    &&& p.0.inv()
                    &&& p.0.text() == trace@.start
                    &&& p.1@.len() == patch_count(trace@.txns)
                    &&& forall|k: int|
                        0 <= k < p.1@.len() ==> Self::update_ok(#[trigger] p.1@[k])
                },
                Err(ReplayError::InvalidPatch) => replay_trace(
                    Self::byte_offsets(),
                    trace@,
                ) is None,
                Err(ReplayError::CaptureFailed) => replay_trace(
                    Self::byte_offsets(),
                    trace@,
                ) is Some,
                Err(ReplayError::LengthMismatch { expected, actual }) => false,
            },
    ;

    /// Merges one previously captured update into this instance, advancing
    /// its causal state.
    fn apply_update(&mut self, update: &Self::Update)
        requires
            old(self).inv(),
        ensures
            final(self).inv(),
    ;
}

} // verus!
