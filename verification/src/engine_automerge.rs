//! Adapter for the automerge CRDT, driven through autosurgeon. A local text
//! mirror receives every splice (with `String::replace_range` semantics, so
//! byte offsets on character boundaries) and is then reconciled into the
//! automerge document; the mirror is authoritative for length and contents.

use vstd::prelude::*;

verus! {

use crate::unit::{byte_len, edit_ok, edited};
use crate::adapter::Upstream;

#[verifier::external_type_specification]
#[verifier::external_body]
pub struct ExAutoCommit(automerge::AutoCommit);

#[verifier::external_type_specification]
#[verifier::external_body]
pub struct ExText(autosurgeon::Text);

/// The characters a text mirror currently holds.
pub uninterp spec fn am_text(t: autosurgeon::Text) -> Seq<char>;

/// The automerge engine adapter: the document and its local text mirror.
pub struct Automerge {
    doc: automerge::AutoCommit,
    mirror: autosurgeon::Text,
}

/// Relies on automerge::AutoCommit::new: a fresh, empty document.
#[verifier::external_body]
fn am_new_doc() -> (d: automerge::AutoCommit) {
    automerge::AutoCommit::new()
}

/// Relies on autosurgeon::Text::with_value: a text mirror holding exactly
/// the given string.
#[verifier::external_body]
fn am_text_of(s: &str) -> (t: autosurgeon::Text)
    ensures
        am_text(t) == s@,
{
    autosurgeon::Text::with_value(s)
}

/// Relies on autosurgeon::Text::splice, whose index logic is that of
/// String::replace_range: replaces the byte range `pos..pos + del`, whose
/// ends must lie on character boundaries in bounds, with `ins`.
#[verifier::external_body]
fn am_splice(t: &mut autosurgeon::Text, pos: usize, del: usize, ins: &str)
    requires
        pos + del <= usize::MAX,
        edit_ok(true, am_text(*old(t)), pos as int, pos as int + del as int),
    ensures
        am_text(*final(t)) == edited(
            true,
            am_text(*old(t)),
            pos as int,
            pos as int + del as int,
            ins@,
        ),
{
    t.splice(pos, del as isize, ins);
}

/// Relies on autosurgeon::reconcile_prop: writes the mirror's state into the
/// automerge document under the given root property. Only the document
/// changes; the mirror is left as it is.
#[verifier::external_body]
fn am_sync(a: &mut Automerge, prop: &str)
    ensures
        final(a).mirror == old(a).mirror,
{
    let _ = autosurgeon::reconcile_prop(&mut a.doc, automerge::ROOT, prop, a.mirror.clone());
}

/// Relies on autosurgeon::Text::as_str and str::len: the mirror's contents
/// have this many UTF-8 bytes.
#[verifier::external_body]
fn am_byte_len(t: &autosurgeon::Text) -> (n: usize)
    ensures
        n as int == byte_len(am_text(*t)),
{
    t.as_str().len()
}

/// Relies on autosurgeon::Text::as_str: the mirror's current contents.
#[verifier::external_body]
fn am_content(t: &autosurgeon::Text) -> (s: String)
    ensures
        s@ == am_text(*t),
{
    t.as_str().to_string()
}

impl Automerge {
    /// The adapter's current document contents.
    pub fn content(&self) -> (s: String)
        ensures
            s@ == self.text(),
    {
        am_content(&self.mirror)
    }
}

impl Upstream for Automerge {
    closed spec fn text(&self) -> Seq<char> {
        am_text(self.mirror)
    }

    closed spec fn inv(&self) -> bool {
        true
    }

    open spec fn byte_offsets() -> bool {
        true
    }

    fn edits_use_byte_offsets() -> (r: bool) {
        true
    }

    fn name() -> (r: &'static str) {
        "automerge"
    }

    fn from_str(s: &str) -> (r: Self) {
        let doc = am_new_doc();
        let mirror = am_text_of(s);
        let mut a = Automerge { doc, mirror };
        am_sync(&mut a, "text");
        a
    }

    fn insert(&mut self, at_offset: usize, text: &str) {
        am_splice(&mut self.mirror, at_offset, 0, text);
        am_sync(self, "text");
    }

    fn remove(&mut self, between_offsets: core::ops::Range<usize>) {
        let start = between_offsets.start;
        let end = between_offsets.end;
        am_splice(&mut self.mirror, start, end - start, "");
        am_sync(self, "text");
        proof {
            reveal_strlit("");
            assert(""@ =~= Seq::<char>::empty());
            assert(self.text() == edited(
                true,
                old(self).text(),
                start as int,
                end as int,
                Seq::<char>::empty(),
            ));
        }
    }

    fn len(&self) -> (r: usize) {
        am_byte_len(&self.mirror)
    }

    /// One splice against the mirror does both the removal and the
    /// insertion, then one reconcile updates the document.
    fn replace(&mut self, between_offsets: core::ops::Range<usize>, text: &str) {
        let start = between_offsets.start;
        let end = between_offsets.end;
        am_splice(&mut self.mirror, start, end - start, text);
        am_sync(self, "text");
        proof {
            assert(self.text() == edited(
                true,
                old(self).text(),
                start as int,
                end as int,
                text@,
            ));
        }
    }
}

} // verus!
