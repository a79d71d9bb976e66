//! Data model of a parsed diff: line records, per-file base and head
//! sequences, and the change set over all files, with their well-formedness
//! invariants.
use vstd::prelude::*;

use crate::text::{DASH, PLUS};

verus! {

/// How a line figures in a diff: untouched context, removed from the base
/// side, or added on the head side.
#[derive(Clone, Copy, PartialEq, Eq, Structural, Debug)]
pub enum LineKind {
    Context,
    Removed,
    Added,
}

/// One line of one side of a file's diff: its 1-based position on that side,
/// its text as it stood in the diff (marker byte included), and its kind.
pub struct LineRecord {
    pub line_number: usize,
    pub text: Vec<u8>,
    pub kind: LineKind,
}

/// Mathematical image of a line record.
pub ghost struct RecModel {
    pub line_number: nat,
    pub text: Seq<u8>,
    pub kind: LineKind,
}

impl View for LineRecord {
    type V = RecModel;

    open spec fn view(&self) -> RecModel {
        RecModel { line_number: self.line_number as nat, text: self.text@, kind: self.kind }
    }
}

impl DeepView for LineRecord {
    type V = RecModel;

    open spec fn deep_view(&self) -> RecModel {
        self@
    }
}

impl LineRecord {
    /// Copies a record.
    pub fn duplicate(&self) -> (r: LineRecord)
        ensures
            r@ == self@,
    {
        LineRecord {
            line_number: self.line_number,
            text: crate::text::copy_bytes(&self.text),
            kind: self.kind,
        }
    }
}

/// One file touched by the diff: its path and the ordered line records of the
/// base and head sides.
pub struct FileEntry {
    pub path: Vec<u8>,
    pub base: Vec<LineRecord>,
    pub head: Vec<LineRecord>,
}

/// Mathematical image of a file entry.
pub ghost struct EntryModel {
    pub path: Seq<u8>,
    pub base: Seq<RecModel>,
    pub head: Seq<RecModel>,
}

impl View for FileEntry {
    type V = EntryModel;

    open spec fn view(&self) -> EntryModel {
        EntryModel { path: self.path@, base: self.base.deep_view(), head: self.head.deep_view() }
    }
}

impl DeepView for FileEntry {
    type V = EntryModel;

    open spec fn deep_view(&self) -> EntryModel {
        self@
    }
}

/// The parsed diff: one entry per touched file.
pub struct FileChangeSet {
    pub entries: Vec<FileEntry>,
}

impl View for FileChangeSet {
    type V = Seq<EntryModel>;

    open spec fn view(&self) -> Seq<EntryModel> {
        self.entries.deep_view()
    }
}

/// Line numbers strictly increase along one side of a file.
pub open spec fn recs_increasing(rs: Seq<RecModel>) -> bool {
    forall|i: int, j: int| 0 <= i < j < rs.len() ==> rs[i].line_number < rs[j].line_number
}

/// The text of a context record carries no marker byte.
pub open spec fn context_text(t: Seq<u8>) -> bool {
    t.len() > 0 && t[0] != DASH && t[0] != PLUS
}

/// A record on the base side is context or removed, and its text starts with
/// the marker its kind dictates.
pub open spec fn base_rec_wf(r: RecModel) -> bool {
    &&& !(r.kind is Added)
    &&& r.kind is Removed ==> r.text.len() > 0 && r.text[0] == DASH
    &&& r.kind is Context ==> context_text(r.text)
}

/// A record on the head side is context or added, with the matching marker.
pub open spec fn head_rec_wf(r: RecModel) -> bool {
    &&& !(r.kind is Removed)
    &&& r.kind is Added ==> r.text.len() > 0 && r.text[0] == PLUS
    &&& r.kind is Context ==> context_text(r.text)
}

/// Well-formedness of one file entry: both sides strictly ordered, every
/// record shaped by its side, and at least one record present.
pub open spec fn entry_wf(e: EntryModel) -> bool {
    &&& recs_increasing(e.base)
    &&& recs_increasing(e.head)
    &&& forall|i: int| 0 <= i < e.base.len() ==> base_rec_wf(#[trigger] e.base[i])
    &&& forall|i: int| 0 <= i < e.head.len() ==> head_rec_wf(#[trigger] e.head[i])
    &&& e.base.len() + e.head.len() > 0
}

/// Well-formedness of a change set: every entry well formed and paths unique.
pub open spec fn fcs_wf(m: Seq<EntryModel>) -> bool {
    &&& forall|i: int| 0 <= i < m.len() ==> entry_wf(#[trigger] m[i])
    &&& forall|i: int, j: int| 0 <= i < j < m.len() ==> m[i].path != m[j].path
}

impl FileChangeSet {
    /// The change set's own invariant.
    pub open spec fn wf(&self) -> bool {
        fcs_wf(self@)
    }

    /// An empty change set.
    pub fn new() -> (r: FileChangeSet)
        ensures
            r@ =~= Seq::<EntryModel>::empty(),
            r.wf(),
    {
        FileChangeSet { entries: Vec::new() }
    }
}

} // verus!
