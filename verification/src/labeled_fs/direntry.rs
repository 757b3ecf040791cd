//! Directory entries: a reference to an object together with its label.

use crate::dclabel::{DCLabel, LabelView};
use crate::labeled_fs::Error;
use vstd::prelude::*;

verus! {

/// The kind of a namespace object.
#[derive(Debug, Clone, Copy, PartialEq, Eq, Structural)]
pub enum DirEntry {
    /// A directory.
    D,
    /// A file.
    F,
}

/// A labeled reference to a namespace object.
#[derive(Debug, Clone, PartialEq, Eq)]
pub struct LabeledDirEntry {
    pub label: DCLabel,
    pub entry_type: DirEntry,
    pub uid: u64,
}

/// The mathematical value of a [`LabeledDirEntry`].
#[verifier::ext_equal]
pub struct EntryView {
    pub label: LabelView,
    pub entry_type: DirEntry,
    pub uid: u64,
}

impl View for LabeledDirEntry {
    type V = EntryView;

    open spec fn view(&self) -> EntryView {
        EntryView { label: self.label@, entry_type: self.entry_type, uid: self.uid }
    }
}

/// The object id of the root directory.
pub const ROOT_UID: u64 = 0;

/// The entry of the root directory: a directory with the object id 0 that
/// anyone may read and that taints no reader.
pub open spec fn root_entry() -> EntryView {
    EntryView { label: LabelView::bottom(), entry_type: DirEntry::D, uid: ROOT_UID }
}

impl LabeledDirEntry {
    /// The entry of an object with the given label, kind and id.
    pub fn new(label: DCLabel, entry_type: DirEntry, uid: u64) -> (r: LabeledDirEntry)
        ensures
            r@ == (EntryView { label: label@, entry_type, uid }),
    {
        LabeledDirEntry { label, entry_type, uid }
    }

    /// The entry of the root directory.
    pub fn root() -> (r: LabeledDirEntry)
        ensures
            r@ == root_entry(),
    {
        LabeledDirEntry { label: DCLabel::bottom(), entry_type: DirEntry::D, uid: ROOT_UID }
    }

    /// The kind of the object.
    pub fn entry_type(&self) -> (r: DirEntry)
        ensures
            r == self@.entry_type,
    {
        self.entry_type
    }

    /// The id of the object.
    pub fn uid(&self) -> (r: u64)
        ensures
            r == self@.uid,
    {
        self.uid
    }

    /// A copy of this entry.
    pub fn duplicate(&self) -> (r: LabeledDirEntry)
        ensures
            r@ == self@,
    {
        LabeledDirEntry {
            label: self.label.duplicate(),
            entry_type: self.entry_type,
            uid: self.uid,
        }
    }

    /// Opens the entry for reading. This always succeeds: the reader's
    /// label is raised to the join of itself and the entry's label.
    pub fn unlabel(&self, cur_label: &mut DCLabel) -> (r: (DirEntry, u64))
        ensures
            final(cur_label)@ == old(cur_label)@.lub(self@.label),
            r == (self@.entry_type, self@.uid),
    {
        let raised = cur_label.duplicate().lub(self.label.duplicate());
        *cur_label = raised;
        (self.entry_type, self.uid)
    }

    /// Opens the entry for writing. This succeeds if and only if the
    /// writer's label can flow to the entry's label. The writer's label is
    /// not changed.
    pub fn unlabel_write_check(&self, cur_label: &DCLabel) -> (r: Result<(DirEntry, u64), Error>)
        ensures
            match r {
                Ok(e) => cur_label@.can_flow_to(self@.label) && e == (
                    self@.entry_type,
                    self@.uid,
                ),
                Err(e) => !cur_label@.can_flow_to(self@.label) && e == Error::Unauthorized,
            },
    {
        if cur_label.can_flow_to(&self.label) {
            Ok((self.entry_type, self.uid))
        } else {
            Err(Error::Unauthorized)
        }
    }
}

} // verus!
