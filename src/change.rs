//! File changes: the unit that commits carry and that merges resolve.

use vstd::prelude::*;

verus! {

/// What a change does to its file.
#[derive(Debug)]
pub enum ChangeType {
    Insert,
    Delete,
    Modify,
    /// The file moves to the given path.
    Move(String),
}

/// The mathematical value of a `ChangeType`.
pub enum ChangeKind {
    Insert,
    Delete,
    Modify,
    Move(Seq<char>),
}

impl View for ChangeType {
    type V = ChangeKind;

    open spec fn view(&self) -> ChangeKind {
        match self {
            ChangeType::Insert => ChangeKind::Insert,
            ChangeType::Delete => ChangeKind::Delete,
            ChangeType::Modify => ChangeKind::Modify,
            ChangeType::Move(p) => ChangeKind::Move(p@),
        }
    }
}

impl ChangeType {
    /// A copy of this change type.
    pub fn duplicate(&self) -> (r: ChangeType)
        ensures
            r@ == self@,
    {
        match self {
            ChangeType::Insert => ChangeType::Insert,
            ChangeType::Delete => ChangeType::Delete,
            ChangeType::Modify => ChangeType::Modify,
            ChangeType::Move(p) => ChangeType::Move(p.clone()),
        }
    }
}

/// One edit to one file.
#[derive(Debug)]
pub struct FileChange {
    pub path: String,
    pub operation: ChangeType,
    pub content_delta: Vec<u8>,
    /// Pairs of (old line, new line).
    pub line_mappings: Vec<(usize, usize)>,
}

/// The mathematical value of a `FileChange`.
pub struct FileChangeView {
    pub path: Seq<char>,
    pub operation: ChangeKind,
    pub content_delta: Seq<u8>,
    pub line_mappings: Seq<(usize, usize)>,
}

impl View for FileChange {
    type V = FileChangeView;

    open spec fn view(&self) -> FileChangeView {
        FileChangeView {
            path: self.path@,
            operation: self.operation@,
            content_delta: self.content_delta@,
            line_mappings: self.line_mappings@,
        }
    }
}

/// A copy of a byte vector.
fn copy_bytes(v: &Vec<u8>) -> (r: Vec<u8>)
    ensures
        r@ == v@,
{
    let mut r: Vec<u8> = Vec::new();
    let mut i: usize = 0;
    while i < v.len()
        invariant
            i <= v.len(),
            r@ == v@.take(i as int),
        decreases v.len() - i,
    {
        r.push(v[i]);
        i = i + 1;
        assert(r@ =~= v@.take(i as int));
    }
    assert(r@ =~= v@);
    r
}

/// A copy of a vector of line mappings.
fn copy_mappings(v: &Vec<(usize, usize)>) -> (r: Vec<(usize, usize)>)
    ensures
        r@ == v@,
{
    let mut r: Vec<(usize, usize)> = Vec::new();
    let mut i: usize = 0;
    while i < v.len()
        invariant
            i <= v.len(),
            r@ == v@.take(i as int),
        decreases v.len() - i,
    {
        r.push(v[i]);
        i = i + 1;
        assert(r@ =~= v@.take(i as int));
    }
    assert(r@ =~= v@);
    r
}

impl FileChange {
    /// A copy of this change.
    pub fn duplicate(&self) -> (r: FileChange)
        ensures
            r@ == self@,
    {
        FileChange {
            path: self.path.clone(),
            operation: self.operation.duplicate(),
            content_delta: copy_bytes(&self.content_delta),
            line_mappings: copy_mappings(&self.line_mappings),
        }
    }
}

} // verus!
