//! What an operation on the index asks of the repository, one step at a time.

use vstd::prelude::*;

use crate::oid::Oid;
use crate::rebuild::id_view;

verus! {

/// Something to do in the repository before an operation can go on.
#[derive(Debug)]
pub enum Action {
    /// Find the root tree that the index's reference leads to, if there is one.
    ResolveRoot,
    /// Read the tree with this id.
    FindTree(Oid),
    /// Read the tree with this id, if it can be read.
    TryTree(Oid),
    /// Write a tree with the entries of `base`, or none, in which the entry `name`
    /// names the tree `child`, or is gone where there is none.
    WriteTree { base: Option<Oid>, name: String, child: Option<Oid> },
    /// Commit this root tree under the index's reference.
    Commit { tree: Oid, message: String },
    /// Delete the index's reference.
    DeleteReference,
}

/// An action, as contracts see it.
pub enum Request {
    ResolveRoot,
    FindTree(Seq<u8>),
    TryTree(Seq<u8>),
    WriteTree { base: Option<Seq<u8>>, name: Seq<char>, child: Option<Seq<u8>> },
    Commit { tree: Seq<u8>, message: Seq<char> },
    DeleteReference,
}

impl View for Action {
    type V = Request;

    open spec fn view(&self) -> Request {
        match *self {
            Action::ResolveRoot => Request::ResolveRoot,
            Action::FindTree(id) => Request::FindTree(id@),
            Action::TryTree(id) => Request::TryTree(id@),
            Action::WriteTree { base, name, child } => Request::WriteTree {
                base: id_view(base),
                name: name@,
                child: id_view(child),
            },
            Action::Commit { tree, message } => Request::Commit { tree: tree@, message: message@ },
            Action::DeleteReference => Request::DeleteReference,
        }
    }
}

/// The next step of an operation that answers with a `T`: something to do
/// first, or its answer.
#[derive(Debug)]
pub enum Step<A, T> {
    Do(A),
    Return(T),
}

} // verus!
