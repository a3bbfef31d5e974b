//! Laws that tie several operations together.
//!
//! Each proof here is stated over the step relations that the operations'
//! own contracts establish: a caller that chains the calls obtains the
//! hypotheses directly from those contracts.

use vstd::prelude::*;

use crate::handles::spec_chunk_handle;
use crate::metadata::Metadata;
use crate::namespace::{is_prefix_of, listed, Namespace, NodeKind, Status};

verus! {

/// After a directory is made, listing its parent shows it: the path now
/// resolves to a directory, which is always listed. With `ls`'s own
/// contract — a listing holds each name at most once — the new
/// directory's final component appears in the parent's listing exactly
/// once.
pub proof fn lemma_mkdir_then_ls(ns0: Namespace, ns1: Namespace, parts: Seq<Seq<char>>)
    requires
        parts.len() > 0,
        forall|q: Seq<Seq<char>>|
            #[trigger] ns1.lookup(q) == if is_prefix_of(q, parts) {
                Some(NodeKind::Dir)
            } else {
                ns0.lookup(q)
            },
    ensures
        ns1.lookup(parts.drop_last().push(parts.last())) == Some(NodeKind::Dir),
        listed(ns1.lookup(parts.drop_last().push(parts.last())).unwrap()),
{
    assert(parts.drop_last().push(parts.last()) =~= parts);
    assert(is_prefix_of(parts, parts)) by {
        assert(parts =~= parts.subrange(0, parts.len() as int));
    }
}

/// A later `mkdir` never hides an existing directory: whatever resolved
/// to a directory before the call still does after it. So a directory,
/// once made, stays in its parent's listing through any sequence of
/// `mkdir` calls.
pub proof fn lemma_mkdir_preserves_dirs(
    ns0: Namespace,
    ns1: Namespace,
    parts: Seq<Seq<char>>,
    q: Seq<Seq<char>>,
)
    requires
        forall|p: Seq<Seq<char>>|
            #[trigger] ns1.lookup(p) == if is_prefix_of(p, parts) {
                Some(NodeKind::Dir)
            } else {
                ns0.lookup(p)
            },
        ns0.lookup(q) == Some(NodeKind::Dir),
    ensures
        ns1.lookup(q) == Some(NodeKind::Dir),
{
}

/// A file created and then deleted is hidden: after the two steps its
/// path resolves to a file in deleted status, which a listing of the
/// parent directory leaves out, while the node itself stays in the tree.
pub proof fn lemma_create_delete_hides(
    ns0: Namespace,
    ns1: Namespace,
    ns2: Namespace,
    parts: Seq<Seq<char>>,
)
    requires
        parts.len() > 0,
        forall|q: Seq<Seq<char>>|
            #[trigger] ns1.lookup(q) == if is_prefix_of(q, parts.drop_last()) {
                Some(NodeKind::Dir)
            } else if q == parts {
                if ns0.lookup(parts) is Some {
                    ns0.lookup(parts)
                } else {
                    Some(NodeKind::File(Status::Active))
                }
            } else {
                ns0.lookup(q)
            },
        forall|q: Seq<Seq<char>>|
            #[trigger] ns2.lookup(q) == if q == parts {
                Some(NodeKind::File(Status::Deleted))
            } else {
                ns1.lookup(q)
            },
    ensures
        ns2.lookup(parts.drop_last().push(parts.last())) == Some(NodeKind::File(Status::Deleted)),
        !listed(ns2.lookup(parts.drop_last().push(parts.last())).unwrap()),
{
    assert(parts.drop_last().push(parts.last()) =~= parts);
}

/// A listing without repeats holds a name it contains at exactly one
/// index: what `ls` lists, it lists once.
pub proof fn lemma_listing_counts_once(views: Seq<Seq<char>>, name: Seq<char>)
    requires
        forall|a: int, b: int| 0 <= a < b < views.len() ==> views[a] != views[b],
        views.contains(name),
    ensures
        exists|i: int| 0 <= i < views.len() && views[i] == name,
        forall|i: int, j: int|
            0 <= i < views.len() && 0 <= j < views.len() && views[i] == name && views[j] == name
                ==> i == j,
{
}

/// Allocating the same chunk twice is idempotent: the handle is a
/// function of the file path and the chunk index alone, so the second
/// call returns the same handle, and inserting it again leaves the
/// file's handle set — and so its size — unchanged.
pub proof fn lemma_allocate_chunk_idempotent(
    m0: Metadata,
    m1: Metadata,
    m2: Metadata,
    path: Seq<char>,
    index: u64,
    h1: u64,
    h2: u64,
)
    requires
        h1 == spec_chunk_handle(path, index),
        m1.fth_at(path) == m0.fth_at(path).insert(h1),
        h2 == spec_chunk_handle(path, index),
        m2.fth_at(path) == m1.fth_at(path).insert(h2),
    ensures
        h1 == h2,
        m2.fth_at(path) == m1.fth_at(path),
{
    assert(m1.fth_at(path).contains(h2));
    assert(m2.fth_at(path) =~= m1.fth_at(path));
}

} // verus!
