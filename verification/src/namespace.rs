//! The hierarchical namespace owned by the master.
//!
//! The tree holds `Directory` and `File` nodes; a file is `Active` or
//! `Deleted`. Deleted files are hidden from `ls` but stay in the tree until
//! garbage collection. The mathematical model of a tree is the partial
//! function [`Node::lookup`] from component sequences to the kind of the
//! node they name; every operation's contract is stated against it.

use vstd::prelude::*;

use crate::errors::DfsError;
use crate::paths::{parse_path, seq_views, spec_parse_path, str_eq};

verus! {

/// Whether a file is visible or hidden pending garbage collection.
#[derive(Debug, Clone, Copy, PartialEq, Eq, Structural)]
pub enum Status {
    Active,
    Deleted,
}

/// What a path names: a directory, or a file with its status.
#[derive(Debug, Clone, Copy, PartialEq, Eq, Structural)]
pub enum NodeKind {
    Dir,
    File(Status),
}

/// A node of the namespace tree. Each directory entry pairs a child's name
/// with the child; a directory holds at most one child per name.
#[derive(Debug)]
pub enum Node {
    Directory { name: String, nodes: Vec<(String, Node)> },
    File { name: String, status: Status },
}

/// The index of the first entry with the given name, or `-1`.
pub open spec fn find_key(entries: Seq<(String, Node)>, name: Seq<char>) -> int
    decreases entries.len(),
{
    if entries.len() == 0 {
        -1
    } else if entries[0].0@ == name {
        0
    } else {
        let r = find_key(entries.drop_first(), name);
        if r == -1 {
            -1
        } else {
            r + 1
        }
    }
}

/// What `find_key` returns: the first index holding `name`, or `-1` when no
/// entry holds it.
pub proof fn lemma_find_key(entries: Seq<(String, Node)>, name: Seq<char>)
    ensures
        find_key(entries, name) == -1 ==> forall|i: int|
            0 <= i < entries.len() ==> (#[trigger] entries[i].0)@ != name,
        find_key(entries, name) != -1 ==> {
            let k = find_key(entries, name);
            &&& 0 <= k < entries.len()
            &&& entries[k].0@ == name
            &&& forall|i: int| 0 <= i < k ==> (#[trigger] entries[i].0)@ != name
        },
    decreases entries.len(),
{
    if entries.len() > 0 && entries[0].0@ != name {
        let tail = entries.drop_first();
        lemma_find_key(tail, name);
        if find_key(tail, name) == -1 {
            assert forall|i: int| 0 <= i < entries.len() implies (#[trigger] entries[i].0)@
                != name by {
                if i > 0 {
                    assert(tail[i - 1] == entries[i]);
                }
            }
        } else {
            let k = find_key(tail, name);
            assert(tail[k] == entries[k + 1]);
            assert forall|i: int| 0 <= i < k + 1 implies (#[trigger] entries[i].0)@ != name by {
                if i > 0 {
                    assert(tail[i - 1] == entries[i]);
                }
            }
        }
    }
}

/// Whether one component sequence is a prefix of another.
pub open spec fn is_prefix_of(q: Seq<Seq<char>>, p: Seq<Seq<char>>) -> bool {
    q.len() <= p.len() && q == p.subrange(0, q.len() as int)
}

impl Node {
    /// The node's own name.
    pub open spec fn spec_name(self) -> Seq<char> {
        match self {
            Node::Directory { name, .. } => name@,
            Node::File { name, .. } => name@,
        }
    }

    /// Whether the node is a directory.
    pub open spec fn is_dir(self) -> bool {
        self is Directory
    }

    /// The directory's entries; the empty sequence for a file.
    pub open spec fn entries(self) -> Seq<(String, Node)> {
        match self {
            Node::Directory { nodes, .. } => nodes@,
            Node::File { .. } => Seq::empty(),
        }
    }

    /// The node's kind: directory, or file with status.
    pub open spec fn kind(self) -> NodeKind {
        match self {
            Node::Directory { .. } => NodeKind::Dir,
            Node::File { status, .. } => NodeKind::File(status),
        }
    }

    /// Well-formedness: within each directory the names are unique, and each
    /// entry's key is the name of the child it holds.
    pub open spec fn wf(self) -> bool
        decreases self,
    {
        match self {
            Node::File { .. } => true,
            Node::Directory { name, nodes } => {
                &&& forall|i: int, j: int|
                    0 <= i < j < nodes@.len() ==> (#[trigger] nodes@[i].0)@ != (
                    #[trigger] nodes@[j].0)@
                &&& forall|i: int|
                    0 <= i < nodes@.len() ==> (#[trigger] nodes@[i].1).spec_name() == nodes@[i].0@
                &&& forall|i: int| 0 <= i < nodes@.len() ==> (#[trigger] nodes@[i].1).wf()
            },
        }
    }

    /// The kind of the node that the component sequence names under this
    /// node, or `None` when it resolves nowhere. This partial function is
    /// the model of the tree.
    pub open spec fn lookup(self, q: Seq<Seq<char>>) -> Option<NodeKind>
        decreases q.len(),
    {
        if q.len() == 0 {
            Some(self.kind())
        } else {
            let k = find_key(self.entries(), q[0]);
            if k == -1 {
                None
            } else {
                self.entries()[k].1.lookup(q.drop_first())
            }
        }
    }

    /// The walk outcome of `mkdir`: fails exactly when a named component,
    /// or the node the whole path names, resolves to a file.
    pub open spec fn mkdir_check(self, rest: Seq<Seq<char>>) -> Option<DfsError>
        decreases rest.len(),
    {
        if !self.is_dir() {
            Some(DfsError::PathIsFile)
        } else if rest.len() == 0 {
            None
        } else {
            let k = find_key(self.entries(), rest[0]);
            if k == -1 {
                None
            } else {
                self.entries()[k].1.mkdir_check(rest.drop_first())
            }
        }
    }

    /// The walk outcome of `delete_file`: `NotFound` when a component is
    /// missing, `PathIsFile` when an inner component is a file, and
    /// `IsDirectory` when the leaf is a directory.
    pub open spec fn delete_check(self, rest: Seq<Seq<char>>) -> Option<DfsError>
        decreases rest.len(),
    {
        if !self.is_dir() {
            Some(DfsError::PathIsFile)
        } else if rest.len() == 0 {
            Some(DfsError::IsDirectory)
        } else {
            let k = find_key(self.entries(), rest[0]);
            if k == -1 {
                Some(DfsError::NotFound)
            } else if rest.len() == 1 {
                if self.entries()[k].1.is_dir() {
                    Some(DfsError::IsDirectory)
                } else {
                    None
                }
            } else {
                self.entries()[k].1.delete_check(rest.drop_first())
            }
        }
    }

    /// The walk outcome of `ls`: `NotFound` when a component is missing,
    /// `PathIsFile` when an inner component is a file, and `NotDirectory`
    /// when the target itself is a file.
    pub open spec fn ls_check(self, rest: Seq<Seq<char>>) -> Option<DfsError>
        decreases rest.len(),
    {
        if rest.len() == 0 {
            if self.is_dir() {
                None
            } else {
                Some(DfsError::NotDirectory)
            }
        } else if !self.is_dir() {
            Some(DfsError::PathIsFile)
        } else {
            let k = find_key(self.entries(), rest[0]);
            if k == -1 {
                Some(DfsError::NotFound)
            } else {
                self.entries()[k].1.ls_check(rest.drop_first())
            }
        }
    }
}

/// Whether a node of this kind appears in a directory listing: directories
/// always, files only while they are active.
pub open spec fn listed(k: NodeKind) -> bool {
    match k {
        NodeKind::Dir => true,
        NodeKind::File(status) => status == Status::Active,
    }
}

/// The names a directory with these entries lists, in entry order.
pub open spec fn ls_of(entries: Seq<(String, Node)>) -> Seq<Seq<char>>
    decreases entries.len(),
{
    if entries.len() == 0 {
        Seq::empty()
    } else {
        let rest = ls_of(entries.drop_last());
        if listed(entries.last().1.kind()) {
            rest.push(entries.last().0@)
        } else {
            rest
        }
    }
}

/// A listing holds a name exactly when some entry holds it and is listed.
pub proof fn lemma_ls_of_contains(entries: Seq<(String, Node)>, name: Seq<char>)
    ensures
        ls_of(entries).contains(name) <==> exists|i: int|
            0 <= i < entries.len() && (#[trigger] entries[i].0)@ == name && listed(
                entries[i].1.kind(),
            ),
    decreases entries.len(),
{
    if entries.len() > 0 {
        lemma_ls_of_contains(entries.drop_last(), name);
        let prev = ls_of(entries.drop_last());
        if listed(entries.last().1.kind()) {
            broadcast use vstd::seq_lib::lemma_seq_contains_after_push;

        }
        if exists|i: int|
            0 <= i < entries.len() && (#[trigger] entries[i].0)@ == name && listed(
                entries[i].1.kind(),
            ) {
            let i = choose|i: int|
                0 <= i < entries.len() && (#[trigger] entries[i].0)@ == name && listed(
                    entries[i].1.kind(),
                );
            if i < entries.len() - 1 {
                assert(entries.drop_last()[i].0@ == name);
            }
        }
    }
}

/// `find_key` reads only the names, never the children.
proof fn lemma_find_key_same_keys(
    e1: Seq<(String, Node)>,
    e2: Seq<(String, Node)>,
    name: Seq<char>,
)
    requires
        e1.len() == e2.len(),
        forall|j: int| 0 <= j < e1.len() ==> (#[trigger] e1[j].0)@ == (#[trigger] e2[j].0)@,
    ensures
        find_key(e1, name) == find_key(e2, name),
    decreases e1.len(),
{
    if e1.len() > 0 {
        assert(e1[0].0@ == e2[0].0@);
        if e1[0].0@ != name {
            assert(forall|j: int|
                0 <= j < e1.drop_first().len() ==> #[trigger] e1.drop_first()[j] == e1[j + 1]
                    && #[trigger] e2.drop_first()[j] == e2[j + 1]);
            lemma_find_key_same_keys(e1.drop_first(), e2.drop_first(), name);
        }
    }
}

/// `find_key` after appending one entry.
proof fn lemma_find_key_push(e: Seq<(String, Node)>, x: (String, Node), name: Seq<char>)
    ensures
        find_key(e.push(x), name) == if find_key(e, name) != -1 {
            find_key(e, name)
        } else if x.0@ == name {
            e.len() as int
        } else {
            -1
        },
    decreases e.len(),
{
    let p = e.push(x);
    if e.len() == 0 {
        assert(p[0] == x);
        assert(p.drop_first() =~= Seq::<(String, Node)>::empty());
        if x.0@ == name {
            assert(find_key(p, name) == 0);
        } else {
            assert(find_key(p.drop_first(), name) == -1);
            assert(find_key(p, name) == -1);
        }
    } else {
        assert(p[0] == e[0]);
        assert(p.drop_first() =~= e.drop_first().push(x));
        lemma_find_key_push(e.drop_first(), x, name);
        lemma_find_key(e.drop_first(), name);
        assert(find_key(p, name) == if p[0].0@ == name {
            0
        } else {
            let r = find_key(p.drop_first(), name);
            if r == -1 {
                -1int
            } else {
                r + 1
            }
        });
    }
}

/// With unique names, `find_key` returns the one index holding the name.
proof fn lemma_find_key_unique(e: Seq<(String, Node)>, k: int)
    requires
        forall|i: int, j: int| 0 <= i < j < e.len() ==> (#[trigger] e[i].0)@ != (#[trigger] e[j].0)@,
        0 <= k < e.len(),
    ensures
        find_key(e, e[k].0@) == k,
{
    lemma_find_key(e, e[k].0@);
    let fk = find_key(e, e[k].0@);
    if fk == -1 {
        assert(e[k].0@ != e[k].0@);
    }
}

/// How replacing the child at `k` (keeping its name) changes `lookup`.
proof fn lemma_lookup_update(d: Node, d2: Node, k: int, c2: Node)
    requires
        d is Directory,
        d2 is Directory,
        forall|i: int, j: int|
            0 <= i < j < d.entries().len() ==> (#[trigger] d.entries()[i].0)@ != (
            #[trigger] d.entries()[j].0)@,
        0 <= k < d.entries().len(),
        d2.entries() == d.entries().update(k, (d.entries()[k].0, c2)),
    ensures
        forall|q: Seq<Seq<char>>|
            q.len() > 0 && q[0] == d.entries()[k].0@ ==> #[trigger] d2.lookup(q) == c2.lookup(
                q.drop_first(),
            ) && d.lookup(q) == d.entries()[k].1.lookup(q.drop_first()),
        forall|q: Seq<Seq<char>>|
            q.len() > 0 && q[0] != d.entries()[k].0@ ==> #[trigger] d2.lookup(q) == d.lookup(q),
{
    let e = d.entries();
    let e2 = d2.entries();
    assert forall|q: Seq<Seq<char>>| q.len() > 0 && q[0] == e[k].0@ implies #[trigger] d2.lookup(q)
        == c2.lookup(q.drop_first()) && d.lookup(q) == e[k].1.lookup(q.drop_first()) by {
        assert(forall|j: int|
            0 <= j < e.len() ==> (#[trigger] e[j].0)@ == (#[trigger] e2[j].0)@);
        lemma_find_key_same_keys(e, e2, q[0]);
        lemma_find_key_unique(e, k);
        assert(e2[k].1 == c2);
    }
    assert forall|q: Seq<Seq<char>>| q.len() > 0 && q[0] != e[k].0@ implies #[trigger] d2.lookup(q)
        == d.lookup(q) by {
        assert(forall|j: int|
            0 <= j < e.len() ==> (#[trigger] e[j].0)@ == (#[trigger] e2[j].0)@);
        lemma_find_key_same_keys(e, e2, q[0]);
        lemma_find_key(e, q[0]);
        let fk = find_key(e, q[0]);
        if fk != -1 {
            assert(e[fk].0@ == q[0]);
            assert(fk != k);
            assert(e2[fk] == e[fk]);
        }
    }
}

/// How appending a child under a fresh name changes `lookup`.
proof fn lemma_lookup_push(d: Node, d2: Node, key: String, c2: Node)
    requires
        d is Directory,
        d2 is Directory,
        find_key(d.entries(), key@) == -1,
        d2.entries() == d.entries().push((key, c2)),
    ensures
        forall|q: Seq<Seq<char>>|
            q.len() > 0 && q[0] == key@ ==> #[trigger] d2.lookup(q) == c2.lookup(q.drop_first())
                && d.lookup(q) == None::<NodeKind>,
        forall|q: Seq<Seq<char>>|
            q.len() > 0 && q[0] != key@ ==> #[trigger] d2.lookup(q) == d.lookup(q),
{
    let e = d.entries();
    let e2 = d2.entries();
    assert forall|q: Seq<Seq<char>>| q.len() > 0 implies (q[0] == key@ ==> #[trigger] d2.lookup(q)
        == c2.lookup(q.drop_first()) && d.lookup(q) == None::<NodeKind>) && (q[0] != key@
        ==> d2.lookup(q) == d.lookup(q)) by {
        lemma_find_key_push(e, (key, c2), q[0]);
        if q[0] == key@ {
            assert(e2[e.len() as int].1 == c2);
        } else {
            let fk = find_key(e, q[0]);
            if fk != -1 {
                lemma_find_key(e, q[0]);
                assert(e2[fk] == e[fk]);
            }
        }
    }
}

/// With unique names, a listing holds no name twice.
pub proof fn lemma_ls_of_no_dup(entries: Seq<(String, Node)>)
    requires
        forall|i: int, j: int|
            0 <= i < j < entries.len() ==> (#[trigger] entries[i].0)@ != (#[trigger] entries[j].0)@,
    ensures
        forall|i: int, j: int|
            0 <= i < j < ls_of(entries).len() ==> ls_of(entries)[i] != ls_of(entries)[j],
    decreases entries.len(),
{
    if entries.len() > 0 {
        let head = entries.drop_last();
        lemma_ls_of_no_dup(head);
        if listed(entries.last().1.kind()) {
            lemma_ls_of_contains(head, entries.last().0@);
            assert(forall|i: int| 0 <= i < head.len() ==> (#[trigger] head[i].0)@ != entries.last().0@);
        }
    }
}

/// Facts about prefixes that follow from extensionality.
proof fn lemma_prefix_facts(q: Seq<Seq<char>>, p: Seq<Seq<char>>)
    ensures
        q.len() == 0 ==> is_prefix_of(q, p),
        is_prefix_of(q, p) && p.len() == 0 ==> q.len() == 0,
        q.len() > 0 && p.len() > 0 && q[0] != p[0] ==> !is_prefix_of(q, p),
{
    if q.len() == 0 {
        assert(q =~= p.subrange(0, 0));
    }
    if is_prefix_of(q, p) && q.len() > 0 && p.len() > 0 {
        assert(q[0] == p.subrange(0, q.len() as int)[0]);
    }
}

/// Being a prefix steps down to the tails when the heads agree.
proof fn lemma_prefix_step(q: Seq<Seq<char>>, p: Seq<Seq<char>>)
    requires
        q.len() > 0,
        p.len() > 0,
        q[0] == p[0],
    ensures
        is_prefix_of(q, p) <==> is_prefix_of(q.drop_first(), p.drop_first()),
        (q == p) <==> (q.drop_first() == p.drop_first()),
{
    let qd = q.drop_first();
    let pd = p.drop_first();
    if is_prefix_of(q, p) {
        assert(qd =~= pd.subrange(0, qd.len() as int));
    }
    if is_prefix_of(qd, pd) {
        assert forall|j: int| 1 <= j < q.len() implies q[j] == p[j] by {
            assert(q[j] == qd[j - 1]);
            assert(pd[j - 1] == p[j]);
        }
        assert(q =~= p.subrange(0, q.len() as int));
    }
    if qd == pd {
        assert forall|j: int| 1 <= j < q.len() implies q[j] == p[j] by {
            assert(q[j] == qd[j - 1]);
            assert(pd[j - 1] == p[j]);
        }
        assert(q =~= p);
    }
}

/// A walk that `mkdir` accepts meets no file: every prefix of the path
/// resolves to a directory or to nothing.
pub proof fn lemma_mkdir_check_no_file(node: Node, rest: Seq<Seq<char>>)
    requires
        node.mkdir_check(rest) is None,
    ensures
        forall|q: Seq<Seq<char>>|
            #[trigger] is_prefix_of(q, rest) ==> !(node.lookup(q) matches Some(NodeKind::File(_))),
    decreases rest.len(),
{
    assert forall|q: Seq<Seq<char>>| #[trigger] is_prefix_of(q, rest) implies !(node.lookup(q)
        matches Some(NodeKind::File(_))) by {
        lemma_prefix_facts(q, rest);
        if q.len() > 0 {
            assert(q[0] == rest.subrange(0, q.len() as int)[0]);
            let k = find_key(node.entries(), rest[0]);
            if k != -1 {
                let child = node.entries()[k].1;
                lemma_mkdir_check_no_file(child, rest.drop_first());
                lemma_prefix_step(q, rest);
                assert(is_prefix_of(q.drop_first(), rest.drop_first()));
                assert(node.lookup(q) == child.lookup(q.drop_first()));
            }
        }
    }
}

/// Finds the index of the entry holding `name`, scanning in entry order.
fn find_child(entries: &Vec<(String, Node)>, name: &str) -> (r: Option<usize>)
    ensures
        match r {
            Some(k) => 0 <= k < entries@.len() && find_key(entries@, name@) == k,
            None => find_key(entries@, name@) == -1,
        },
{
    let n = entries.len();
    let mut i: usize = 0;
    while i < n
        invariant
            n == entries@.len(),
            0 <= i <= n,
            forall|j: int| 0 <= j < i ==> (#[trigger] entries@[j].0)@ != name@,
        decreases n - i,
    {
        if str_eq(entries[i].0.as_str(), name) {
            proof {
                lemma_find_key(entries@, name@);
            }
            return Some(i);
        }
        i += 1;
    }
    proof {
        lemma_find_key(entries@, name@);
    }
    None
}

/// Creates the directory chain `parts[i..]` under `node`. Missing
/// directories are created; existing ones are kept with their contents.
/// On error the tree is unchanged.
fn mkdir_at(node: Node, parts: &Vec<String>, i: usize) -> (res: (Node, Option<DfsError>))
    requires
        node.wf(),
        i <= parts@.len(),
    ensures
        res.0.wf(),
        res.0.spec_name() == node.spec_name(),
        res.0.kind() == node.kind(),
        res.1 == node.mkdir_check(seq_views(parts@).subrange(i as int, parts@.len() as int)),
        match res.1 {
            None => forall|q: Seq<Seq<char>>|
                #[trigger] res.0.lookup(q) == if is_prefix_of(
                    q,
                    seq_views(parts@).subrange(i as int, parts@.len() as int),
                ) {
                    Some(NodeKind::Dir)
                } else {
                    node.lookup(q)
                },
            Some(_) => forall|q: Seq<Seq<char>>| #[trigger] res.0.lookup(q) == node.lookup(q),
        },
    decreases parts@.len() - i,
{
    let ghost orig = node;
    let ghost rest = seq_views(parts@).subrange(i as int, parts@.len() as int);
    match node {
        Node::File { name, status } => (Node::File { name, status }, Some(DfsError::PathIsFile)),
        Node::Directory { name, mut nodes } => {
            let ghost e = nodes@;
            if i == parts.len() {
                let out = Node::Directory { name, nodes };
                proof {
                    assert(out.entries() == e);
                    assert forall|q: Seq<Seq<char>>| #[trigger] out.lookup(q) == if is_prefix_of(
                        q,
                        rest,
                    ) {
                        Some(NodeKind::Dir)
                    } else {
                        orig.lookup(q)
                    } by {
                        if is_prefix_of(q, rest) {
                            assert(q.len() == 0);
                        }
                        assert(out.lookup(q) == orig.lookup(q));
                    }
                }
                (out, None)
            } else {
                let ghost restd = seq_views(parts@).subrange(i + 1, parts@.len() as int);
                proof {
                    assert(rest[0] == parts@[i as int]@);
                    assert(rest.drop_first() =~= restd);
                }
                match find_child(&nodes, parts[i].as_str()) {
                    Some(k) => {
                        let (key, child) = nodes.remove(k);
                        proof {
                            assert(e[k as int].1 == child && e[k as int].0 == key);
                            assert(child.wf());
                        }
                        let (child2, err) = mkdir_at(child, parts, i + 1);
                        nodes.insert(k, (key, child2));
                        let out = Node::Directory { name, nodes };
                        proof {
                            assert(out.entries() =~= e.update(k as int, (e[k as int].0, child2)));
                            lemma_lookup_update(orig, out, k as int, child2);
                            assert(out.wf()) by {
                                assert(forall|j: int|
                                    0 <= j < e.len() && j != k ==> out.entries()[j]
                                        == #[trigger] e[j]);
                                assert(out.entries()[k as int].1 == child2);
                                assert(child2.spec_name() == e[k as int].0@);
                            }
                            assert(orig.mkdir_check(rest) == child.mkdir_check(restd));
                            assert(e[k as int].0@ == rest[0]) by {
                                lemma_find_key(e, rest[0]);
                            }
                            if err is None {
                                assert forall|q: Seq<Seq<char>>| #[trigger] out.lookup(q)
                                    == if is_prefix_of(q, rest) {
                                    Some(NodeKind::Dir)
                                } else {
                                    orig.lookup(q)
                                } by {
                                    if q.len() == 0 {
                                        assert(is_prefix_of(q, rest)) by {
                                            assert(q =~= rest.subrange(0, 0));
                                        }
                                    } else if q[0] == rest[0] {
                                        let qd = q.drop_first();
                                        assert(is_prefix_of(q, rest) <==> is_prefix_of(
                                            qd,
                                            restd,
                                        )) by {
                                            if is_prefix_of(q, rest) {
                                                assert(qd =~= restd.subrange(0, qd.len() as int));
                                            }
                                            if is_prefix_of(qd, restd) {
                                                assert forall|j: int| 1 <= j < q.len() implies q[j]
                                                    == rest[j] by {
                                                    assert(q[j] == qd[j - 1]);
                                                    assert(restd[j - 1] == rest[j]);
                                                }
                                                assert(q =~= rest.subrange(0, q.len() as int));
                                            }
                                        }
                                    } else {
                                        assert(!is_prefix_of(q, rest)) by {
                                            if is_prefix_of(q, rest) {
                                                assert(q[0] == rest.subrange(0, q.len() as int)[0]);
                                            }
                                        }
                                    }
                                }
                            } else {
                                assert(forall|q: Seq<Seq<char>>| #[trigger] out.lookup(q)
                                    == orig.lookup(q));
                            }
                        }
                        (out, err)
                    },
                    None => {
                        let fresh = Node::Directory { name: parts[i].clone(), nodes: Vec::new() };
                        proof {
                            assert(fresh.wf());
                            assert(fresh.spec_name() == rest[0]);
                        }
                        let (child2, err) = mkdir_at(fresh, parts, i + 1);
                        proof {
                            assert(fresh.mkdir_check(restd) is None);
                            assert(err is None);
                        }
                        let key = parts[i].clone();
                        nodes.push((key, child2));
                        let out = Node::Directory { name, nodes };
                        proof {
                            assert(out.entries() == e.push((key, child2)));
                            lemma_lookup_push(orig, out, key, child2);
                            assert(out.wf()) by {
                                lemma_find_key(e, key@);
                                assert(forall|j: int|
                                    0 <= j < e.len() ==> out.entries()[j] == #[trigger] e[j]);
                                assert(out.entries()[e.len() as int] == (key, child2));
                            }
                            assert(orig.mkdir_check(rest) is None);
                            assert forall|q: Seq<Seq<char>>| #[trigger] out.lookup(q)
                                == if is_prefix_of(q, rest) {
                                Some(NodeKind::Dir)
                            } else {
                                orig.lookup(q)
                            } by {
                                if q.len() == 0 {
                                    assert(is_prefix_of(q, rest)) by {
                                        assert(q =~= rest.subrange(0, 0));
                                    }
                                } else if q[0] == rest[0] {
                                    let qd = q.drop_first();
                                    assert(is_prefix_of(q, rest) <==> is_prefix_of(qd, restd)) by {
                                        if is_prefix_of(q, rest) {
                                            assert(qd =~= restd.subrange(0, qd.len() as int));
                                        }
                                        if is_prefix_of(qd, restd) {
                                            assert forall|j: int| 1 <= j < q.len() implies q[j]
                                                == rest[j] by {
                                                assert(q[j] == qd[j - 1]);
                                                assert(restd[j - 1] == rest[j]);
                                            }
                                            assert(q =~= rest.subrange(0, q.len() as int));
                                        }
                                    }
                                    if !is_prefix_of(qd, restd) {
                                        assert(qd.len() > 0) by {
                                            if qd.len() == 0 {
                                                assert(qd =~= restd.subrange(0, 0));
                                            }
                                        }
                                        assert(child2.lookup(qd) == fresh.lookup(qd));
                                        assert(fresh.lookup(qd) == None::<NodeKind>);
                                    }
                                } else {
                                    assert(!is_prefix_of(q, rest)) by {
                                        if is_prefix_of(q, rest) {
                                            assert(q[0] == rest.subrange(0, q.len() as int)[0]);
                                        }
                                    }
                                }
                            }
                        }
                        (out, err)
                    },
                }
            }
        },
    }
}

/// Creates the file named by the last component of `parts[i..]` under
/// `node`, creating the missing directories on the way. A node already
/// standing under the file's name, file or directory, is left as it is.
/// On error the tree is unchanged.
fn create_at(node: Node, parts: &Vec<String>, i: usize) -> (res: (Node, Option<DfsError>))
    requires
        node.wf(),
        i < parts@.len(),
    ensures
        res.0.wf(),
        res.0.spec_name() == node.spec_name(),
        res.0.kind() == node.kind(),
        res.1 == node.mkdir_check(seq_views(parts@).subrange(i as int, parts@.len() - 1)),
        match res.1 {
            None => forall|q: Seq<Seq<char>>|
                #[trigger] res.0.lookup(q) == {
                    let parents = seq_views(parts@).subrange(i as int, parts@.len() - 1);
                    let full = seq_views(parts@).subrange(i as int, parts@.len() as int);
                    if is_prefix_of(q, parents) {
                        Some(NodeKind::Dir)
                    } else if q == full {
                        if node.lookup(full) is Some {
                            node.lookup(full)
                        } else {
                            Some(NodeKind::File(Status::Active))
                        }
                    } else {
                        node.lookup(q)
                    }
                },
            Some(_) => forall|q: Seq<Seq<char>>| #[trigger] res.0.lookup(q) == node.lookup(q),
        },
    decreases parts@.len() - i,
{
    let ghost orig = node;
    let ghost parents = seq_views(parts@).subrange(i as int, parts@.len() - 1);
    let ghost full = seq_views(parts@).subrange(i as int, parts@.len() as int);
    match node {
        Node::File { name, status } => (Node::File { name, status }, Some(DfsError::PathIsFile)),
        Node::Directory { name, mut nodes } => {
            let ghost e = nodes@;
            if i == parts.len() - 1 {
                proof {
                    assert(parents =~= Seq::<Seq<char>>::empty());
                    assert(full[0] == parts@[i as int]@);
                }
                match find_child(&nodes, parts[i].as_str()) {
                    Some(k) => {
                        let out = Node::Directory { name, nodes };
                        proof {
                            assert(out == orig);
                            lemma_find_key(e, full[0]);
                            assert(full.drop_first() =~= Seq::<Seq<char>>::empty());
                            assert(orig.lookup(full) == e[k as int].1.lookup(full.drop_first()));
                            assert(orig.lookup(full) is Some);
                            assert forall|q: Seq<Seq<char>>| #[trigger] out.lookup(q)
                                == if is_prefix_of(q, parents) {
                                Some(NodeKind::Dir)
                            } else if q == full {
                                if orig.lookup(full) is Some {
                                    orig.lookup(full)
                                } else {
                                    Some(NodeKind::File(Status::Active))
                                }
                            } else {
                                orig.lookup(q)
                            } by {
                                lemma_prefix_facts(q, parents);
                            }
                        }
                        (out, None)
                    },
                    None => {
                        let key = parts[i].clone();
                        let file = Node::File { name: parts[i].clone(), status: Status::Active };
                        nodes.push((key, file));
                        let out = Node::Directory { name, nodes };
                        proof {
                            assert(out.entries() == e.push((key, file)));
                            lemma_lookup_push(orig, out, key, file);
                            assert(out.wf()) by {
                                lemma_find_key(e, key@);
                                assert(forall|j: int|
                                    0 <= j < e.len() ==> out.entries()[j] == #[trigger] e[j]);
                                assert(out.entries()[e.len() as int] == (key, file));
                                assert(file.wf());
                                assert(file.spec_name() == key@);
                            }
                            assert(full[0] == key@);
                            assert forall|q: Seq<Seq<char>>| #[trigger] out.lookup(q)
                                == if is_prefix_of(q, parents) {
                                Some(NodeKind::Dir)
                            } else if q == full {
                                if orig.lookup(full) is Some {
                                    orig.lookup(full)
                                } else {
                                    Some(NodeKind::File(Status::Active))
                                }
                            } else {
                                orig.lookup(q)
                            } by {
                                lemma_prefix_facts(q, parents);
                                if q.len() > 0 && q[0] == key@ {
                                    let qd = q.drop_first();
                                    lemma_prefix_step(q, full);
                                    assert(full.drop_first() =~= Seq::<Seq<char>>::empty());
                                    if qd.len() == 0 {
                                        assert(qd =~= full.drop_first());
                                        assert(q == full);
                                        assert(file.lookup(qd) == Some(NodeKind::File(Status::Active)));
                                    } else {
                                        assert(q != full);
                                        assert(file.lookup(qd) == None::<NodeKind>);
                                    }
                                }
                            }
                        }
                        (out, None)
                    },
                }
            } else {
                let ghost parentsd = seq_views(parts@).subrange(i + 1, parts@.len() - 1);
                let ghost fulld = seq_views(parts@).subrange(i + 1, parts@.len() as int);
                proof {
                    assert(parents[0] == parts@[i as int]@ && full[0] == parts@[i as int]@);
                    assert(parents.drop_first() =~= parentsd);
                    assert(full.drop_first() =~= fulld);
                }
                match find_child(&nodes, parts[i].as_str()) {
                    Some(k) => {
                        let (key, child) = nodes.remove(k);
                        let (child2, err) = create_at(child, parts, i + 1);
                        nodes.insert(k, (key, child2));
                        let out = Node::Directory { name, nodes };
                        proof {
                            assert(out.entries() =~= e.update(k as int, (e[k as int].0, child2)));
                            lemma_lookup_update(orig, out, k as int, child2);
                            assert(out.wf()) by {
                                assert(forall|j: int|
                                    0 <= j < e.len() && j != k ==> out.entries()[j]
                                        == #[trigger] e[j]);
                                assert(out.entries()[k as int].1 == child2);
                                assert(child2.spec_name() == e[k as int].0@);
                            }
                            assert(orig.mkdir_check(parents) == child.mkdir_check(parentsd));
                            assert(e[k as int].0@ == parents[0]) by {
                                lemma_find_key(e, parents[0]);
                            }
                            if err is None {
                                assert(out.lookup(full) == child2.lookup(fulld));
                                assert(orig.lookup(full) == child.lookup(fulld));
                                assert forall|q: Seq<Seq<char>>| #[trigger] out.lookup(q)
                                    == if is_prefix_of(q, parents) {
                                    Some(NodeKind::Dir)
                                } else if q == full {
                                    if orig.lookup(full) is Some {
                                        orig.lookup(full)
                                    } else {
                                        Some(NodeKind::File(Status::Active))
                                    }
                                } else {
                                    orig.lookup(q)
                                } by {
                                    lemma_prefix_facts(q, parents);
                                    if q.len() == 0 {
                                    } else if q[0] == parents[0] {
                                        let qd = q.drop_first();
                                        lemma_prefix_step(q, parents);
                                        lemma_prefix_step(q, full);
                                    } else {
                                        assert(q != full);
                                    }
                                }
                            } else {
                                assert(forall|q: Seq<Seq<char>>| #[trigger] out.lookup(q)
                                    == orig.lookup(q));
                            }
                        }
                        (out, err)
                    },
                    None => {
                        let fresh = Node::Directory { name: parts[i].clone(), nodes: Vec::new() };
                        let (child2, err) = create_at(fresh, parts, i + 1);
                        proof {
                            assert(fresh.mkdir_check(parentsd) is None);
                            assert(err is None);
                        }
                        let key = parts[i].clone();
                        nodes.push((key, child2));
                        let out = Node::Directory { name, nodes };
                        proof {
                            assert(out.entries() == e.push((key, child2)));
                            lemma_lookup_push(orig, out, key, child2);
                            assert(out.wf()) by {
                                lemma_find_key(e, key@);
                                assert(forall|j: int|
                                    0 <= j < e.len() ==> out.entries()[j] == #[trigger] e[j]);
                                assert(out.entries()[e.len() as int] == (key, child2));
                            }
                            assert(orig.mkdir_check(parents) is None);
                            assert(out.lookup(full) == child2.lookup(fulld));
                            assert(fresh.lookup(fulld) == None::<NodeKind>);
                            assert(orig.lookup(full) == None::<NodeKind>);
                            assert forall|q: Seq<Seq<char>>| #[trigger] out.lookup(q)
                                == if is_prefix_of(q, parents) {
                                Some(NodeKind::Dir)
                            } else if q == full {
                                if orig.lookup(full) is Some {
                                    orig.lookup(full)
                                } else {
                                    Some(NodeKind::File(Status::Active))
                                }
                            } else {
                                orig.lookup(q)
                            } by {
                                lemma_prefix_facts(q, parents);
                                if q.len() == 0 {
                                } else if q[0] == parents[0] {
                                    let qd = q.drop_first();
                                    lemma_prefix_step(q, parents);
                                    lemma_prefix_step(q, full);
                                    if !is_prefix_of(qd, parentsd) && qd != fulld {
                                        assert(qd.len() > 0) by {
                                            if qd.len() == 0 {
                                                assert(qd =~= parentsd.subrange(0, 0));
                                            }
                                        }
                                        assert(child2.lookup(qd) == fresh.lookup(qd));
                                        assert(fresh.lookup(qd) == None::<NodeKind>);
                                    }
                                } else {
                                    assert(q != full);
                                }
                            }
                        }
                        (out, err)
                    },
                }
            }
        },
    }
}

/// Marks the file named by `parts[i..]` under `node` as deleted. On error
/// the tree is unchanged.
fn delete_at(node: Node, parts: &Vec<String>, i: usize) -> (res: (Node, Option<DfsError>))
    requires
        node.wf(),
        i < parts@.len(),
    ensures
        res.0.wf(),
        res.0.spec_name() == node.spec_name(),
        res.0.kind() == node.kind(),
        res.1 == node.delete_check(seq_views(parts@).subrange(i as int, parts@.len() as int)),
        match res.1 {
            None => forall|q: Seq<Seq<char>>|
                #[trigger] res.0.lookup(q) == if q == seq_views(parts@).subrange(
                    i as int,
                    parts@.len() as int,
                ) {
                    Some(NodeKind::File(Status::Deleted))
                } else {
                    node.lookup(q)
                },
            Some(_) => forall|q: Seq<Seq<char>>| #[trigger] res.0.lookup(q) == node.lookup(q),
        },
    decreases parts@.len() - i,
{
    let ghost orig = node;
    let ghost full = seq_views(parts@).subrange(i as int, parts@.len() as int);
    match node {
        Node::File { name, status } => (Node::File { name, status }, Some(DfsError::PathIsFile)),
        Node::Directory { name, mut nodes } => {
            let ghost e = nodes@;
            proof {
                assert(full[0] == parts@[i as int]@);
            }
            match find_child(&nodes, parts[i].as_str()) {
                None => {
                    let out = Node::Directory { name, nodes };
                    proof {
                        assert(out == orig);
                    }
                    (out, Some(DfsError::NotFound))
                },
                Some(k) => {
                    proof {
                        assert(e[k as int].0@ == full[0]) by {
                            lemma_find_key(e, full[0]);
                        }
                    }
                    if i == parts.len() - 1 {
                        let child_is_dir = match &nodes[k].1 {
                            Node::Directory { .. } => true,
                            Node::File { .. } => false,
                        };
                        if child_is_dir {
                            let out = Node::Directory { name, nodes };
                            proof {
                                assert(out == orig);
                            }
                            (out, Some(DfsError::IsDirectory))
                        } else {
                            let (key, child) = nodes.remove(k);
                            let deleted = match child {
                                Node::File { name: fname, status: _ } => Node::File {
                                    name: fname,
                                    status: Status::Deleted,
                                },
                                other => other,
                            };
                            nodes.insert(k, (key, deleted));
                            let out = Node::Directory { name, nodes };
                            proof {
                                assert(e[k as int].1 == child && e[k as int].0 == key);
                                assert(deleted.wf());
                                assert(deleted.spec_name() == e[k as int].0@);
                                assert(out.entries() =~= e.update(
                                    k as int,
                                    (e[k as int].0, deleted),
                                ));
                                lemma_lookup_update(orig, out, k as int, deleted);
                                assert(out.wf()) by {
                                    assert(forall|j: int|
                                        0 <= j < e.len() && j != k ==> out.entries()[j]
                                            == #[trigger] e[j]);
                                    assert(out.entries()[k as int].1 == deleted);
                                }
                                assert(full.drop_first() =~= Seq::<Seq<char>>::empty());
                                assert forall|q: Seq<Seq<char>>| #[trigger] out.lookup(q)
                                    == if q == full {
                                    Some(NodeKind::File(Status::Deleted))
                                } else {
                                    orig.lookup(q)
                                } by {
                                    if q.len() == 0 {
                                        assert(q != full);
                                    } else if q[0] == full[0] {
                                        let qd = q.drop_first();
                                        lemma_prefix_step(q, full);
                                        if qd.len() == 0 {
                                            assert(qd =~= full.drop_first());
                                            assert(q == full);
                                        } else {
                                            assert(q != full);
                                            assert(deleted.lookup(qd) == None::<NodeKind>);
                                            assert(e[k as int].1.lookup(qd) == None::<NodeKind>);
                                        }
                                    } else {
                                        assert(q != full);
                                    }
                                }
                            }
                            (out, None)
                        }
                    } else {
                        let ghost fulld = seq_views(parts@).subrange(i + 1, parts@.len() as int);
                        proof {
                            assert(full.drop_first() =~= fulld);
                        }
                        let (key, child) = nodes.remove(k);
                        let (child2, err) = delete_at(child, parts, i + 1);
                        nodes.insert(k, (key, child2));
                        let out = Node::Directory { name, nodes };
                        proof {
                            assert(out.entries() =~= e.update(k as int, (e[k as int].0, child2)));
                            lemma_lookup_update(orig, out, k as int, child2);
                            assert(out.wf()) by {
                                assert(forall|j: int|
                                    0 <= j < e.len() && j != k ==> out.entries()[j]
                                        == #[trigger] e[j]);
                                assert(out.entries()[k as int].1 == child2);
                                assert(child2.spec_name() == e[k as int].0@);
                            }
                            assert(orig.delete_check(full) == child.delete_check(fulld));
                            if err is None {
                                assert forall|q: Seq<Seq<char>>| #[trigger] out.lookup(q)
                                    == if q == full {
                                    Some(NodeKind::File(Status::Deleted))
                                } else {
                                    orig.lookup(q)
                                } by {
                                    if q.len() == 0 {
                                        assert(q != full);
                                    } else if q[0] == full[0] {
                                        lemma_prefix_step(q, full);
                                    } else {
                                        assert(q != full);
                                    }
                                }
                            } else {
                                assert(forall|q: Seq<Seq<char>>| #[trigger] out.lookup(q)
                                    == orig.lookup(q));
                            }
                        }
                        (out, err)
                    }
                },
            }
        },
    }
}

/// The hierarchical namespace: a tree of directories and files under one
/// root directory.
#[derive(Debug)]
pub struct Namespace {
    pub root: Node,
}

impl Namespace {
    /// Well-formed: the root is a well-formed directory.
    pub open spec fn wf(self) -> bool {
        self.root.wf() && self.root.is_dir()
    }

    /// The kind of the node a component sequence names, or `None`.
    pub open spec fn lookup(self, q: Seq<Seq<char>>) -> Option<NodeKind> {
        self.root.lookup(q)
    }

    /// An empty namespace: a bare root directory.
    pub fn new() -> (r: Namespace)
        ensures
            r.wf(),
            forall|q: Seq<Seq<char>>|
                #[trigger] r.lookup(q) == if q.len() == 0 {
                    Some(NodeKind::Dir)
                } else {
                    None::<NodeKind>
                },
    {
        let r = Namespace { root: Node::Directory { name: String::new(), nodes: Vec::new() } };
        proof {
            assert forall|q: Seq<Seq<char>>| #[trigger] r.lookup(q) == if q.len() == 0 {
                Some(NodeKind::Dir)
            } else {
                None::<NodeKind>
            } by {
                if q.len() > 0 {
                    assert(find_key(r.root.entries(), q[0]) == -1);
                }
            }
        }
        r
    }

    /// Creates the directory named by `path`, creating missing intermediate
    /// directories on the way. Idempotent on existing directories; fails
    /// with `PathIsFile` when a component resolves to a file, and with
    /// `InvalidPath` on a malformed path. On error the tree is unchanged.
    pub fn mkdir(&mut self, path: &str) -> (r: Result<(), DfsError>)
        requires
            old(self).wf(),
        ensures
            final(self).wf(),
            match r {
                Ok(_) => {
                    let parts = spec_parse_path(path@).unwrap();
                    &&& spec_parse_path(path@) is Some
                    &&& old(self).root.mkdir_check(parts) is None
                    &&& forall|q: Seq<Seq<char>>|
                        #[trigger] final(self).lookup(q) == if is_prefix_of(q, parts) {
                            Some(NodeKind::Dir)
                        } else {
                            old(self).lookup(q)
                        }
                },
                Err(e) => {
                    &&& forall|q: Seq<Seq<char>>|
                        #[trigger] final(self).lookup(q) == old(self).lookup(q)
                    &&& match spec_parse_path(path@) {
                        None => e == DfsError::InvalidPath,
                        Some(parts) => old(self).root.mkdir_check(parts) == Some(e),
                    }
                },
            },
    {
        let parts = match parse_path(path) {
            Ok(v) => v,
            Err(e) => {
                return Err(e);
            },
        };
        let mut root = Node::Directory { name: String::new(), nodes: Vec::new() };
        core::mem::swap(&mut root, &mut self.root);
        let (root2, err) = mkdir_at(root, &parts, 0);
        self.root = root2;
        proof {
            assert(seq_views(parts@).subrange(0, parts@.len() as int) =~= seq_views(parts@));
        }
        match err {
            None => Ok(()),
            Some(e) => Err(e),
        }
    }
}

impl Node {
    /// The child of this directory holding `name`. The caller must know
    /// that the child exists.
    pub fn get_node(&self, name: &str) -> (r: &Node)
        requires
            find_key(self.entries(), name@) != -1,
        ensures
            *r == self.entries()[find_key(self.entries(), name@)].1,
    {
        match self {
            Node::Directory { nodes, .. } => {
                match find_child(nodes, name) {
                    Some(k) => &nodes[k].1,
                    None => vstd::pervasive::unreached(),
                }
            },
            Node::File { .. } => vstd::pervasive::unreached(),
        }
    }
}

impl Namespace {
    /// Whether `path` names a file whose status is `Active`.
    pub open spec fn spec_is_active(self, path: Seq<char>) -> bool {
        match spec_parse_path(path) {
            None => false,
            Some(parts) => self.lookup(parts) == Some(NodeKind::File(Status::Active)),
        }
    }

    /// What `path` names in this tree: `None` when the path is malformed or
    /// resolves nowhere.
    pub fn kind_of(&self, path: &str) -> (r: Option<NodeKind>)
        requires
            self.wf(),
        ensures
            r == match spec_parse_path(path@) {
                None => None::<NodeKind>,
                Some(parts) => self.lookup(parts),
            },
    {
        let parts = match parse_path(path) {
            Ok(v) => v,
            Err(_) => {
                return None;
            },
        };
        let ghost pv = seq_views(parts@);
        let mut cur: &Node = &self.root;
        let mut j: usize = 0;
        proof {
            assert forall|q: Seq<Seq<char>>| pv.subrange(0, 0) + q == q by {
                assert(pv.subrange(0, 0) + q =~= q);
            }
        }
        while j < parts.len()
            invariant
                self.wf(),
                cur.wf(),
                0 <= j <= parts@.len(),
                pv == seq_views(parts@),
                spec_parse_path(path@) == Some(pv),
                forall|q: Seq<Seq<char>>|
                    #[trigger] cur.lookup(q) == self.root.lookup(pv.subrange(0, j as int) + q),
            decreases parts@.len() - j,
        {
            let ghost rest = pv.subrange(j as int, pv.len() as int);
            proof {
                assert(pv.subrange(0, j as int) + rest =~= pv);
                assert(rest[0] == parts@[j as int]@);
            }
            match cur {
                Node::File { .. } => {
                    proof {
                        assert(cur.lookup(rest) == None::<NodeKind>) by {
                            assert(find_key(cur.entries(), rest[0]) == -1);
                        }
                    }
                    return None;
                },
                Node::Directory { nodes, .. } => {
                    match find_child(nodes, parts[j].as_str()) {
                        None => {
                            proof {
                                assert(cur.lookup(rest) == None::<NodeKind>);
                            }
                            return None;
                        },
                        Some(k) => {
                            proof {
                                let child = nodes@[k as int].1;
                                assert(child.wf() && child.spec_name() == nodes@[k as int].0@);
                                assert forall|q: Seq<Seq<char>>| #[trigger] child.lookup(q)
                                    == self.root.lookup(pv.subrange(0, j + 1) + q) by {
                                    assert((seq![pv[j as int]] + q).drop_first() =~= q);
                                    assert((seq![pv[j as int]] + q)[0] == pv[j as int]);
                                    assert(cur.lookup(seq![pv[j as int]] + q) == child.lookup(q));
                                    assert(pv.subrange(0, j + 1) + q =~= pv.subrange(0, j as int)
                                        + (seq![pv[j as int]] + q));
                                }
                            }
                            cur = &nodes[k].1;
                        },
                    }
                },
            }
            j += 1;
        }
        proof {
            assert(pv.subrange(0, parts@.len() as int) =~= pv);
            assert(pv.subrange(0, parts@.len() as int) + Seq::<Seq<char>>::empty() =~= pv);
            assert(cur.lookup(Seq::<Seq<char>>::empty()) == self.root.lookup(pv));
        }
        match cur {
            Node::Directory { .. } => Some(NodeKind::Dir),
            Node::File { status, .. } => {
                match status {
                    Status::Active => Some(NodeKind::File(Status::Active)),
                    Status::Deleted => Some(NodeKind::File(Status::Deleted)),
                }
            },
        }
    }

    /// Whether `path` names a file with status `Active`. Malformed paths,
    /// missing nodes and directories all answer `false`.
    pub fn is_active(&self, file_path: &str) -> (r: bool)
        requires
            self.wf(),
        ensures
            r == self.spec_is_active(file_path@),
    {
        match self.kind_of(file_path) {
            Some(NodeKind::File(Status::Active)) => true,
            _ => false,
        }
    }

    /// Creates a file at `file_path` with status `Active`, creating the
    /// missing parent directories on the way. A node already standing at
    /// that path, file or directory, is left as it is. Fails with
    /// `InvalidPath` on a malformed path or on `/`, and with `PathIsFile`
    /// when a parent component resolves to a file. On error the tree is
    /// unchanged.
    pub fn create_file(&mut self, file_path: &str) -> (r: Result<(), DfsError>)
        requires
            old(self).wf(),
        ensures
            final(self).wf(),
            match r {
                Ok(_) => {
                    let parts = spec_parse_path(file_path@).unwrap();
                    &&& spec_parse_path(file_path@) is Some
                    &&& parts.len() > 0
                    &&& old(self).root.mkdir_check(parts.drop_last()) is None
                    &&& forall|q: Seq<Seq<char>>|
                        #[trigger] final(self).lookup(q) == if is_prefix_of(q, parts.drop_last()) {
                            Some(NodeKind::Dir)
                        } else if q == parts {
                            if old(self).lookup(parts) is Some {
                                old(self).lookup(parts)
                            } else {
                                Some(NodeKind::File(Status::Active))
                            }
                        } else {
                            old(self).lookup(q)
                        }
                },
                Err(e) => {
                    &&& forall|q: Seq<Seq<char>>|
                        #[trigger] final(self).lookup(q) == old(self).lookup(q)
                    &&& match spec_parse_path(file_path@) {
                        None => e == DfsError::InvalidPath,
                        Some(parts) => if parts.len() == 0 {
                            e == DfsError::InvalidPath
                        } else {
                            old(self).root.mkdir_check(parts.drop_last()) == Some(e)
                        },
                    }
                },
            },
    {
        let parts = match parse_path(file_path) {
            Ok(v) => v,
            Err(e) => {
                return Err(e);
            },
        };
        if parts.len() == 0 {
            return Err(DfsError::InvalidPath);
        }
        let mut root = Node::Directory { name: String::new(), nodes: Vec::new() };
        core::mem::swap(&mut root, &mut self.root);
        let (root2, err) = create_at(root, &parts, 0);
        self.root = root2;
        proof {
            assert(seq_views(parts@).subrange(0, parts@.len() - 1) =~= seq_views(
                parts@,
            ).drop_last());
            assert(seq_views(parts@).subrange(0, parts@.len() as int) =~= seq_views(parts@));
        }
        match err {
            None => Ok(()),
            Some(e) => Err(e),
        }
    }

    /// Marks the file at `file_path` as `Deleted`, hiding it from `ls`.
    /// Fails with `NotFound` when a component is missing, `PathIsFile` when
    /// an inner component is a file, `IsDirectory` when the path names a
    /// directory, and `InvalidPath` on a malformed path. On error the tree
    /// is unchanged.
    pub fn delete_file(&mut self, file_path: &str) -> (r: Result<(), DfsError>)
        requires
            old(self).wf(),
        ensures
            final(self).wf(),
            match r {
                Ok(_) => {
                    let parts = spec_parse_path(file_path@).unwrap();
                    &&& spec_parse_path(file_path@) is Some
                    &&& parts.len() > 0
                    &&& old(self).root.delete_check(parts) is None
                    &&& forall|q: Seq<Seq<char>>|
                        #[trigger] final(self).lookup(q) == if q == parts {
                            Some(NodeKind::File(Status::Deleted))
                        } else {
                            old(self).lookup(q)
                        }
                },
                Err(e) => {
                    &&& forall|q: Seq<Seq<char>>|
                        #[trigger] final(self).lookup(q) == old(self).lookup(q)
                    &&& match spec_parse_path(file_path@) {
                        None => e == DfsError::InvalidPath,
                        Some(parts) => if parts.len() == 0 {
                            e == DfsError::IsDirectory
                        } else {
                            old(self).root.delete_check(parts) == Some(e)
                        },
                    }
                },
            },
    {
        let parts = match parse_path(file_path) {
            Ok(v) => v,
            Err(e) => {
                return Err(e);
            },
        };
        if parts.len() == 0 {
            // `/` names the root directory, which cannot be deleted.
            return Err(DfsError::IsDirectory);
        }
        let mut root = Node::Directory { name: String::new(), nodes: Vec::new() };
        core::mem::swap(&mut root, &mut self.root);
        let (root2, err) = delete_at(root, &parts, 0);
        self.root = root2;
        proof {
            assert(seq_views(parts@).subrange(0, parts@.len() as int) =~= seq_views(parts@));
        }
        match err {
            None => Ok(()),
            Some(e) => Err(e),
        }
    }

    /// Lists the directory at `path`: the names of its child directories
    /// and of its `Active` files, in creation order; `Deleted` files are
    /// hidden. Fails with `NotFound` when a component is missing,
    /// `PathIsFile` when an inner component is a file, `NotDirectory` when
    /// the target is a file, and `InvalidPath` on a malformed path.
    pub fn ls(&self, path: &str) -> (r: Result<Vec<String>, DfsError>)
        requires
            self.wf(),
        ensures
            match r {
                Ok(v) => {
                    let parts = spec_parse_path(path@).unwrap();
                    &&& spec_parse_path(path@) is Some
                    &&& self.root.ls_check(parts) is None
                    &&& forall|a: int, b: int|
                        0 <= a < b < v@.len() ==> (#[trigger] v@[a])@ != (#[trigger] v@[b])@
                    &&& forall|name: Seq<char>|
                        #[trigger] seq_views(v@).contains(name) <==> {
                            let k = self.lookup(parts.push(name));
                            k is Some && listed(k.unwrap())
                        }
                },
                Err(e) => match spec_parse_path(path@) {
                    None => e == DfsError::InvalidPath,
                    Some(parts) => self.root.ls_check(parts) == Some(e),
                },
            },
    {
        let parts = match parse_path(path) {
            Ok(v) => v,
            Err(e) => {
                return Err(e);
            },
        };
        let ghost pv = seq_views(parts@);
        let mut cur: &Node = &self.root;
        let mut j: usize = 0;
        proof {
            assert forall|q: Seq<Seq<char>>| pv.subrange(0, 0) + q == q by {
                assert(pv.subrange(0, 0) + q =~= q);
            }
            assert(pv.subrange(0, pv.len() as int) =~= pv);
        }
        while j < parts.len()
            invariant
                self.wf(),
                cur.wf(),
                0 <= j <= parts@.len(),
                pv == seq_views(parts@),
                spec_parse_path(path@) == Some(pv),
                forall|q: Seq<Seq<char>>|
                    #[trigger] cur.lookup(q) == self.root.lookup(pv.subrange(0, j as int) + q),
                cur.ls_check(pv.subrange(j as int, pv.len() as int)) == self.root.ls_check(pv),
            decreases parts@.len() - j,
        {
            let ghost rest = pv.subrange(j as int, pv.len() as int);
            proof {
                assert(pv.subrange(0, j as int) + rest =~= pv);
                assert(rest[0] == parts@[j as int]@);
                assert(rest.drop_first() =~= pv.subrange(j + 1, pv.len() as int));
            }
            match cur {
                Node::File { .. } => {
                    proof {
                        assert(cur.ls_check(rest) == Some(DfsError::PathIsFile));
                    }
                    return Err(DfsError::PathIsFile);
                },
                Node::Directory { nodes, .. } => {
                    match find_child(nodes, parts[j].as_str()) {
                        None => {
                            proof {
                                assert(cur.ls_check(rest) == Some(DfsError::NotFound));
                            }
                            return Err(DfsError::NotFound);
                        },
                        Some(k) => {
                            proof {
                                let child = nodes@[k as int].1;
                                assert(child.wf());
                                assert(cur.ls_check(rest) == child.ls_check(rest.drop_first()));
                                assert forall|q: Seq<Seq<char>>| #[trigger] child.lookup(q)
                                    == self.root.lookup(pv.subrange(0, j + 1) + q) by {
                                    assert((seq![pv[j as int]] + q).drop_first() =~= q);
                                    assert((seq![pv[j as int]] + q)[0] == pv[j as int]);
                                    assert(cur.lookup(seq![pv[j as int]] + q) == child.lookup(q));
                                    assert(pv.subrange(0, j + 1) + q =~= pv.subrange(0, j as int)
                                        + (seq![pv[j as int]] + q));
                                }
                            }
                            cur = &nodes[k].1;
                        },
                    }
                },
            }
            j += 1;
        }
        let ghost restend = pv.subrange(parts@.len() as int, pv.len() as int);
        proof {
            assert(restend.len() == 0);
            assert(pv.subrange(0, parts@.len() as int) + Seq::<Seq<char>>::empty() =~= pv);
        }
        match cur {
            Node::File { .. } => {
                proof {
                    assert(cur.ls_check(restend) == Some(DfsError::NotDirectory));
                }
                Err(DfsError::NotDirectory)
            },
            Node::Directory { nodes, .. } => {
                let n = nodes.len();
                let mut out: Vec<String> = Vec::new();
                let mut x: usize = 0;
                proof {
                    assert(nodes@.subrange(0, 0) =~= Seq::<(String, Node)>::empty());
                    assert(seq_views(out@) =~= ls_of(nodes@.subrange(0, 0)));
                }
                while x < n
                    invariant
                        n == nodes@.len(),
                        0 <= x <= n,
                        seq_views(out@) == ls_of(nodes@.subrange(0, x as int)),
                    decreases n - x,
                {
                    let ghost outpre = out@;
                    let keep = match &nodes[x].1 {
                        Node::Directory { .. } => true,
                        Node::File { status: Status::Active, .. } => true,
                        Node::File { status: Status::Deleted, .. } => false,
                    };
                    if keep {
                        out.push(nodes[x].0.clone());
                    }
                    proof {
                        assert(nodes@.subrange(0, x + 1).drop_last() =~= nodes@.subrange(
                            0,
                            x as int,
                        ));
                        assert(nodes@.subrange(0, x + 1).last() == nodes@[x as int]);
                        if keep {
                            assert(seq_views(out@) =~= ls_of(nodes@.subrange(0, x as int)).push(
                                nodes@[x as int].0@,
                            ));
                        }
                    }
                    x += 1;
                }
                proof {
                    assert(nodes@.subrange(0, n as int) =~= nodes@);
                    lemma_ls_of_no_dup(nodes@);
                    assert forall|a: int, b: int| 0 <= a < b < out@.len() implies (
                    #[trigger] out@[a])@ != (#[trigger] out@[b])@ by {
                        assert(seq_views(out@)[a] == out@[a]@ && seq_views(out@)[b] == out@[b]@);
                    }
                    assert forall|name: Seq<char>| #[trigger] seq_views(out@).contains(name) <==> {
                        let k = self.lookup(pv.push(name));
                        k is Some && listed(k.unwrap())
                    } by {
                        lemma_ls_of_contains(nodes@, name);
                        lemma_find_key(nodes@, name);
                        assert(seq![name].drop_first() =~= Seq::<Seq<char>>::empty());
                        assert(cur.lookup(seq![name]) == self.root.lookup(pv.subrange(
                            0,
                            parts@.len() as int,
                        ) + seq![name]));
                        assert(pv.subrange(0, parts@.len() as int) + seq![name] =~= pv.push(name));
                        let fk = find_key(nodes@, name);
                        if fk != -1 {
                            assert(cur.lookup(seq![name]) == nodes@[fk].1.lookup(
                                seq![name].drop_first(),
                            ));
                            assert(nodes@[fk].1.lookup(Seq::<Seq<char>>::empty()) == Some(
                                nodes@[fk].1.kind(),
                            ));
                            assert(cur.lookup(seq![name]) == Some(nodes@[fk].1.kind()));
                            if exists|i: int|
                                0 <= i < nodes@.len() && (#[trigger] nodes@[i].0)@ == name
                                    && listed(nodes@[i].1.kind()) {
                                let i = choose|i: int|
                                    0 <= i < nodes@.len() && (#[trigger] nodes@[i].0)@ == name
                                        && listed(nodes@[i].1.kind());
                                assert(i == fk);
                            }
                        } else {
                            assert(cur.lookup(seq![name]) == None::<NodeKind>);
                        }
                    }
                }
                Ok(out)
            },
        }
    }
}

} // verus!
