//! The master's metadata index.
//!
//! One structure owns the namespace tree, the file-path→chunk-handle
//! index, the chunk-handle→replica-location index, and the chunk-server
//! roster. Clients mutate the namespace and allocate chunks through it;
//! heartbeats from chunk servers refresh the roster and the location
//! index and receive the list of handles to garbage-collect.
//!
//! Each index is a vector of entries with pairwise distinct keys, read
//! through the pointwise functions `fth_*`, `loc_*` and `roster_*`; the
//! contracts are stated against those functions and the namespace's
//! `lookup` model.
//!
//! The index is mutated through exclusive references; a server that
//! handles requests concurrently guards one `Metadata` value with a lock
//! of its own and holds it only across these in-memory operations, never
//! across I/O.

use vstd::prelude::*;

use crate::clock::now_millis;
use crate::errors::DfsError;
use crate::handles::{chunk_handle, parse_u64, spec_chunk_handle, spec_parse_u64};
use crate::namespace::{lemma_mkdir_check_no_file, Namespace, NodeKind, Status};
use crate::paths::{seq_views, spec_parse_path, str_eq};
use vstd::pervasive::VecAdditionalExecFns;

verus! {

/// What the master records of one chunk server.
#[derive(Debug)]
pub struct ChunkServerStatus {
    /// The address the server advertises; the roster's key.
    pub address: String,
    /// Bytes in use on the server, as last reported.
    pub used: u64,
    /// Bytes still available on the server, as last reported.
    pub available: u64,
    /// The chunk handles the server reported last, in string form.
    pub chunk_handles: Vec<String>,
    /// When the last heartbeat arrived, in milliseconds since the epoch.
    pub last_heartbeat: u64,
}

/// The abstract state of a roster entry: what the contracts speak of.
/// The arrival time of the last heartbeat is deliberately left out: it
/// depends on the wall clock and nothing may rely on it.
pub struct ServerView {
    pub used: u64,
    pub available: u64,
    pub handles: Set<Seq<char>>,
}

impl View for ChunkServerStatus {
    type V = ServerView;

    open spec fn view(&self) -> ServerView {
        ServerView {
            used: self.used,
            available: self.available,
            handles: seq_views(self.chunk_handles@).to_set(),
        }
    }
}

impl ChunkServerStatus {
    /// Records a server's report, stamping it with the current time.
    pub fn new(address: String, used: u64, available: u64, chunk_handles: Vec<String>) -> (r:
        ChunkServerStatus)
        ensures
            r.address == address,
            r.used == used,
            r.available == available,
            r.chunk_handles == chunk_handles,
    {
        let last_heartbeat = now_millis();
        ChunkServerStatus { address, used, available, chunk_handles, last_heartbeat }
    }
}

/// What a heartbeat carries: the server's identity, its space accounting,
/// and every chunk handle it holds, in string form.
#[derive(Debug)]
pub struct HeartbeatRequest {
    pub server_address: String,
    pub used: u64,
    pub available: u64,
    pub chunk_handles: Vec<String>,
}

/// What an allocation returns: the chunk's handle and the addresses of
/// the servers proposed to host it. The first address, when any, is the
/// proposed primary. The locations become authoritative only once
/// heartbeats confirm them.
#[derive(Debug)]
pub struct ChunkMetadata {
    pub chunk_handle: u64,
    pub locations: Vec<String>,
}

/// The index of the first file entry keyed by `name`, or `-1`.
pub open spec fn fh_find(s: Seq<(String, Vec<u64>)>, name: Seq<char>) -> int
    decreases s.len(),
{
    if s.len() == 0 {
        -1
    } else if s[0].0@ == name {
        0
    } else {
        let r = fh_find(s.drop_first(), name);
        if r == -1 {
            -1
        } else {
            r + 1
        }
    }
}

/// The index of the first location entry keyed by `name`, or `-1`.
pub open spec fn loc_find(s: Seq<(String, Vec<String>)>, name: Seq<char>) -> int
    decreases s.len(),
{
    if s.len() == 0 {
        -1
    } else if s[0].0@ == name {
        0
    } else {
        let r = loc_find(s.drop_first(), name);
        if r == -1 {
            -1
        } else {
            r + 1
        }
    }
}

/// The index of the first roster entry for `addr`, or `-1`.
pub open spec fn srv_find(s: Seq<ChunkServerStatus>, addr: Seq<char>) -> int
    decreases s.len(),
{
    if s.len() == 0 {
        -1
    } else if s[0].address@ == addr {
        0
    } else {
        let r = srv_find(s.drop_first(), addr);
        if r == -1 {
            -1
        } else {
            r + 1
        }
    }
}

/// What `fh_find` returns: the first index keyed by `name`, or `-1`.
pub proof fn lemma_fh_find(s: Seq<(String, Vec<u64>)>, name: Seq<char>)
    ensures
        fh_find(s, name) == -1 ==> forall|i: int|
            0 <= i < s.len() ==> (#[trigger] s[i].0)@ != name,
        fh_find(s, name) != -1 ==> {
            let k = fh_find(s, name);
            &&& 0 <= k < s.len()
            &&& s[k].0@ == name
            &&& forall|i: int| 0 <= i < k ==> (#[trigger] s[i].0)@ != name
        },
    decreases s.len(),
{
    if s.len() > 0 && s[0].0@ != name {
        let tail = s.drop_first();
        lemma_fh_find(tail, name);
        if fh_find(tail, name) == -1 {
            assert forall|i: int| 0 <= i < s.len() implies (#[trigger] s[i].0)@ != name by {
                if i > 0 {
                    assert(tail[i - 1] == s[i]);
                }
            }
        } else {
            let k = fh_find(tail, name);
            assert(tail[k] == s[k + 1]);
            assert forall|i: int| 0 <= i < k + 1 implies (#[trigger] s[i].0)@ != name by {
                if i > 0 {
                    assert(tail[i - 1] == s[i]);
                }
            }
        }
    }
}

/// What `loc_find` returns: the first index keyed by `name`, or `-1`.
pub proof fn lemma_loc_find(s: Seq<(String, Vec<String>)>, name: Seq<char>)
    ensures
        loc_find(s, name) == -1 ==> forall|i: int|
            0 <= i < s.len() ==> (#[trigger] s[i].0)@ != name,
        loc_find(s, name) != -1 ==> {
            let k = loc_find(s, name);
            &&& 0 <= k < s.len()
            &&& s[k].0@ == name
            &&& forall|i: int| 0 <= i < k ==> (#[trigger] s[i].0)@ != name
        },
    decreases s.len(),
{
    if s.len() > 0 && s[0].0@ != name {
        let tail = s.drop_first();
        lemma_loc_find(tail, name);
        if loc_find(tail, name) == -1 {
            assert forall|i: int| 0 <= i < s.len() implies (#[trigger] s[i].0)@ != name by {
                if i > 0 {
                    assert(tail[i - 1] == s[i]);
                }
            }
        } else {
            let k = loc_find(tail, name);
            assert(tail[k] == s[k + 1]);
            assert forall|i: int| 0 <= i < k + 1 implies (#[trigger] s[i].0)@ != name by {
                if i > 0 {
                    assert(tail[i - 1] == s[i]);
                }
            }
        }
    }
}

/// What `srv_find` returns: the first index keyed by `addr`, or `-1`.
pub proof fn lemma_srv_find(s: Seq<ChunkServerStatus>, addr: Seq<char>)
    ensures
        srv_find(s, addr) == -1 ==> forall|i: int|
            0 <= i < s.len() ==> (#[trigger] s[i]).address@ != addr,
        srv_find(s, addr) != -1 ==> {
            let k = srv_find(s, addr);
            &&& 0 <= k < s.len()
            &&& s[k].address@ == addr
            &&& forall|i: int| 0 <= i < k ==> (#[trigger] s[i]).address@ != addr
        },
    decreases s.len(),
{
    if s.len() > 0 && s[0].address@ != addr {
        let tail = s.drop_first();
        lemma_srv_find(tail, addr);
        if srv_find(tail, addr) == -1 {
            assert forall|i: int| 0 <= i < s.len() implies (#[trigger] s[i]).address@ != addr by {
                if i > 0 {
                    assert(tail[i - 1] == s[i]);
                }
            }
        } else {
            let k = srv_find(tail, addr);
            assert(tail[k] == s[k + 1]);
            assert forall|i: int| 0 <= i < k + 1 implies (#[trigger] s[i]).address@ != addr by {
                if i > 0 {
                    assert(tail[i - 1] == s[i]);
                }
            }
        }
    }
}

/// `fh_find` reads only the keys, never the handle sets.
pub proof fn lemma_fh_find_same_keys(
    s1: Seq<(String, Vec<u64>)>,
    s2: Seq<(String, Vec<u64>)>,
    name: Seq<char>,
)
    requires
        s1.len() == s2.len(),
        forall|j: int| 0 <= j < s1.len() ==> (#[trigger] s1[j].0)@ == (#[trigger] s2[j].0)@,
    ensures
        fh_find(s1, name) == fh_find(s2, name),
    decreases s1.len(),
{
    if s1.len() > 0 {
        assert(s1[0].0@ == s2[0].0@);
        if s1[0].0@ != name {
            assert(forall|j: int|
                0 <= j < s1.drop_first().len() ==> #[trigger] s1.drop_first()[j] == s1[j + 1]
                    && #[trigger] s2.drop_first()[j] == s2[j + 1]);
            lemma_fh_find_same_keys(s1.drop_first(), s2.drop_first(), name);
        }
    }
}

/// `fh_find` after appending one entry.
pub proof fn lemma_fh_push(s: Seq<(String, Vec<u64>)>, x: (String, Vec<u64>), name: Seq<char>)
    ensures
        fh_find(s.push(x), name) == if fh_find(s, name) != -1 {
            fh_find(s, name)
        } else if x.0@ == name {
            s.len() as int
        } else {
            -1
        },
    decreases s.len(),
{
    let p = s.push(x);
    if s.len() == 0 {
        assert(p[0] == x);
        assert(p.drop_first() =~= Seq::<(String, Vec<u64>)>::empty());
        if x.0@ == name {
            assert(fh_find(p, name) == 0);
        } else {
            assert(fh_find(p.drop_first(), name) == -1);
            assert(fh_find(p, name) == -1);
        }
    } else {
        assert(p[0] == s[0]);
        assert(p.drop_first() =~= s.drop_first().push(x));
        lemma_fh_push(s.drop_first(), x, name);
        lemma_fh_find(s.drop_first(), name);
        assert(fh_find(p, name) == if p[0].0@ == name {
            0
        } else {
            let r = fh_find(p.drop_first(), name);
            if r == -1 {
                -1int
            } else {
                r + 1
            }
        });
    }
}

/// `fh_find` after removing the entry at `k`, under pairwise distinct
/// keys: the removed key is gone, every other entry keeps its place.
pub proof fn lemma_fh_remove(s: Seq<(String, Vec<u64>)>, k: int)
    requires
        forall|i: int, j: int| 0 <= i < j < s.len() ==> (#[trigger] s[i].0)@ != (#[trigger] s[j].0)@,
        0 <= k < s.len(),
    ensures
        fh_find(s.remove(k), s[k].0@) == -1,
        forall|name: Seq<char>|
            name != s[k].0@ ==> {
                &&& ((#[trigger] fh_find(s.remove(k), name)) >= 0 <==> fh_find(s, name) >= 0)
                &&& (fh_find(s.remove(k), name) >= 0 ==> s.remove(k)[fh_find(s.remove(k), name)]
                    == s[fh_find(s, name)])
            },
{
    let t = s.remove(k);
    s.remove_ensures(k);
    lemma_fh_find(t, s[k].0@);
    if fh_find(t, s[k].0@) >= 0 {
        let j = fh_find(t, s[k].0@);
        if j < k {
            assert(t[j] == s[j]);
        } else {
            assert(t[j] == s[j + 1]);
        }
    }
    assert forall|name: Seq<char>| name != s[k].0@ implies {
        &&& ((#[trigger] fh_find(t, name)) >= 0 <==> fh_find(s, name) >= 0)
        &&& (fh_find(t, name) >= 0 ==> t[fh_find(t, name)] == s[fh_find(s, name)])
    } by {
        lemma_fh_find(t, name);
        lemma_fh_find(s, name);
        if fh_find(s, name) >= 0 {
            let m = fh_find(s, name);
            assert(m != k);
            if m < k {
                assert(t[m] == s[m]);
            } else {
                assert(t[m - 1] == s[m]);
            }
            assert(fh_find(t, name) >= 0);
            let mt = fh_find(t, name);
            if mt < k {
                assert(t[mt] == s[mt]);
                assert(mt == m);
            } else {
                assert(t[mt] == s[mt + 1]);
                assert(mt + 1 == m);
            }
        } else {
            if fh_find(t, name) >= 0 {
                let mt = fh_find(t, name);
                if mt < k {
                    assert(t[mt] == s[mt]);
                } else {
                    assert(t[mt] == s[mt + 1]);
                }
            }
        }
    }
}

/// `loc_find` reads only the keys, never the address lists.
pub proof fn lemma_loc_find_same_keys(
    s1: Seq<(String, Vec<String>)>,
    s2: Seq<(String, Vec<String>)>,
    name: Seq<char>,
)
    requires
        s1.len() == s2.len(),
        forall|j: int| 0 <= j < s1.len() ==> (#[trigger] s1[j].0)@ == (#[trigger] s2[j].0)@,
    ensures
        loc_find(s1, name) == loc_find(s2, name),
    decreases s1.len(),
{
    if s1.len() > 0 {
        assert(s1[0].0@ == s2[0].0@);
        if s1[0].0@ != name {
            assert(forall|j: int|
                0 <= j < s1.drop_first().len() ==> #[trigger] s1.drop_first()[j] == s1[j + 1]
                    && #[trigger] s2.drop_first()[j] == s2[j + 1]);
            lemma_loc_find_same_keys(s1.drop_first(), s2.drop_first(), name);
        }
    }
}

/// `loc_find` after appending one entry.
pub proof fn lemma_loc_push(s: Seq<(String, Vec<String>)>, x: (String, Vec<String>), name: Seq<char>)
    ensures
        loc_find(s.push(x), name) == if loc_find(s, name) != -1 {
            loc_find(s, name)
        } else if x.0@ == name {
            s.len() as int
        } else {
            -1
        },
    decreases s.len(),
{
    let p = s.push(x);
    if s.len() == 0 {
        assert(p[0] == x);
        assert(p.drop_first() =~= Seq::<(String, Vec<String>)>::empty());
        if x.0@ == name {
            assert(loc_find(p, name) == 0);
        } else {
            assert(loc_find(p.drop_first(), name) == -1);
            assert(loc_find(p, name) == -1);
        }
    } else {
        assert(p[0] == s[0]);
        assert(p.drop_first() =~= s.drop_first().push(x));
        lemma_loc_push(s.drop_first(), x, name);
        lemma_loc_find(s.drop_first(), name);
        assert(loc_find(p, name) == if p[0].0@ == name {
            0
        } else {
            let r = loc_find(p.drop_first(), name);
            if r == -1 {
                -1int
            } else {
                r + 1
            }
        });
    }
}

/// `srv_find` reads only the addresses, never the rest of an entry.
pub proof fn lemma_srv_find_same_keys(
    s1: Seq<ChunkServerStatus>,
    s2: Seq<ChunkServerStatus>,
    addr: Seq<char>,
)
    requires
        s1.len() == s2.len(),
        forall|j: int| 0 <= j < s1.len() ==> (#[trigger] s1[j]).address@ == (#[trigger] s2[j]).address@,
    ensures
        srv_find(s1, addr) == srv_find(s2, addr),
    decreases s1.len(),
{
    if s1.len() > 0 {
        assert(s1[0].address@ == s2[0].address@);
        if s1[0].address@ != addr {
            assert(forall|j: int|
                0 <= j < s1.drop_first().len() ==> #[trigger] s1.drop_first()[j] == s1[j + 1]
                    && #[trigger] s2.drop_first()[j] == s2[j + 1]);
            lemma_srv_find_same_keys(s1.drop_first(), s2.drop_first(), addr);
        }
    }
}

/// `srv_find` after appending one entry.
pub proof fn lemma_srv_push(s: Seq<ChunkServerStatus>, x: ChunkServerStatus, addr: Seq<char>)
    ensures
        srv_find(s.push(x), addr) == if srv_find(s, addr) != -1 {
            srv_find(s, addr)
        } else if x.address@ == addr {
            s.len() as int
        } else {
            -1
        },
    decreases s.len(),
{
    let p = s.push(x);
    if s.len() == 0 {
        assert(p[0] == x);
        assert(p.drop_first() =~= Seq::<ChunkServerStatus>::empty());
        if x.address@ == addr {
            assert(srv_find(p, addr) == 0);
        } else {
            assert(srv_find(p.drop_first(), addr) == -1);
            assert(srv_find(p, addr) == -1);
        }
    } else {
        assert(p[0] == s[0]);
        assert(p.drop_first() =~= s.drop_first().push(x));
        lemma_srv_push(s.drop_first(), x, addr);
        lemma_srv_find(s.drop_first(), addr);
        assert(srv_find(p, addr) == if p[0].address@ == addr {
            0
        } else {
            let r = srv_find(p.drop_first(), addr);
            if r == -1 {
                -1int
            } else {
                r + 1
            }
        });
    }
}

/// Whether the vector holds the value.
fn contains_u64(v: &Vec<u64>, x: u64) -> (r: bool)
    ensures
        r == v@.contains(x),
{
    let n = v.len();
    let mut i: usize = 0;
    while i < n
        invariant
            n == v@.len(),
            0 <= i <= n,
            forall|j: int| 0 <= j < i ==> v@[j] != x,
        decreases n - i,
    {
        if v[i] == x {
            return true;
        }
        i += 1;
    }
    false
}

/// Whether the vector holds a string with these characters.
fn contains_str(v: &Vec<String>, x: &str) -> (r: bool)
    ensures
        r == seq_views(v@).contains(x@),
{
    let n = v.len();
    let mut i: usize = 0;
    while i < n
        invariant
            n == v@.len(),
            0 <= i <= n,
            forall|j: int| 0 <= j < i ==> (#[trigger] v@[j])@ != x@,
        decreases n - i,
    {
        if str_eq(v[i].as_str(), x) {
            proof {
                assert(seq_views(v@)[i as int] == x@);
            }
            return true;
        }
        i += 1;
    }
    proof {
        if seq_views(v@).contains(x@) {
            let j = choose|j: int| 0 <= j < seq_views(v@).len() && seq_views(v@)[j] == x@;
            assert(v@[j]@ == x@);
        }
    }
    false
}

/// Finds the index of the file entry keyed by `name`.
fn find_fh(entries: &Vec<(String, Vec<u64>)>, name: &str) -> (r: Option<usize>)
    ensures
        match r {
            Some(k) => 0 <= k < entries@.len() && fh_find(entries@, name@) == k,
            None => fh_find(entries@, name@) == -1,
        },
{
    let n = entries.len();
    let mut i: usize = 0;
    while i < n
        invariant
            n == entries@.len(),
            0 <= i <= n,
            forall|j: int| 0 <= j < i ==> (#[trigger] entries@[j].0)@ != name@,
        decreases n - i,
    {
        if str_eq(entries[i].0.as_str(), name) {
            proof {
                lemma_fh_find(entries@, name@);
            }
            return Some(i);
        }
        i += 1;
    }
    proof {
        lemma_fh_find(entries@, name@);
    }
    None
}

/// Finds the index of the location entry keyed by `name`.
fn find_loc(entries: &Vec<(String, Vec<String>)>, name: &str) -> (r: Option<usize>)
    ensures
        match r {
            Some(k) => 0 <= k < entries@.len() && loc_find(entries@, name@) == k,
            None => loc_find(entries@, name@) == -1,
        },
{
    let n = entries.len();
    let mut i: usize = 0;
    while i < n
        invariant
            n == entries@.len(),
            0 <= i <= n,
            forall|j: int| 0 <= j < i ==> (#[trigger] entries@[j].0)@ != name@,
        decreases n - i,
    {
        if str_eq(entries[i].0.as_str(), name) {
            proof {
                lemma_loc_find(entries@, name@);
            }
            return Some(i);
        }
        i += 1;
    }
    proof {
        lemma_loc_find(entries@, name@);
    }
    None
}

/// Finds the index of the roster entry for `addr`.
fn find_srv(servers: &Vec<ChunkServerStatus>, addr: &str) -> (r: Option<usize>)
    ensures
        match r {
            Some(k) => 0 <= k < servers@.len() && srv_find(servers@, addr@) == k,
            None => srv_find(servers@, addr@) == -1,
        },
{
    let n = servers.len();
    let mut i: usize = 0;
    while i < n
        invariant
            n == servers@.len(),
            0 <= i <= n,
            forall|j: int| 0 <= j < i ==> (#[trigger] servers@[j]).address@ != addr@,
        decreases n - i,
    {
        if str_eq(servers[i].address.as_str(), addr) {
            proof {
                lemma_srv_find(servers@, addr@);
            }
            return Some(i);
        }
        i += 1;
    }
    proof {
        lemma_srv_find(servers@, addr@);
    }
    None
}

/// The master's metadata: namespace, chunk indexes and roster.
#[derive(Debug)]
pub struct Metadata {
    /// The directory/file tree.
    pub namespace: Namespace,
    /// FileToHandles: per file path, the handles allocated to it.
    pub file_handles: Vec<(String, Vec<u64>)>,
    /// HandleToLocations: per chunk handle in string form, the addresses
    /// of the servers that reported holding it.
    pub handle_locations: Vec<(String, Vec<String>)>,
    /// The roster of known chunk servers.
    pub chunk_servers: Vec<ChunkServerStatus>,
}

impl Metadata {
    /// Whether the file index holds `path`.
    pub open spec fn fth_has(self, path: Seq<char>) -> bool {
        fh_find(self.file_handles@, path) >= 0
    }

    /// The handles allocated to `path`.
    pub open spec fn fth_at(self, path: Seq<char>) -> Set<u64> {
        self.file_handles@[fh_find(self.file_handles@, path)].1@.to_set()
    }

    /// Whether the location index holds the handle string `h`.
    pub open spec fn loc_has(self, h: Seq<char>) -> bool {
        loc_find(self.handle_locations@, h) >= 0
    }

    /// The addresses that reported holding the handle string `h`.
    pub open spec fn loc_at(self, h: Seq<char>) -> Set<Seq<char>> {
        seq_views(self.handle_locations@[loc_find(self.handle_locations@, h)].1@).to_set()
    }

    /// Whether the roster holds a server with address `addr`.
    pub open spec fn roster_has(self, addr: Seq<char>) -> bool {
        srv_find(self.chunk_servers@, addr) >= 0
    }

    /// The recorded state of the server with address `addr`.
    pub open spec fn roster_at(self, addr: Seq<char>) -> ServerView {
        self.chunk_servers@[srv_find(self.chunk_servers@, addr)]@
    }

    /// Every file path in the chunk index names a file node, active or
    /// deleted, in the namespace.
    pub open spec fn files_indexed_exist(self) -> bool {
        forall|i: int|
            0 <= i < self.file_handles@.len() ==> {
                let p = (#[trigger] self.file_handles@[i]).0@;
                &&& spec_parse_path(p) is Some
                &&& self.namespace.lookup(spec_parse_path(p).unwrap()) matches Some(
                    NodeKind::File(_),
                )
            }
    }

    /// The index invariant: a well-formed namespace, pairwise distinct
    /// keys in each index, and every indexed file present in the tree.
    pub open spec fn inv(self) -> bool {
        &&& self.namespace.wf()
        &&& forall|i: int, j: int|
            0 <= i < j < self.file_handles@.len() ==> (#[trigger] self.file_handles@[i].0)@ != (
            #[trigger] self.file_handles@[j].0)@
        &&& forall|i: int, j: int|
            0 <= i < j < self.handle_locations@.len() ==> (#[trigger] self.handle_locations@[i].0)@
                != (#[trigger] self.handle_locations@[j].0)@
        &&& forall|i: int, j: int|
            0 <= i < j < self.chunk_servers@.len() ==> (#[trigger] self.chunk_servers@[i]).address@
                != (#[trigger] self.chunk_servers@[j]).address@
        &&& self.files_indexed_exist()
    }

    /// An empty metadata index: a bare namespace and no known servers.
    pub fn new() -> (r: Metadata)
        ensures
            r.inv(),
            forall|q: Seq<Seq<char>>|
                #[trigger] r.namespace.lookup(q) == if q.len() == 0 {
                    Some(NodeKind::Dir)
                } else {
                    None::<NodeKind>
                },
            forall|p: Seq<char>| !(#[trigger] r.fth_has(p)),
            forall|h: Seq<char>| !(#[trigger] r.loc_has(h)),
            forall|a: Seq<char>| !(#[trigger] r.roster_has(a)),
    {
        let r = Metadata {
            namespace: Namespace::new(),
            file_handles: Vec::new(),
            handle_locations: Vec::new(),
            chunk_servers: Vec::new(),
        };
        r
    }

    /// Creates the directory named by `path` in the namespace; see
    /// [`Namespace::mkdir`]. The chunk indexes and the roster are
    /// untouched.
    pub fn mkdir(&mut self, path: &str) -> (r: Result<(), DfsError>)
        requires
            old(self).inv(),
        ensures
            final(self).inv(),
            final(self).file_handles == old(self).file_handles,
            final(self).handle_locations == old(self).handle_locations,
            final(self).chunk_servers == old(self).chunk_servers,
            match r {
                Ok(_) => {
                    let parts = spec_parse_path(path@).unwrap();
                    &&& spec_parse_path(path@) is Some
                    &&& old(self).namespace.root.mkdir_check(parts) is None
                    &&& forall|q: Seq<Seq<char>>|
                        #[trigger] final(self).namespace.lookup(q) == if
                        crate::namespace::is_prefix_of(q, parts) {
                            Some(NodeKind::Dir)
                        } else {
                            old(self).namespace.lookup(q)
                        }
                },
                Err(e) => {
                    &&& forall|q: Seq<Seq<char>>|
                        #[trigger] final(self).namespace.lookup(q) == old(self).namespace.lookup(q)
                    &&& match spec_parse_path(path@) {
                        None => e == DfsError::InvalidPath,
                        Some(parts) => old(self).namespace.root.mkdir_check(parts) == Some(e),
                    }
                },
            },
    {
        let r = self.namespace.mkdir(path);
        proof {
            if r is Ok {
                lemma_mkdir_check_no_file(
                    old(self).namespace.root,
                    spec_parse_path(path@).unwrap(),
                );
            }
        }
        r
    }

    /// Lists the directory at `path`; see [`Namespace::ls`]. Nothing
    /// changes.
    pub fn ls(&self, path: &str) -> (r: Result<Vec<String>, DfsError>)
        requires
            self.inv(),
        ensures
            match r {
                Ok(v) => {
                    let parts = spec_parse_path(path@).unwrap();
                    &&& spec_parse_path(path@) is Some
                    &&& self.namespace.root.ls_check(parts) is None
                    &&& forall|a: int, b: int|
                        0 <= a < b < v@.len() ==> (#[trigger] v@[a])@ != (#[trigger] v@[b])@
                    &&& forall|name: Seq<char>|
                        #[trigger] seq_views(v@).contains(name) <==> {
                            let k = self.namespace.lookup(parts.push(name));
                            k is Some && crate::namespace::listed(k.unwrap())
                        }
                },
                Err(e) => match spec_parse_path(path@) {
                    None => e == DfsError::InvalidPath,
                    Some(parts) => self.namespace.root.ls_check(parts) == Some(e),
                },
            },
    {
        self.namespace.ls(path)
    }

    /// Creates a file at `file_path` in the namespace (see
    /// [`Namespace::create_file`]) and, when the path now names a file
    /// that the chunk index does not hold yet, enters it with an empty
    /// handle set. Handles already allocated to an existing file are
    /// kept. The location index and the roster are untouched.
    pub fn create_file(&mut self, file_path: String) -> (r: Result<(), DfsError>)
        requires
            old(self).inv(),
        ensures
            final(self).inv(),
            final(self).handle_locations == old(self).handle_locations,
            final(self).chunk_servers == old(self).chunk_servers,
            match r {
                Ok(_) => {
                    let parts = spec_parse_path(file_path@).unwrap();
                    &&& spec_parse_path(file_path@) is Some
                    &&& parts.len() > 0
                    &&& old(self).namespace.root.mkdir_check(parts.drop_last()) is None
                    &&& forall|q: Seq<Seq<char>>|
                        #[trigger] final(self).namespace.lookup(q) == if
                        crate::namespace::is_prefix_of(q, parts.drop_last()) {
                            Some(NodeKind::Dir)
                        } else if q == parts {
                            if old(self).namespace.lookup(parts) is Some {
                                old(self).namespace.lookup(parts)
                            } else {
                                Some(NodeKind::File(Status::Active))
                            }
                        } else {
                            old(self).namespace.lookup(q)
                        }
                    &&& if final(self).namespace.lookup(parts) matches Some(NodeKind::File(_)) {
                        &&& forall|p: Seq<char>|
                            #[trigger] final(self).fth_has(p) <==> (old(self).fth_has(p) || p
                                == file_path@)
                        &&& forall|p: Seq<char>|
                            #[trigger] old(self).fth_has(p) ==> final(self).fth_at(p) == old(self).fth_at(p)
                        &&& !old(self).fth_has(file_path@) ==> final(self).fth_at(file_path@)
                            == Set::<u64>::empty()
                    } else {
                        &&& forall|p: Seq<char>|
                            #[trigger] final(self).fth_has(p) <==> old(self).fth_has(p)
                        &&& forall|p: Seq<char>|
                            #[trigger] old(self).fth_has(p) ==> final(self).fth_at(p) == old(self).fth_at(p)
                    }
                },
                Err(e) => {
                    &&& final(self).file_handles == old(self).file_handles
                    &&& forall|q: Seq<Seq<char>>|
                        #[trigger] final(self).namespace.lookup(q) == old(self).namespace.lookup(q)
                    &&& match spec_parse_path(file_path@) {
                        None => e == DfsError::InvalidPath,
                        Some(parts) => if parts.len() == 0 {
                            e == DfsError::InvalidPath
                        } else {
                            old(self).namespace.root.mkdir_check(parts.drop_last()) == Some(e)
                        },
                    }
                },
            },
    {
        match self.namespace.create_file(file_path.as_str()) {
            Err(e) => Err(e),
            Ok(_) => {
                let ghost parts = spec_parse_path(file_path@).unwrap();
                proof {
                    lemma_mkdir_check_no_file(old(self).namespace.root, parts.drop_last());
                    // Every indexed file still names a file node: no indexed
                    // path is a prefix of the created parents, since those
                    // all resolved to directories or to nothing.
                    assert forall|i: int| 0 <= i < self.file_handles@.len() implies {
                        let p = (#[trigger] self.file_handles@[i]).0@;
                        &&& spec_parse_path(p) is Some
                        &&& self.namespace.lookup(spec_parse_path(p).unwrap()) matches Some(
                            NodeKind::File(_),
                        )
                    } by {
                        let p = self.file_handles@[i].0@;
                        let pi = spec_parse_path(p).unwrap();
                        assert(old(self).namespace.lookup(pi) matches Some(NodeKind::File(_)));
                        assert(self.namespace.lookup(pi) == self.namespace.lookup(pi));
                    }
                }
                match self.namespace.kind_of(file_path.as_str()) {
                    Some(NodeKind::File(_)) => {
                        let ghost pre = self.file_handles@;
                        match find_fh(&self.file_handles, file_path.as_str()) {
                            Some(_) => {
                                proof {
                                    assert(forall|p: Seq<char>|
                                        #[trigger] final(self).fth_has(p) <==> (old(self).fth_has(p) || p == file_path@));
                                }
                                Ok(())
                            },
                            None => {
                                let fresh: Vec<u64> = Vec::new();
                                self.file_handles.push((file_path, fresh));
                                proof {
                                    let x = self.file_handles@.last();
                                    assert(pre.push(x) =~= self.file_handles@);
                                    assert(x.0@ == file_path@ && x.1@ =~= Seq::<u64>::empty());
                                    assert forall|p: Seq<char>| true implies {
                                        &&& (#[trigger] fh_find(self.file_handles@, p) >= 0 <==> (
                                        fh_find(pre, p) >= 0 || p == file_path@))
                                        &&& (fh_find(pre, p) >= 0 ==> fh_find(
                                            self.file_handles@,
                                            p,
                                        ) == fh_find(pre, p) && self.file_handles@[fh_find(
                                            pre,
                                            p,
                                        )] == pre[fh_find(pre, p)])
                                        &&& (fh_find(pre, p) == -1 && p == file_path@ ==> fh_find(
                                            self.file_handles@,
                                            p,
                                        ) == pre.len() as int)
                                    } by {
                                        lemma_fh_push(pre, x, p);
                                        lemma_fh_find(pre, p);
                                    }
                                    assert(final(self).fth_at(file_path@) =~= Set::<u64>::empty());
                                    // The new entry keeps the indexes distinct
                                    // and names the created file.
                                    lemma_fh_find(pre, file_path@);
                                    assert forall|i: int, j: int|
                                        0 <= i < j < self.file_handles@.len() implies (
                                    #[trigger] self.file_handles@[i].0)@ != (
                                    #[trigger] self.file_handles@[j].0)@ by {
                                        if j < pre.len() {
                                            assert(self.file_handles@[i] == pre[i]
                                                && self.file_handles@[j] == pre[j]);
                                        } else {
                                            assert(self.file_handles@[i] == pre[i]
                                                && self.file_handles@[j] == x);
                                        }
                                    }
                                    assert forall|i: int|
                                        0 <= i < self.file_handles@.len() implies {
                                        let p = (#[trigger] self.file_handles@[i]).0@;
                                        &&& spec_parse_path(p) is Some
                                        &&& self.namespace.lookup(
                                            spec_parse_path(p).unwrap(),
                                        ) matches Some(NodeKind::File(_))
                                    } by {
                                        if i < pre.len() {
                                            assert(self.file_handles@[i] == pre[i]);
                                        } else {
                                            assert(self.file_handles@[i] == x);
                                        }
                                    }
                                }
                                Ok(())
                            },
                        }
                    },
                    _ => Ok(()),
                }
            },
        }
    }

    /// Marks the file at `file_path` as deleted in the namespace (see
    /// [`Namespace::delete_file`]) and drops its entry from the chunk
    /// index; its chunks then count as garbage on the next heartbeat that
    /// reports them. The location index and the roster are untouched.
    pub fn delete_file(&mut self, file_path: String) -> (r: Result<(), DfsError>)
        requires
            old(self).inv(),
        ensures
            final(self).inv(),
            final(self).handle_locations == old(self).handle_locations,
            final(self).chunk_servers == old(self).chunk_servers,
            match r {
                Ok(_) => {
                    let parts = spec_parse_path(file_path@).unwrap();
                    &&& spec_parse_path(file_path@) is Some
                    &&& parts.len() > 0
                    &&& old(self).namespace.root.delete_check(parts) is None
                    &&& forall|q: Seq<Seq<char>>|
                        #[trigger] final(self).namespace.lookup(q) == if q == parts {
                            Some(NodeKind::File(Status::Deleted))
                        } else {
                            old(self).namespace.lookup(q)
                        }
                    &&& forall|p: Seq<char>|
                        #[trigger] final(self).fth_has(p) <==> (old(self).fth_has(p) && p
                            != file_path@)
                    &&& forall|p: Seq<char>|
                        final(self).fth_has(p) ==> #[trigger] final(self).fth_at(p) == old(self).fth_at(p)
                },
                Err(e) => {
                    &&& final(self).file_handles == old(self).file_handles
                    &&& forall|q: Seq<Seq<char>>|
                        #[trigger] final(self).namespace.lookup(q) == old(self).namespace.lookup(q)
                    &&& match spec_parse_path(file_path@) {
                        None => e == DfsError::InvalidPath,
                        Some(parts) => if parts.len() == 0 {
                            e == DfsError::IsDirectory
                        } else {
                            old(self).namespace.root.delete_check(parts) == Some(e)
                        },
                    }
                },
            },
    {
        match self.namespace.delete_file(file_path.as_str()) {
            Err(e) => Err(e),
            Ok(_) => {
                let ghost parts = spec_parse_path(file_path@).unwrap();
                proof {
                    // Every other indexed file keeps naming a file node:
                    // only the deleted path's kind changed, and it changed
                    // to a deleted file.
                    assert forall|i: int| 0 <= i < self.file_handles@.len() implies {
                        let p = (#[trigger] self.file_handles@[i]).0@;
                        &&& spec_parse_path(p) is Some
                        &&& self.namespace.lookup(spec_parse_path(p).unwrap()) matches Some(
                            NodeKind::File(_),
                        )
                    } by {
                        let p = self.file_handles@[i].0@;
                        let pi = spec_parse_path(p).unwrap();
                        assert(old(self).namespace.lookup(pi) matches Some(NodeKind::File(_)));
                    }
                }
                let ghost pre = self.file_handles@;
                match find_fh(&self.file_handles, file_path.as_str()) {
                    Some(k) => {
                        self.file_handles.remove(k);
                        proof {
                            lemma_fh_remove(pre, k as int);
                            pre.remove_ensures(k as int);
                            lemma_fh_find(pre, file_path@);
                            assert(self.file_handles@ =~= pre.remove(k as int));
                            assert forall|i: int, j: int|
                                0 <= i < j < self.file_handles@.len() implies (
                            #[trigger] self.file_handles@[i].0)@ != (
                            #[trigger] self.file_handles@[j].0)@ by {
                                let t = self.file_handles@;
                                assert(t[i] == (if i < k { pre[i] } else { pre[i + 1] }));
                                assert(t[j] == (if j < k { pre[j] } else { pre[j + 1] }));
                            }
                            assert forall|i: int| 0 <= i < self.file_handles@.len() implies {
                                let p = (#[trigger] self.file_handles@[i]).0@;
                                &&& spec_parse_path(p) is Some
                                &&& self.namespace.lookup(spec_parse_path(p).unwrap()) matches Some(
                                    NodeKind::File(_),
                                )
                            } by {
                                let t = self.file_handles@;
                                assert(t[i] == (if i < k { pre[i] } else { pre[i + 1] }));
                            }
                            assert forall|p: Seq<char>| final(self).fth_has(p) implies
                                #[trigger] final(self).fth_at(p) == old(self).fth_at(p) by {
                                assert(p != file_path@);
                            }
                        }
                        Ok(())
                    },
                    None => {
                        proof {
                            lemma_fh_find(pre, file_path@);
                            assert forall|p: Seq<char>|
                                #[trigger] final(self).fth_has(p) <==> (old(self).fth_has(p) && p
                                    != file_path@) by {
                                if p == file_path@ {
                                    assert(fh_find(pre, p) == -1);
                                }
                            }
                        }
                        Ok(())
                    },
                }
            },
        }
    }

    /// Picks the chunk servers that should host a new chunk: up to three
    /// distinct servers, those with the most available space first, and
    /// all of them when three or fewer are known. No server left out has
    /// more available space than any server picked.
    pub fn get_locations_for_chunk(&self) -> (r: Vec<String>)
        requires
            self.inv(),
        ensures
            r@.len() == if self.chunk_servers@.len() < 3 {
                self.chunk_servers@.len() as int
            } else {
                3
            },
            forall|i: int| 0 <= i < r@.len() ==> self.roster_has((#[trigger] r@[i])@),
            forall|i: int, j: int|
                0 <= i < j < r@.len() ==> (#[trigger] r@[i])@ != (#[trigger] r@[j])@,
            forall|i: int, j: int|
                0 <= i < j < r@.len() ==> self.roster_at((#[trigger] r@[i])@).available
                    >= self.roster_at((#[trigger] r@[j])@).available,
            forall|a: Seq<char>|
                (#[trigger] self.roster_has(a)) && r@.len() > 0 && (forall|i: int|
                    0 <= i < r@.len() ==> (#[trigger] r@[i])@ != a) ==> self.roster_at(
                    a,
                ).available <= self.roster_at(r@[r@.len() - 1]@).available,
    {
        broadcast use vstd::seq_lib::lemma_seq_contains_after_push;

        let n = self.chunk_servers.len();
        let rounds: usize = if n < 3 {
            n
        } else {
            3
        };
        let mut taken: Vec<bool> = Vec::new();
        let mut t: usize = 0;
        while t < n
            invariant
                0 <= t <= n,
                taken@.len() == t,
                forall|j: int| 0 <= j < t ==> !(#[trigger] taken@[j]),
            decreases n - t,
        {
            taken.push(false);
            t += 1;
        }
        let mut out: Vec<String> = Vec::new();
        let ghost mut idxs: Seq<int> = Seq::empty();
        let mut round: usize = 0;
        while round < rounds
            invariant
                self.inv(),
                n == self.chunk_servers@.len(),
                rounds == if n < 3 {
                    n as int
                } else {
                    3
                },
                0 <= round <= rounds,
                taken@.len() == n,
                idxs.len() == round,
                out@.len() == round,
                forall|a: int, b: int| 0 <= a < b < round ==> idxs[a] != idxs[b],
                forall|a: int| 0 <= a < round ==> 0 <= #[trigger] idxs[a] < n,
                forall|j: int| 0 <= j < n ==> (#[trigger] taken@[j] <==> idxs.contains(j)),
                forall|a: int|
                    0 <= a < round ==> (#[trigger] out@[a])@ == self.chunk_servers@[idxs[a]].address@,
                forall|a: int, b: int|
                    0 <= a < b < round ==> self.chunk_servers@[#[trigger] idxs[a]].available
                        >= self.chunk_servers@[#[trigger] idxs[b]].available,
                forall|j: int|
                    0 <= j < n && !(#[trigger] taken@[j]) && round > 0
                        ==> self.chunk_servers@[j].available <= self.chunk_servers@[idxs[round
                        - 1]].available,
            decreases rounds - round,
        {
            let mut best: Option<usize> = None;
            let mut j: usize = 0;
            while j < n
                invariant
                    n == self.chunk_servers@.len(),
                    taken@.len() == n,
                    0 <= j <= n,
                    match best {
                        None => forall|m: int| 0 <= m < j ==> #[trigger] taken@[m],
                        Some(b) => 0 <= b < n && !taken@[b as int] && forall|m: int|
                            0 <= m < j && !(#[trigger] taken@[m])
                                ==> self.chunk_servers@[m].available <= self.chunk_servers@[b as int].available,
                    },
                decreases n - j,
            {
                if !taken[j] {
                    best = match best {
                        None => Some(j),
                        Some(b) => {
                            if self.chunk_servers[j].available > self.chunk_servers[b].available {
                                Some(j)
                            } else {
                                Some(b)
                            }
                        },
                    };
                }
                j += 1;
            }
            match best {
                None => {
                    // Impossible: fewer picks were made than servers exist.
                    proof {
                        assert forall|m: int| 0 <= m < n implies idxs.contains(m) by {
                            assert(taken@[m]);
                        }
                        assert(vstd::set_lib::set_int_range(0, n as int) <= idxs.to_set());
                        vstd::set_lib::lemma_int_range(0, n as int);
                        idxs.lemma_cardinality_of_set();
                        vstd::set_lib::lemma_len_subset(
                            vstd::set_lib::set_int_range(0, n as int),
                            idxs.to_set(),
                        );
                        assert(false);
                    }
                    return out;
                },
                Some(b) => {
                    let ghost taken0 = taken@;
                    let ghost idxs0 = idxs;
                    taken.set(b, true);
                    out.push(self.chunk_servers[b].address.clone());
                    proof {
                        assert(!idxs0.contains(b as int));
                        idxs = idxs.push(b as int);
                        assert(idxs[round as int] == b as int);
                        assert(forall|a: int| 0 <= a < round ==> #[trigger] idxs[a] == idxs0[a]);
                        assert forall|j: int| 0 <= j < n implies ((#[trigger] taken@[j])
                            <==> idxs.contains(j)) by {
                            broadcast use vstd::seq_lib::lemma_seq_contains_after_push;

                            if j != b {
                                assert(taken@[j] == taken0[j]);
                            }
                        }
                    }
                },
            }
            round += 1;
        }
        proof {
            assert forall|i: int| 0 <= i < out@.len() implies self.roster_has(
                (#[trigger] out@[i])@,
            ) by {
                lemma_srv_find(self.chunk_servers@, out@[i]@);
                if srv_find(self.chunk_servers@, out@[i]@) == -1 {
                    assert(self.chunk_servers@[idxs[i]].address@ != out@[i]@);
                }
            }
            assert forall|i: int| 0 <= i < out@.len() implies srv_find(
                self.chunk_servers@,
                out@[i]@,
            ) == idxs[i] by {
                lemma_srv_find(self.chunk_servers@, out@[i]@);
                let f = srv_find(self.chunk_servers@, out@[i]@);
                if f == -1 {
                    assert(self.chunk_servers@[idxs[i]].address@ != out@[i]@);
                }
                if f != idxs[i] {
                    assert(self.chunk_servers@[f].address@ == self.chunk_servers@[idxs[i]].address@);
                }
            }
            assert forall|i: int, j: int| 0 <= i < j < out@.len() implies (#[trigger] out@[i])@
                != (#[trigger] out@[j])@ by {
                if out@[i]@ == out@[j]@ {
                    assert(self.chunk_servers@[idxs[i]].address@
                        == self.chunk_servers@[idxs[j]].address@);
                    assert(idxs[i] != idxs[j]);
                }
            }
            assert forall|a: Seq<char>|
                (#[trigger] self.roster_has(a)) && out@.len() > 0 && (forall|i: int|
                    0 <= i < out@.len() ==> (#[trigger] out@[i])@ != a) implies self.roster_at(
                a,
            ).available <= self.roster_at(out@[out@.len() - 1]@).available by {
                lemma_srv_find(self.chunk_servers@, a);
                let m = srv_find(self.chunk_servers@, a);
                assert(self.chunk_servers@[m].address@ == a);
                assert(!idxs.contains(m)) by {
                    if idxs.contains(m) {
                        let i = choose|i: int| 0 <= i < idxs.len() && idxs[i] == m;
                        assert(out@[i]@ == a);
                    }
                }
                assert(!taken@[m]);
            }
        }
        out
    }

    /// Allocates the chunk `(file_path, chunk_id)`: computes its handle,
    /// enters the handle into the file's set — a retry with the same
    /// arguments yields the same handle and leaves the set as it is —
    /// and proposes the servers that should host the chunk, chosen as
    /// [`Metadata::get_locations_for_chunk`] chooses them. Fails with
    /// `FileNotFound` when the chunk index does not hold the file; the
    /// index is then unchanged.
    pub fn allocate_chunk(&mut self, file_path: &str, chunk_id: u64) -> (r: Result<
        ChunkMetadata,
        DfsError,
    >)
        requires
            old(self).inv(),
        ensures
            final(self).inv(),
            final(self).namespace == old(self).namespace,
            final(self).handle_locations == old(self).handle_locations,
            final(self).chunk_servers == old(self).chunk_servers,
            match r {
                Ok(cm) => {
                    &&& old(self).fth_has(file_path@)
                    &&& cm.chunk_handle == spec_chunk_handle(file_path@, chunk_id)
                    &&& forall|p: Seq<char>|
                        #[trigger] final(self).fth_has(p) <==> old(self).fth_has(p)
                    &&& final(self).fth_at(file_path@) == old(self).fth_at(file_path@).insert(
                        spec_chunk_handle(file_path@, chunk_id),
                    )
                    &&& forall|p: Seq<char>|
                        old(self).fth_has(p) && p != file_path@ ==> #[trigger] final(self).fth_at(p)
                            == old(self).fth_at(p)
                    &&& cm.locations@.len() == if old(self).chunk_servers@.len() < 3 {
                        old(self).chunk_servers@.len() as int
                    } else {
                        3
                    }
                    &&& forall|i: int|
                        0 <= i < cm.locations@.len() ==> final(self).roster_has(
                            (#[trigger] cm.locations@[i])@,
                        )
                    &&& forall|i: int, j: int|
                        0 <= i < j < cm.locations@.len() ==> (#[trigger] cm.locations@[i])@ != (
                        #[trigger] cm.locations@[j])@
                    &&& forall|i: int, j: int|
                        0 <= i < j < cm.locations@.len() ==> final(self).roster_at(
                            (#[trigger] cm.locations@[i])@,
                        ).available >= final(self).roster_at((#[trigger] cm.locations@[j])@).available
                    &&& forall|a: Seq<char>|
                        (#[trigger] final(self).roster_has(a)) && cm.locations@.len() > 0 && (
                        forall|i: int|
                            0 <= i < cm.locations@.len() ==> (#[trigger] cm.locations@[i])@ != a)
                            ==> final(self).roster_at(a).available <= final(self).roster_at(
                            cm.locations@[cm.locations@.len() - 1]@,
                        ).available
                },
                Err(e) => {
                    &&& e == DfsError::FileNotFound
                    &&& !old(self).fth_has(file_path@)
                    &&& final(self).file_handles == old(self).file_handles
                },
            },
    {
        broadcast use vstd::seq_lib::lemma_seq_contains_after_push;

        let handle = chunk_handle(file_path, chunk_id);
        match find_fh(&self.file_handles, file_path) {
            None => Err(DfsError::FileNotFound),
            Some(k) => {
                let ghost pre = self.file_handles@;
                let (key, mut handle_set) = self.file_handles.remove(k);
                proof {
                    assert(pre[k as int].0 == key && pre[k as int].1 == handle_set);
                }
                let ghost hs0 = handle_set@;
                let m = handle_set.len();
                let mut present = false;
                let mut t: usize = 0;
                while t < m
                    invariant
                        m == handle_set@.len(),
                        handle_set@ == hs0,
                        0 <= t <= m,
                        present <==> exists|j: int| 0 <= j < t && hs0[j] == handle,
                    decreases m - t,
                {
                    if handle_set[t] == handle {
                        present = true;
                    }
                    t += 1;
                }
                if !present {
                    handle_set.push(handle);
                }
                proof {
                    assert(handle_set@.to_set() =~= hs0.to_set().insert(handle)) by {
                        if present {
                            assert(hs0.contains(handle));
                        }
                    }
                }
                self.file_handles.insert(k, (key, handle_set));
                proof {
                    assert(self.file_handles@ =~= pre.update(
                        k as int,
                        (pre[k as int].0, handle_set),
                    ));
                    assert(forall|j: int|
                        0 <= j < pre.len() ==> (#[trigger] self.file_handles@[j].0)@ == (
                        #[trigger] pre[j].0)@);
                    assert forall|p: Seq<char>| true implies fh_find(self.file_handles@, p)
                        == #[trigger] fh_find(pre, p) by {
                        lemma_fh_find_same_keys(self.file_handles@, pre, p);
                    }
                    lemma_fh_find(pre, file_path@);
                    assert(pre[k as int].0@ == file_path@);
                    assert forall|p: Seq<char>|
                        old(self).fth_has(p) && p != file_path@ implies #[trigger] self.fth_at(p)
                            == old(self).fth_at(p) by {
                        lemma_fh_find(pre, p);
                        assert(fh_find(pre, p) != k);
                    }
                    assert(self.fth_at(file_path@) == old(self).fth_at(file_path@).insert(handle));
                    assert forall|i: int| 0 <= i < self.file_handles@.len() implies {
                        let p = (#[trigger] self.file_handles@[i]).0@;
                        &&& spec_parse_path(p) is Some
                        &&& self.namespace.lookup(spec_parse_path(p).unwrap()) matches Some(
                            NodeKind::File(_),
                        )
                    } by {
                        assert(self.file_handles@[i].0@ == pre[i].0@);
                        assert(old(self).file_handles@[i] == pre[i]);
                    }
                }
                let locations = self.get_locations_for_chunk();
                Ok(ChunkMetadata { chunk_handle: handle, locations })
            },
        }
    }

    /// Whether some indexed file holds the chunk the handle string names.
    pub open spec fn handle_known(self, h: Seq<char>) -> bool {
        match spec_parse_u64(h) {
            None => false,
            Some(v) => exists|i: int|
                0 <= i < self.file_handles@.len() && (#[trigger] self.file_handles@[i]).1@.contains(
                    v,
                ),
        }
    }

    /// Whether some indexed file holds the chunk the handle string names
    /// and is active in the namespace. A handle that fails this test is
    /// garbage: its file was deleted, or it was never allocated here.
    pub open spec fn handle_active(self, h: Seq<char>) -> bool {
        match spec_parse_u64(h) {
            None => false,
            Some(v) => exists|i: int|
                0 <= i < self.file_handles@.len() && (#[trigger] self.file_handles@[i]).1@.contains(
                    v,
                ) && self.namespace.spec_is_active(self.file_handles@[i].0@),
        }
    }

    /// Decides `handle_active` for one reported handle string.
    fn check_handle_active(&self, h: &str) -> (r: bool)
        requires
            self.inv(),
        ensures
            r == self.handle_active(h@),
    {
        match parse_u64(h) {
            None => false,
            Some(v) => {
                let n = self.file_handles.len();
                let mut i: usize = 0;
                while i < n
                    invariant
                        self.inv(),
                        n == self.file_handles@.len(),
                        0 <= i <= n,
                        spec_parse_u64(h@) == Some(v),
                        forall|j: int|
                            0 <= j < i ==> !((#[trigger] self.file_handles@[j]).1@.contains(v)
                                && self.namespace.spec_is_active(self.file_handles@[j].0@)),
                    decreases n - i,
                {
                    if contains_u64(&self.file_handles[i].1, v) {
                        if self.namespace.is_active(self.file_handles[i].0.as_str()) {
                            proof {
                                assert((#[trigger] self.file_handles@[i as int]).1@.contains(v)
                                    && self.namespace.spec_is_active(
                                    self.file_handles@[i as int].0@,
                                ));
                            }
                            return true;
                        }
                    }
                    i += 1;
                }
                false
            },
        }
    }

    /// The garbage among the reported handles: those that no active file
    /// holds, each once, in first-report order. A reply carrying them
    /// tells the server to delete those chunks.
    fn get_outdated_chunks(&self, handles: &Vec<String>) -> (r: Vec<String>)
        requires
            self.inv(),
        ensures
            forall|a: int, b: int| 0 <= a < b < r@.len() ==> (#[trigger] r@[a])@ != (#[trigger] r@[b])@,
            forall|h: Seq<char>|
                #[trigger] seq_views(r@).contains(h) <==> (seq_views(handles@).contains(h)
                    && !self.handle_active(h)),
    {
        broadcast use vstd::seq_lib::lemma_seq_contains_after_push;

        let n = handles.len();
        let ghost hseq = seq_views(handles@);
        let mut out: Vec<String> = Vec::new();
        let mut i: usize = 0;
        proof {
            assert(hseq.subrange(0, 0) =~= Seq::<Seq<char>>::empty());
        }
        while i < n
            invariant
                self.inv(),
                n == handles@.len(),
                hseq == seq_views(handles@),
                0 <= i <= n,
                forall|a: int, b: int|
                    0 <= a < b < out@.len() ==> (#[trigger] out@[a])@ != (#[trigger] out@[b])@,
                forall|h: Seq<char>|
                    #[trigger] seq_views(out@).contains(h) <==> (hseq.subrange(0, i as int).contains(
                        h,
                    ) && !self.handle_active(h)),
            decreases n - i,
        {
            let ghost prefix = hseq.subrange(0, i as int);
            let mut dup = false;
            let mut j: usize = 0;
            while j < i
                invariant
                    n == handles@.len(),
                    hseq == seq_views(handles@),
                    0 <= j <= i < n,
                    dup <==> exists|m: int| 0 <= m < j && hseq[m] == hseq[i as int],
                decreases i - j,
            {
                if str_eq(handles[j].as_str(), handles[i].as_str()) {
                    proof {
                        assert(hseq[j as int] == hseq[i as int]);
                    }
                    dup = true;
                }
                j += 1;
            }
            let ghost outpre = out@;
            proof {
                if dup {
                    let m = choose|m: int| 0 <= m < i && hseq[m] == hseq[i as int];
                    assert(prefix[m] == hseq[i as int]);
                    assert(prefix.contains(hseq[i as int]));
                } else {
                    if prefix.contains(hseq[i as int]) {
                        let m = choose|m: int|
                            0 <= m < prefix.len() && prefix[m] == hseq[i as int];
                        assert(hseq[m] == hseq[i as int]);
                    }
                    assert(!prefix.contains(hseq[i as int]));
                    assert(!seq_views(outpre).contains(hseq[i as int]));
                }
            }
            if !dup {
                if !self.check_handle_active(handles[i].as_str()) {
                    out.push(handles[i].clone());
                    proof {
                        assert(out@.last()@ == hseq[i as int]);
                        assert(out@.drop_last() =~= outpre);
                        assert(seq_views(out@) =~= seq_views(outpre).push(hseq[i as int]));
                        assert forall|a: int| 0 <= a < outpre.len() implies (#[trigger] outpre[a])@
                            != hseq[i as int] by {
                            assert(seq_views(outpre)[a] == outpre[a]@);
                        }
                        assert(forall|a: int|
                            0 <= a < outpre.len() ==> #[trigger] out@[a] == outpre[a]);
                    }
                }
            }
            proof {
                assert(hseq.subrange(0, i + 1) =~= prefix.push(hseq[i as int]));
                assert forall|h: Seq<char>| #[trigger] seq_views(out@).contains(h) <==> (
                hseq.subrange(0, i + 1).contains(h) && !self.handle_active(h)) by {
                    assert(seq_views(out@).contains(h) <==> (seq_views(outpre).contains(h) || (
                    out@.len() > outpre.len() && h == hseq[i as int]))) by {
                        assert(forall|a: int|
                            0 <= a < outpre.len() ==> #[trigger] out@[a] == outpre[a]);
                        if seq_views(out@).contains(h) {
                            let m = choose|m: int|
                                0 <= m < seq_views(out@).len() && seq_views(out@)[m] == h;
                            if m < outpre.len() {
                                assert(seq_views(outpre)[m] == outpre[m]@);
                                assert(seq_views(outpre).contains(h));
                            } else {
                                assert(out@[m]@ == hseq[i as int]);
                            }
                        }
                        if seq_views(outpre).contains(h) {
                            let m = choose|m: int|
                                0 <= m < seq_views(outpre).len() && seq_views(outpre)[m] == h;
                            assert(out@[m] == outpre[m]);
                            assert(seq_views(out@)[m] == h);
                        }
                        if out@.len() > outpre.len() && h == hseq[i as int] {
                            assert(seq_views(out@)[out@.len() - 1] == out@.last()@);
                        }
                    }
                    let ext = hseq.subrange(0, i + 1);
                    assert(ext.contains(h) <==> (prefix.contains(h) || h == hseq[i as int])) by {
                        if ext.contains(h) {
                            let m = choose|m: int| 0 <= m < ext.len() && ext[m] == h;
                            if m < prefix.len() {
                                assert(prefix[m] == h);
                            }
                        }
                        if prefix.contains(h) {
                            let m = choose|m: int| 0 <= m < prefix.len() && prefix[m] == h;
                            assert(ext[m] == h);
                        }
                        if h == hseq[i as int] {
                            assert(ext[i as int] == h);
                        }
                    }
                }
            }
            i += 1;
        }
        proof {
            assert(hseq.subrange(0, n as int) =~= hseq);
        }
        out
    }

    /// Applies one heartbeat. The server is entered into the roster — a
    /// first heartbeat registers it — with its reported space accounting
    /// and handle set; every reported handle's location set gains the
    /// server's address, with a location entry created where none stood;
    /// and the reply lists the garbage among the reported handles: those
    /// that no active file holds, each once, for the server to delete.
    /// The namespace and the file index are untouched.
    pub fn heartbeat_update(&mut self, request: HeartbeatRequest) -> (r: Vec<String>)
        requires
            old(self).inv(),
        ensures
            final(self).inv(),
            final(self).namespace == old(self).namespace,
            final(self).file_handles == old(self).file_handles,
            // The roster: this server upserted, every other one untouched.
            final(self).roster_has(request.server_address@),
            final(self).roster_at(request.server_address@) == (ServerView {
                used: request.used,
                available: request.available,
                handles: seq_views(request.chunk_handles@).to_set(),
            }),
            forall|a: Seq<char>|
                a != request.server_address@ ==> ((#[trigger] final(self).roster_has(a)) <==> old(self).roster_has(a)),
            forall|a: Seq<char>|
                a != request.server_address@ && old(self).roster_has(a) ==> #[trigger] final(self).roster_at(a) == old(self).roster_at(a),
            // The location index: every reported handle now lists this
            // server; everything else is untouched.
            forall|h: Seq<char>|
                #[trigger] final(self).loc_has(h) <==> (old(self).loc_has(h) || seq_views(
                    request.chunk_handles@,
                ).contains(h)),
            forall|h: Seq<char>|
                seq_views(request.chunk_handles@).contains(h) ==> #[trigger] final(self).loc_at(h)
                    == if old(self).loc_has(h) {
                    old(self).loc_at(h).insert(request.server_address@)
                } else {
                    Set::<Seq<char>>::empty().insert(request.server_address@)
                },
            forall|h: Seq<char>|
                !seq_views(request.chunk_handles@).contains(h) && old(self).loc_has(h)
                    ==> #[trigger] final(self).loc_at(h) == old(self).loc_at(h),
            forall|h: Seq<char>|
                seq_views(request.chunk_handles@).contains(h) ==> #[trigger] final(self).loc_at(
                    h,
                ).contains(request.server_address@),
            // The reply: exactly the reported handles held by no active
            // file, each once.
            forall|a: int, b: int| 0 <= a < b < r@.len() ==> (#[trigger] r@[a])@ != (#[trigger] r@[b])@,
            forall|h: Seq<char>|
                #[trigger] seq_views(r@).contains(h) <==> (seq_views(request.chunk_handles@).contains(
                    h,
                ) && !old(self).handle_active(h)),
            // A reported handle that no indexed file holds is garbage.
            forall|h: Seq<char>|
                seq_views(request.chunk_handles@).contains(h) && !old(self).handle_known(h)
                    ==> #[trigger] seq_views(r@).contains(h),
            // Replica accounting: every reported handle is in the location
            // index, and either some active file holds it or the reply
            // tells the server to delete it.
            forall|h: Seq<char>|
                seq_views(request.chunk_handles@).contains(h) ==> (#[trigger] final(self).loc_has(h)
                    && (old(self).handle_active(h) || seq_views(r@).contains(h))),
    {
        let HeartbeatRequest { server_address, used, available, chunk_handles } = request;
        let ghost addr = server_address@;
        let ghost hs = seq_views(chunk_handles@);
        let n = chunk_handles.len();
        let mut i: usize = 0;
        while i < n
            invariant
                old(self).inv(),
                self.inv(),
                self.namespace == old(self).namespace,
                self.file_handles == old(self).file_handles,
                self.chunk_servers == old(self).chunk_servers,
                n == chunk_handles@.len(),
                hs == seq_views(chunk_handles@),
                addr == server_address@,
                0 <= i <= n,
                forall|h: Seq<char>|
                    #[trigger] self.loc_has(h) <==> (old(self).loc_has(h) || exists|m: int|
                        0 <= m < i && hs[m] == h),
                forall|h: Seq<char>|
                    (exists|m: int| 0 <= m < i && hs[m] == h) ==> #[trigger] self.loc_at(h) == if
                    old(self).loc_has(h) {
                        old(self).loc_at(h).insert(addr)
                    } else {
                        Set::<Seq<char>>::empty().insert(addr)
                    },
                forall|h: Seq<char>|
                    !(exists|m: int| 0 <= m < i && hs[m] == h) && old(self).loc_has(h)
                        ==> #[trigger] self.loc_at(h) == old(self).loc_at(h),
            decreases n - i,
        {
            let ghost hv = hs[i as int];
            let ghost pres = *self;
            let ghost pre = self.handle_locations@;
            proof {
                assert(hv == chunk_handles@[i as int]@);
            }
            match find_loc(&self.handle_locations, chunk_handles[i].as_str()) {
                Some(k) => {
                    let (key, mut addrs) = self.handle_locations.remove(k);
                    proof {
                        assert(pre[k as int].0 == key && pre[k as int].1 == addrs);
                    }
                    let ghost as0 = addrs@;
                    if !contains_str(&addrs, server_address.as_str()) {
                        addrs.push(server_address.clone());
                        proof {
                            assert(addrs@.drop_last() =~= as0);
                            assert(seq_views(addrs@) =~= seq_views(as0).push(addr));
                            assert forall|x: Seq<char>| #[trigger] seq_views(addrs@).contains(x)
                                <==> (seq_views(as0).contains(x) || x == addr) by {
                                broadcast use vstd::seq_lib::lemma_seq_contains_after_push;

                            }
                        }
                    }
                    proof {
                        assert(seq_views(addrs@).to_set() =~= seq_views(as0).to_set().insert(addr));
                    }
                    self.handle_locations.insert(k, (key, addrs));
                    proof {
                        assert(self.handle_locations@ =~= pre.update(
                            k as int,
                            (pre[k as int].0, addrs),
                        ));
                        assert(forall|j: int|
                            0 <= j < pre.len() ==> (#[trigger] self.handle_locations@[j].0)@ == (
                            #[trigger] pre[j].0)@);
                        assert forall|x: Seq<char>| true implies loc_find(self.handle_locations@, x)
                            == #[trigger] loc_find(pre, x) by {
                            lemma_loc_find_same_keys(self.handle_locations@, pre, x);
                        }
                        lemma_loc_find(pre, hv);
                        assert(pre[k as int].0@ == hv);
                        assert(pres.loc_at(hv) == seq_views(as0).to_set());
                        assert(self.loc_at(hv) == seq_views(as0).to_set().insert(addr));
                        assert forall|h: Seq<char>|
                            h != hv && loc_find(pre, h) >= 0 implies #[trigger] self.loc_at(h)
                                == pres.loc_at(h) by {
                            lemma_loc_find(pre, h);
                            assert(loc_find(pre, h) != k);
                            assert(self.handle_locations@[loc_find(pre, h)] == pre[loc_find(
                                pre,
                                h,
                            )]);
                        }
                        // Re-establish the three location clauses for `i + 1`.
                        assert forall|h: Seq<char>| #[trigger] self.loc_has(h) <==> (old(
                            self,
                        ).loc_has(h) || exists|m: int| 0 <= m < i + 1 && hs[m] == h) by {
                            assert(self.loc_has(h) <==> pres.loc_has(h));
                            if h == hv {
                                assert(hs[i as int] == h);
                            } else {
                                if exists|m: int| 0 <= m < i + 1 && hs[m] == h {
                                    let m = choose|m: int| 0 <= m < i + 1 && hs[m] == h;
                                    assert(m < i);
                                }
                            }
                        }
                        assert forall|h: Seq<char>| (exists|m: int| 0 <= m < i + 1 && hs[m] == h)
                            implies #[trigger] self.loc_at(h) == (if old(self).loc_has(h) {
                            old(self).loc_at(h).insert(addr)
                        } else {
                            Set::<Seq<char>>::empty().insert(addr)
                        }) by {
                            if h == hv {
                                if exists|m: int| 0 <= m < i && hs[m] == hv {
                                    assert(pres.loc_at(hv) == (if old(self).loc_has(hv) {
                                        old(self).loc_at(hv).insert(addr)
                                    } else {
                                        Set::<Seq<char>>::empty().insert(addr)
                                    }));
                                    assert(self.loc_at(hv) =~= pres.loc_at(hv).insert(addr));
                                    assert(pres.loc_at(hv).insert(addr) =~= pres.loc_at(hv));
                                } else {
                                    assert(pres.loc_has(hv));
                                    assert(old(self).loc_has(hv));
                                    assert(pres.loc_at(hv) == old(self).loc_at(hv));
                                }
                            } else {
                                let m = choose|m: int| 0 <= m < i + 1 && hs[m] == h;
                                assert(m < i);
                                assert(pres.loc_has(h));
                                assert(loc_find(pre, h) >= 0);
                                assert(self.loc_at(h) == pres.loc_at(h));
                            }
                        }
                        assert forall|h: Seq<char>|
                            !(exists|m: int| 0 <= m < i + 1 && hs[m] == h) && old(self).loc_has(h)
                                implies #[trigger] self.loc_at(h) == old(self).loc_at(h) by {
                            assert(h != hv);
                            assert(!(exists|m: int| 0 <= m < i && hs[m] == h));
                            assert(pres.loc_at(h) == old(self).loc_at(h));
                            assert(pres.loc_has(h));
                            assert(loc_find(pre, h) >= 0);
                        }
                    }
                },
                None => {
                    let mut addrs: Vec<String> = Vec::new();
                    addrs.push(server_address.clone());
                    let entry = (chunk_handles[i].clone(), addrs);
                    self.handle_locations.push(entry);
                    proof {
                        let x = self.handle_locations@.last();
                        assert(self.handle_locations@ =~= pre.push(x));
                        assert(x.0@ == hv);
                        assert(seq_views(x.1@) =~= seq![addr]);
                        assert(seq_views(x.1@).to_set() =~= Set::<Seq<char>>::empty().insert(
                            addr,
                        )) by {
                            assert(seq_views(x.1@)[0] == addr);
                            assert forall|y: Seq<char>| #[trigger] seq_views(x.1@).contains(y)
                                implies y == addr by {
                                let m = choose|m: int|
                                    0 <= m < seq_views(x.1@).len() && seq_views(x.1@)[m] == y;
                            }
                            assert(seq_views(x.1@).contains(addr));
                        }
                        assert forall|h: Seq<char>| true implies {
                            &&& (#[trigger] loc_find(self.handle_locations@, h) >= 0 <==> (loc_find(
                                pre,
                                h,
                            ) >= 0 || h == hv))
                            &&& (loc_find(pre, h) >= 0 ==> loc_find(self.handle_locations@, h)
                                == loc_find(pre, h) && self.handle_locations@[loc_find(pre, h)]
                                == pre[loc_find(pre, h)])
                            &&& (loc_find(pre, h) == -1 && h == hv ==> loc_find(
                                self.handle_locations@,
                                h,
                            ) == pre.len() as int)
                        } by {
                            lemma_loc_push(pre, x, h);
                            lemma_loc_find(pre, h);
                        }
                        lemma_loc_find(pre, hv);
                        assert forall|a2: int, b2: int|
                            0 <= a2 < b2 < self.handle_locations@.len() implies (
                        #[trigger] self.handle_locations@[a2].0)@ != (
                        #[trigger] self.handle_locations@[b2].0)@ by {
                            if b2 < pre.len() {
                                assert(self.handle_locations@[a2] == pre[a2]
                                    && self.handle_locations@[b2] == pre[b2]);
                            } else {
                                assert(self.handle_locations@[a2] == pre[a2]
                                    && self.handle_locations@[b2] == x);
                            }
                        }
                        // Re-establish the three location clauses for `i + 1`.
                        assert(!pres.loc_has(hv));
                        assert(!old(self).loc_has(hv));
                        assert(self.loc_at(hv) == seq_views(x.1@).to_set());
                        assert forall|h: Seq<char>| #[trigger] self.loc_has(h) <==> (old(
                            self,
                        ).loc_has(h) || exists|m: int| 0 <= m < i + 1 && hs[m] == h) by {
                            if h == hv {
                                assert(hs[i as int] == h);
                                assert(self.loc_has(h));
                            } else {
                                assert(self.loc_has(h) <==> pres.loc_has(h));
                                if exists|m: int| 0 <= m < i + 1 && hs[m] == h {
                                    let m = choose|m: int| 0 <= m < i + 1 && hs[m] == h;
                                    assert(m < i);
                                }
                            }
                        }
                        assert forall|h: Seq<char>| (exists|m: int| 0 <= m < i + 1 && hs[m] == h)
                            implies #[trigger] self.loc_at(h) == (if old(self).loc_has(h) {
                            old(self).loc_at(h).insert(addr)
                        } else {
                            Set::<Seq<char>>::empty().insert(addr)
                        }) by {
                            if h == hv {
                            } else {
                                let m = choose|m: int| 0 <= m < i + 1 && hs[m] == h;
                                assert(m < i);
                                assert(pres.loc_has(h));
                                assert(loc_find(pre, h) >= 0);
                                assert(self.loc_at(h) == pres.loc_at(h));
                            }
                        }
                        assert forall|h: Seq<char>|
                            !(exists|m: int| 0 <= m < i + 1 && hs[m] == h) && old(self).loc_has(h)
                                implies #[trigger] self.loc_at(h) == old(self).loc_at(h) by {
                            assert(h != hv);
                            assert(!(exists|m: int| 0 <= m < i && hs[m] == h));
                            assert(pres.loc_has(h));
                            assert(loc_find(pre, h) >= 0);
                            assert(self.loc_at(h) == pres.loc_at(h));
                        }
                    }
                },
            }
            i += 1;
        }
        proof {
            assert forall|h: Seq<char>| true implies (#[trigger] self.handle_active(h) == old(self).handle_active(h) && self.handle_known(h) == old(self).handle_known(h)) by {
                assert(self.file_handles@ == old(self).file_handles@);
                assert(self.namespace == old(self).namespace);
                match spec_parse_u64(h) {
                    None => {},
                    Some(v) => {
                        assert forall|j: int| 0 <= j < self.file_handles@.len() implies
                            #[trigger] self.file_handles@[j] == old(self).file_handles@[j] by {}
                    },
                }
            }
        }
        let to_delete = self.get_outdated_chunks(&chunk_handles);
        let ghost mid = *self;
        match find_srv(&self.chunk_servers, server_address.as_str()) {
            Some(k) => {
                let ghost spre = self.chunk_servers@;
                let mut srv = self.chunk_servers.remove(k);
                proof {
                    assert(spre[k as int] == srv);
                }
                srv.used = used;
                srv.available = available;
                srv.chunk_handles = chunk_handles;
                srv.last_heartbeat = now_millis();
                self.chunk_servers.insert(k, srv);
                proof {
                    assert(self.chunk_servers@ =~= spre.update(k as int, srv));
                    assert(forall|j: int|
                        0 <= j < spre.len() ==> (#[trigger] self.chunk_servers@[j]).address@ == (
                        #[trigger] spre[j]).address@);
                    assert forall|a: Seq<char>| true implies srv_find(self.chunk_servers@, a)
                        == #[trigger] srv_find(spre, a) by {
                        lemma_srv_find_same_keys(self.chunk_servers@, spre, a);
                    }
                    lemma_srv_find(spre, addr);
                    assert(spre[k as int].address@ == addr);
                    assert forall|a: Seq<char>| a != addr && srv_find(spre, a) >= 0 implies
                        #[trigger] self.chunk_servers@[srv_find(spre, a)] == spre[srv_find(
                        spre,
                        a,
                    )] by {
                        lemma_srv_find(spre, a);
                        assert(srv_find(spre, a) != k);
                    }
                }
            },
            None => {
                let ghost spre = self.chunk_servers@;
                let srv = ChunkServerStatus::new(server_address, used, available, chunk_handles);
                self.chunk_servers.push(srv);
                proof {
                    let x = self.chunk_servers@.last();
                    assert(self.chunk_servers@ =~= spre.push(x));
                    assert(x.address@ == addr);
                    assert forall|a: Seq<char>| true implies {
                        &&& (#[trigger] srv_find(self.chunk_servers@, a) >= 0 <==> (srv_find(
                            spre,
                            a,
                        ) >= 0 || a == addr))
                        &&& (srv_find(spre, a) >= 0 ==> srv_find(self.chunk_servers@, a)
                            == srv_find(spre, a) && self.chunk_servers@[srv_find(spre, a)]
                            == spre[srv_find(spre, a)])
                        &&& (srv_find(spre, a) == -1 && a == addr ==> srv_find(
                            self.chunk_servers@,
                            a,
                        ) == spre.len() as int)
                    } by {
                        lemma_srv_push(spre, x, a);
                        lemma_srv_find(spre, a);
                    }
                    lemma_srv_find(spre, addr);
                    assert forall|a2: int, b2: int|
                        0 <= a2 < b2 < self.chunk_servers@.len() implies (
                    #[trigger] self.chunk_servers@[a2]).address@ != (
                    #[trigger] self.chunk_servers@[b2]).address@ by {
                        if b2 < spre.len() {
                            assert(self.chunk_servers@[a2] == spre[a2]
                                && self.chunk_servers@[b2] == spre[b2]);
                        } else {
                            assert(self.chunk_servers@[a2] == spre[a2]
                                && self.chunk_servers@[b2] == x);
                        }
                    }
                }
            },
        }
        proof {
            assert(final(self).roster_at(addr).handles =~= seq_views(
                request.chunk_handles@,
            ).to_set());
            // The roster update left the location index as the loop built
            // it; carry the loop's facts over to the final state.
            assert(self.handle_locations == mid.handle_locations);
            assert(self.file_handles == mid.file_handles);
            assert forall|h: Seq<char>| #[trigger] final(self).loc_has(h) <==> (old(
                self,
            ).loc_has(h) || seq_views(request.chunk_handles@).contains(h)) by {
                assert(mid.loc_has(h) <==> (old(self).loc_has(h) || exists|m: int|
                    0 <= m < n && hs[m] == h));
                assert(self.loc_has(h) <==> mid.loc_has(h));
            }
            assert forall|h: Seq<char>| seq_views(request.chunk_handles@).contains(h) implies {
                &&& #[trigger] final(self).loc_at(h) == (if old(self).loc_has(h) {
                    old(self).loc_at(h).insert(addr)
                } else {
                    Set::<Seq<char>>::empty().insert(addr)
                })
                &&& final(self).loc_at(h).contains(addr)
            } by {
                assert(exists|m: int| 0 <= m < n && hs[m] == h);
                assert(mid.loc_at(h) == (if old(self).loc_has(h) {
                    old(self).loc_at(h).insert(addr)
                } else {
                    Set::<Seq<char>>::empty().insert(addr)
                }));
                assert(self.loc_at(h) == mid.loc_at(h));
            }
            assert forall|h: Seq<char>|
                !seq_views(request.chunk_handles@).contains(h) && old(self).loc_has(h) implies
                #[trigger] final(self).loc_at(h) == old(self).loc_at(h) by {
                assert(!(exists|m: int| 0 <= m < n && hs[m] == h));
                assert(mid.loc_at(h) == old(self).loc_at(h));
                assert(self.loc_at(h) == mid.loc_at(h));
            }
        }
        to_delete
    }
}

} // verus!
