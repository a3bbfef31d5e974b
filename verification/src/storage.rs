//! A chunk server's view of its local storage.
//!
//! The server samples its disk through two external utilities: a
//! free-space query whose output carries the used and available byte
//! counts on its second line, and a file listing with one path per line,
//! where each file's name is the chunk handle it stores. Reading those
//! utilities is I/O and stays outside; the parsing of their output is
//! done — and specified — here.

use vstd::prelude::*;

use crate::handles::{spec_parse_u64, parse_u64};
use crate::paths::{lemma_split_no_sep, lemma_split_step, seq_views, spec_split_sep};

verus! {

/// Whether the character is ASCII whitespace, as the free-space output
/// is tokenized.
pub open spec fn is_ws(c: char) -> bool {
    c == ' ' || c == '\t' || c == '\n' || c == '\r' || c == '\x0c'
}

/// The index of the first newline, or the length when there is none.
pub open spec fn first_nl(s: Seq<char>) -> int
    decreases s.len(),
{
    if s.len() == 0 {
        0
    } else if s[0] == '\n' {
        0
    } else {
        1 + first_nl(s.drop_first())
    }
}

/// The index of the first character that is not whitespace, or the
/// length when all are.
pub open spec fn first_nonws(s: Seq<char>) -> int
    decreases s.len(),
{
    if s.len() == 0 {
        0
    } else if !is_ws(s[0]) {
        0
    } else {
        1 + first_nonws(s.drop_first())
    }
}

/// The index of the first whitespace character, or the length when there
/// is none.
pub open spec fn first_ws(s: Seq<char>) -> int
    decreases s.len(),
{
    if s.len() == 0 {
        0
    } else if is_ws(s[0]) {
        0
    } else {
        1 + first_ws(s.drop_first())
    }
}

/// What `first_nl` returns: no newline stands before it, and it points
/// at one unless it is the length.
pub proof fn lemma_first_nl(s: Seq<char>)
    ensures
        0 <= first_nl(s) <= s.len(),
        forall|i: int| 0 <= i < first_nl(s) ==> s[i] != '\n',
        first_nl(s) < s.len() ==> s[first_nl(s)] == '\n',
    decreases s.len(),
{
    if s.len() > 0 && s[0] != '\n' {
        lemma_first_nl(s.drop_first());
        assert forall|i: int| 0 <= i < first_nl(s) implies s[i] != '\n' by {
            if i > 0 {
                assert(s.drop_first()[i - 1] == s[i]);
            }
        }
        if first_nl(s) < s.len() {
            assert(s.drop_first()[first_nl(s) - 1] == s[first_nl(s)]);
        }
    }
}

/// What `first_nonws` returns: only whitespace stands before it, and it
/// points at none unless it is the length.
pub proof fn lemma_first_nonws(s: Seq<char>)
    ensures
        0 <= first_nonws(s) <= s.len(),
        forall|i: int| 0 <= i < first_nonws(s) ==> is_ws(s[i]),
        first_nonws(s) < s.len() ==> !is_ws(s[first_nonws(s)]),
    decreases s.len(),
{
    if s.len() > 0 && is_ws(s[0]) {
        lemma_first_nonws(s.drop_first());
        assert forall|i: int| 0 <= i < first_nonws(s) implies is_ws(s[i]) by {
            if i > 0 {
                assert(s.drop_first()[i - 1] == s[i]);
            }
        }
        if first_nonws(s) < s.len() {
            assert(s.drop_first()[first_nonws(s) - 1] == s[first_nonws(s)]);
        }
    }
}

/// What `first_ws` returns: no whitespace stands before it, and it
/// points at some unless it is the length.
pub proof fn lemma_first_ws(s: Seq<char>)
    ensures
        0 <= first_ws(s) <= s.len(),
        forall|i: int| 0 <= i < first_ws(s) ==> !is_ws(s[i]),
        first_ws(s) < s.len() ==> is_ws(s[first_ws(s)]),
    decreases s.len(),
{
    if s.len() > 0 && !is_ws(s[0]) {
        lemma_first_ws(s.drop_first());
        assert forall|i: int| 0 <= i < first_ws(s) implies !is_ws(s[i]) by {
            if i > 0 {
                assert(s.drop_first()[i - 1] == s[i]);
            }
        }
        if first_ws(s) < s.len() {
            assert(s.drop_first()[first_ws(s) - 1] == s[first_ws(s)]);
        }
    }
}

/// The used and available byte counts in a free-space report: the first
/// two whitespace-separated tokens after the first newline, both read as
/// decimal numbers. `None` when a newline, a token or a number is
/// missing.
pub open spec fn spec_disc_usage(s: Seq<char>) -> Option<(u64, u64)> {
    let nl = first_nl(s);
    if nl >= s.len() {
        None
    } else {
        let rest = s.subrange(nl + 1, s.len() as int);
        let a = first_nonws(rest);
        let r1 = rest.subrange(a, rest.len() as int);
        let e1 = first_ws(r1);
        let tok1 = r1.subrange(0, e1);
        let tail = r1.subrange(e1, r1.len() as int);
        let b = first_nonws(tail);
        let r2 = tail.subrange(b, tail.len() as int);
        let e2 = first_ws(r2);
        let tok2 = r2.subrange(0, e2);
        match (spec_parse_u64(tok1), spec_parse_u64(tok2)) {
            (Some(u), Some(av)) => Some((u, av)),
            _ => None,
        }
    }
}

/// Scans for the first newline at or after `from`.
fn scan_nl(s: &str, from: usize) -> (r: usize)
    requires
        from <= s@.len(),
    ensures
        from <= r <= s@.len(),
        r - from == first_nl(s@.subrange(from as int, s@.len() as int)),
{
    let n = s.unicode_len();
    let mut i = from;
    while i < n
        invariant
            n == s@.len(),
            from <= i <= n,
            forall|j: int| from <= j < i ==> s@[j] != '\n',
        decreases n - i,
    {
        if s.get_char(i) == '\n' {
            proof {
                lemma_scan_tail(s@, from as int, i as int, '\n');
            }
            return i;
        }
        i += 1;
    }
    proof {
        lemma_scan_tail_end(s@, from as int, '\n');
    }
    n
}

/// A scan that stops at the first `stop` character finds `first_nl`-like
/// indexes: with no `stop` before `at` and `stop` at `at`, the first
/// index is `at`.
proof fn lemma_scan_tail(s: Seq<char>, from: int, at: int, stop: char)
    requires
        0 <= from <= at < s.len(),
        forall|j: int| from <= j < at ==> s[j] != stop,
        s[at] == stop,
        stop == '\n',
    ensures
        first_nl(s.subrange(from, s.len() as int)) == at - from,
    decreases at - from,
{
    let t = s.subrange(from, s.len() as int);
    if at == from {
        assert(t[0] == stop);
    } else {
        lemma_scan_tail(s, from + 1, at, stop);
        assert(t[0] != stop);
        assert(t.drop_first() =~= s.subrange(from + 1, s.len() as int));
    }
}

/// With no `stop` character from `from` on, the first index is the end.
proof fn lemma_scan_tail_end(s: Seq<char>, from: int, stop: char)
    requires
        0 <= from <= s.len(),
        forall|j: int| from <= j < s.len() ==> s[j] != stop,
        stop == '\n',
    ensures
        first_nl(s.subrange(from, s.len() as int)) == s.len() - from,
    decreases s.len() - from,
{
    let t = s.subrange(from, s.len() as int);
    if from < s.len() {
        lemma_scan_tail_end(s, from + 1, stop);
        assert(t[0] != stop);
        assert(t.drop_first() =~= s.subrange(from + 1, s.len() as int));
    }
}

/// Scans for the first non-whitespace character at or after `from`.
fn scan_nonws(s: &str, from: usize) -> (r: usize)
    requires
        from <= s@.len(),
    ensures
        from <= r <= s@.len(),
        r - from == first_nonws(s@.subrange(from as int, s@.len() as int)),
{
    let n = s.unicode_len();
    let mut i = from;
    while i < n
        invariant
            n == s@.len(),
            from <= i <= n,
            forall|j: int| from <= j < i ==> is_ws(s@[j]),
        decreases n - i,
    {
        let c = s.get_char(i);
        if !(c == ' ' || c == '\t' || c == '\n' || c == '\r' || c == '\x0c') {
            proof {
                lemma_scan_nonws(s@, from as int, i as int);
            }
            return i;
        }
        i += 1;
    }
    proof {
        lemma_scan_nonws_end(s@, from as int);
    }
    n
}

proof fn lemma_scan_nonws(s: Seq<char>, from: int, at: int)
    requires
        0 <= from <= at < s.len(),
        forall|j: int| from <= j < at ==> is_ws(s[j]),
        !is_ws(s[at]),
    ensures
        first_nonws(s.subrange(from, s.len() as int)) == at - from,
    decreases at - from,
{
    let t = s.subrange(from, s.len() as int);
    if at == from {
    } else {
        lemma_scan_nonws(s, from + 1, at);
        assert(is_ws(t[0]));
        assert(t.drop_first() =~= s.subrange(from + 1, s.len() as int));
    }
}

proof fn lemma_scan_nonws_end(s: Seq<char>, from: int)
    requires
        0 <= from <= s.len(),
        forall|j: int| from <= j < s.len() ==> is_ws(s[j]),
    ensures
        first_nonws(s.subrange(from, s.len() as int)) == s.len() - from,
    decreases s.len() - from,
{
    let t = s.subrange(from, s.len() as int);
    if from < s.len() {
        lemma_scan_nonws_end(s, from + 1);
        assert(is_ws(t[0]));
        assert(t.drop_first() =~= s.subrange(from + 1, s.len() as int));
    }
}

/// Scans for the first whitespace character at or after `from`.
fn scan_ws(s: &str, from: usize) -> (r: usize)
    requires
        from <= s@.len(),
    ensures
        from <= r <= s@.len(),
        r - from == first_ws(s@.subrange(from as int, s@.len() as int)),
{
    let n = s.unicode_len();
    let mut i = from;
    while i < n
        invariant
            n == s@.len(),
            from <= i <= n,
            forall|j: int| from <= j < i ==> !is_ws(s@[j]),
        decreases n - i,
    {
        let c = s.get_char(i);
        if c == ' ' || c == '\t' || c == '\n' || c == '\r' || c == '\x0c' {
            proof {
                lemma_scan_ws(s@, from as int, i as int);
            }
            return i;
        }
        i += 1;
    }
    proof {
        lemma_scan_ws_end(s@, from as int);
    }
    n
}

proof fn lemma_scan_ws(s: Seq<char>, from: int, at: int)
    requires
        0 <= from <= at < s.len(),
        forall|j: int| from <= j < at ==> !is_ws(s[j]),
        is_ws(s[at]),
    ensures
        first_ws(s.subrange(from, s.len() as int)) == at - from,
    decreases at - from,
{
    let t = s.subrange(from, s.len() as int);
    if at == from {
    } else {
        lemma_scan_ws(s, from + 1, at);
        assert(!is_ws(t[0]));
        assert(t.drop_first() =~= s.subrange(from + 1, s.len() as int));
    }
}

proof fn lemma_scan_ws_end(s: Seq<char>, from: int)
    requires
        0 <= from <= s.len(),
        forall|j: int| from <= j < s.len() ==> !is_ws(s[j]),
    ensures
        first_ws(s.subrange(from, s.len() as int)) == s.len() - from,
    decreases s.len() - from,
{
    let t = s.subrange(from, s.len() as int);
    if from < s.len() {
        lemma_scan_ws_end(s, from + 1);
        assert(!is_ws(t[0]));
        assert(t.drop_first() =~= s.subrange(from + 1, s.len() as int));
    }
}

/// Reads the used and available byte counts out of a free-space report;
/// see [`spec_disc_usage`] for the exact format.
pub fn parse_disc_usage(output: &str) -> (r: Option<(u64, u64)>)
    ensures
        r == spec_disc_usage(output@),
{
    let n = output.unicode_len();
    let nl = scan_nl(output, 0);
    proof {
        assert(output@.subrange(0, n as int) =~= output@);
    }
    if nl >= n {
        return None;
    }
    let ghost rest = output@.subrange(nl + 1, n as int);
    let a = scan_nonws(output, nl + 1);
    let ghost r1 = rest.subrange(first_nonws(rest), rest.len() as int);
    proof {
        assert(output@.subrange(nl + 1, n as int).subrange(
            a - (nl + 1),
            output@.subrange(nl + 1, n as int).len() as int,
        ) =~= output@.subrange(a as int, n as int));
        assert(r1 =~= output@.subrange(a as int, n as int));
    }
    let e1 = scan_ws(output, a);
    proof {
        assert(r1.subrange(0, e1 - a) =~= output@.subrange(a as int, e1 as int));
    }
    let tok1 = output.substring_char(a, e1);
    let ghost tail = r1.subrange(e1 - a, r1.len() as int);
    proof {
        assert(tail =~= output@.subrange(e1 as int, n as int));
    }
    let b = scan_nonws(output, e1);
    let ghost r2 = tail.subrange(first_nonws(tail), tail.len() as int);
    proof {
        assert(r2 =~= output@.subrange(b as int, n as int));
    }
    let e2 = scan_ws(output, b);
    proof {
        assert(r2.subrange(0, e2 - b) =~= output@.subrange(b as int, e2 as int));
    }
    let tok2 = output.substring_char(b, e2);
    match (parse_u64(tok1), parse_u64(tok2)) {
        (Some(u), Some(av)) => Some((u, av)),
        _ => None,
    }
}

/// The index right after the last `/`, or zero when there is none.
pub open spec fn after_last_slash(s: Seq<char>) -> int
    decreases s.len(),
{
    if s.len() == 0 {
        0
    } else if s.last() == '/' {
        s.len() as int
    } else {
        after_last_slash(s.drop_last())
    }
}

/// The file name at the end of a path: what follows the last `/`.
pub open spec fn basename(s: Seq<char>) -> Seq<char> {
    s.subrange(after_last_slash(s), s.len() as int)
}

/// The chunk handles named by a file listing: the non-empty base names
/// of its lines, in line order.
pub open spec fn collect_basenames(lines: Seq<Seq<char>>) -> Seq<Seq<char>>
    decreases lines.len(),
{
    if lines.len() == 0 {
        Seq::empty()
    } else {
        let rest = collect_basenames(lines.drop_last());
        if basename(lines.last()).len() > 0 {
            rest.push(basename(lines.last()))
        } else {
            rest
        }
    }
}

/// Collecting base names distributes over concatenation.
proof fn lemma_collect_append(a: Seq<Seq<char>>, b: Seq<Seq<char>>)
    ensures
        collect_basenames(a + b) == collect_basenames(a) + collect_basenames(b),
    decreases b.len(),
{
    if b.len() == 0 {
        assert(a + b =~= a);
        assert(collect_basenames(a) + collect_basenames(b) =~= collect_basenames(a));
    } else {
        lemma_collect_append(a, b.drop_last());
        assert((a + b).drop_last() =~= a + b.drop_last());
        assert((a + b).last() == b.last());
        if basename(b.last()).len() > 0 {
            assert(collect_basenames(a) + collect_basenames(b) =~= (collect_basenames(a)
                + collect_basenames(b.drop_last())).push(basename(b.last())));
        }
    }
}

/// The chunk handles a file listing names; see [`collect_basenames`].
pub open spec fn spec_chunk_listing(s: Seq<char>) -> Seq<Seq<char>> {
    collect_basenames(spec_split_sep(s, '\n'))
}

/// Reads the chunk handles out of a file listing with one path per line:
/// each handle is the non-empty file name at the end of a line's path.
pub fn chunk_handles_from_listing(output: &str) -> (r: Vec<String>)
    ensures
        seq_views(r@) == spec_chunk_listing(output@),
{
    let n = output.unicode_len();
    let mut out: Vec<String> = Vec::new();
    let ghost mut done: Seq<Seq<char>> = Seq::empty();
    let mut seg_start: usize = 0;
    let mut base_start: usize = 0;
    let mut i: usize = 0;
    proof {
        assert(output@.subrange(0, n as int) =~= output@);
        assert(done + spec_split_sep(output@, '\n') =~= spec_split_sep(output@, '\n'));
        assert(seq_views(out@) =~= collect_basenames(done));
    }
    while i < n
        invariant
            n == output@.len(),
            0 <= seg_start <= base_start <= i <= n,
            spec_split_sep(output@, '\n') == done + spec_split_sep(
                output@.subrange(seg_start as int, n as int),
                '\n',
            ),
            seq_views(out@) == collect_basenames(done),
            base_start - seg_start == after_last_slash(
                output@.subrange(seg_start as int, i as int),
            ),
            forall|j: int| seg_start <= j < i ==> output@[j] != '\n',
        decreases n - i,
    {
        let c = output.get_char(i);
        let ghost partial = output@.subrange(seg_start as int, i as int);
        let ghost restseq = output@.subrange(seg_start as int, n as int);
        if c == '\n' {
            let ghost line = partial;
            proof {
                lemma_split_step(restseq, i - seg_start, '\n');
                assert(restseq.subrange(0, i - seg_start) =~= line);
                assert(restseq.subrange(i - seg_start + 1, restseq.len() as int) =~= output@
                    .subrange(i + 1, n as int));
                assert((done + seq![line]) + spec_split_sep(output@.subrange(i + 1, n as int), '\n')
                    =~= done + (seq![line] + spec_split_sep(
                    output@.subrange(i + 1, n as int),
                    '\n',
                )));
                lemma_collect_append(done, seq![line]);
                assert(seq![line].drop_last() =~= Seq::<Seq<char>>::empty());
                assert(basename(line) =~= output@.subrange(base_start as int, i as int));
            }
            if base_start < i {
                let name = output.substring_char(base_start, i).to_owned();
                out.push(name);
                proof {
                    assert(seq_views(out@) =~= collect_basenames(done).push(basename(line)));
                    assert(seq![line].last() == line);
                    assert(collect_basenames(Seq::<Seq<char>>::empty())
                        =~= Seq::<Seq<char>>::empty());
                    assert(collect_basenames(seq![line]) =~= seq![basename(line)]);
                    assert(collect_basenames(done) + collect_basenames(seq![line])
                        =~= collect_basenames(done).push(basename(line)));
                }
            } else {
                proof {
                    assert(basename(line).len() == 0);
                    assert(seq![line].last() == line);
                    assert(collect_basenames(Seq::<Seq<char>>::empty())
                        =~= Seq::<Seq<char>>::empty());
                    assert(collect_basenames(seq![line]) =~= Seq::<Seq<char>>::empty());
                    assert(collect_basenames(done) + collect_basenames(seq![line])
                        =~= collect_basenames(done));
                }
            }
            proof {
                let donep = done.push(line);
                assert(donep =~= done + seq![line]);
                done = donep;
                assert(output@.subrange(i + 1, i + 1) =~= Seq::<char>::empty());
            }
            seg_start = i + 1;
            base_start = i + 1;
        } else if c == '/' {
            proof {
                let ext = output@.subrange(seg_start as int, i + 1);
                assert(ext.last() == '/');
                assert(after_last_slash(ext) == ext.len());
            }
            base_start = i + 1;
        } else {
            proof {
                let ext = output@.subrange(seg_start as int, i + 1);
                assert(ext.last() == c && c != '/');
                assert(ext.drop_last() =~= partial);
                assert(after_last_slash(ext) == after_last_slash(partial));
            }
        }
        i += 1;
    }
    // The characters after the last newline form the final line.
    let ghost line = output@.subrange(seg_start as int, n as int);
    proof {
        lemma_split_no_sep(line, '\n');
        lemma_collect_append(done, seq![line]);
        assert(seq![line].drop_last() =~= Seq::<Seq<char>>::empty());
        assert(basename(line) =~= output@.subrange(base_start as int, n as int));
    }
    if base_start < n {
        let name = output.substring_char(base_start, n).to_owned();
        out.push(name);
        proof {
            assert(seq_views(out@) =~= collect_basenames(done).push(basename(line)));
            assert(seq![line].last() == line);
            assert(collect_basenames(Seq::<Seq<char>>::empty()) =~= Seq::<Seq<char>>::empty());
            assert(collect_basenames(seq![line]) =~= seq![basename(line)]);
            assert(collect_basenames(done) + collect_basenames(seq![line]) =~= collect_basenames(
                done,
            ).push(basename(line)));
            assert(seq_views(out@) =~= spec_chunk_listing(output@));
        }
    } else {
        proof {
            assert(basename(line).len() == 0);
            assert(seq![line].last() == line);
            assert(collect_basenames(Seq::<Seq<char>>::empty()) =~= Seq::<Seq<char>>::empty());
            assert(collect_basenames(seq![line]) =~= Seq::<Seq<char>>::empty());
            assert(collect_basenames(done) + collect_basenames(seq![line]) =~= collect_basenames(
                done,
            ));
            assert(seq_views(out@) =~= spec_chunk_listing(output@));
        }
    }
    out
}

/// What a chunk server knows of its local storage: the space accounting
/// and the handles of the chunks on disk.
#[derive(Debug)]
pub struct Storage {
    used: u64,
    available: u64,
    data_path: String,
    chunk_handles: Vec<String>,
}

impl Storage {
    /// The used bytes the storage was built with.
    pub closed spec fn spec_used(self) -> u64 {
        self.used
    }

    /// The available bytes the storage was built with.
    pub closed spec fn spec_available(self) -> u64 {
        self.available
    }

    /// The data directory the storage was built with.
    pub closed spec fn spec_data_path(self) -> Seq<char> {
        self.data_path@
    }

    /// The chunk handles the storage was built with.
    pub closed spec fn spec_chunk_handles(self) -> Seq<Seq<char>> {
        crate::paths::seq_views(self.chunk_handles@)
    }

    /// Assembles the storage state from the data directory's path and
    /// what the disk scan reported: the space accounting and the chunk
    /// handles found on disk.
    pub fn new(data_path: String, used: u64, available: u64, chunk_handles: Vec<String>) -> (r:
        Storage)
        ensures
            r.spec_used() == used,
            r.spec_available() == available,
            r.spec_data_path() == data_path@,
            r.spec_chunk_handles() == crate::paths::seq_views(chunk_handles@),
    {
        Storage { used, available, data_path, chunk_handles }
    }

    /// The bytes in use on this server.
    pub fn get_used_storage(&self) -> (r: u64)
        ensures
            r == self.spec_used(),
    {
        self.used
    }

    /// The bytes still available on this server.
    pub fn get_available_storage(&self) -> (r: u64)
        ensures
            r == self.spec_available(),
    {
        self.available
    }

    /// The handles of the chunks held on this server's disk.
    pub fn get_chunk_handles(&self) -> (r: Vec<String>)
        ensures
            crate::paths::seq_views(r@) == self.spec_chunk_handles(),
    {
        let mut out: Vec<String> = Vec::new();
        let n = self.chunk_handles.len();
        let mut i: usize = 0;
        while i < n
            invariant
                n == self.chunk_handles@.len(),
                0 <= i <= n,
                out@.len() == i,
                forall|j: int| 0 <= j < i ==> (#[trigger] out@[j])@ == self.chunk_handles@[j]@,
            decreases n - i,
        {
            out.push(self.chunk_handles[i].clone());
            i += 1;
        }
        proof {
            assert(crate::paths::seq_views(out@) =~= self.spec_chunk_handles());
        }
        out
    }
}

} // verus!
