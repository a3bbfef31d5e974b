//! Absolute Unix-style paths.
//!
//! A path names a node of the namespace tree: it starts with `/` and its
//! components are separated by `/`. Empty components are invalid, and the
//! path `/` alone names the root directory.

use vstd::prelude::*;

use crate::errors::DfsError;

verus! {

/// The views of a sequence of owned strings.
pub open spec fn seq_views(v: Seq<String>) -> Seq<Seq<char>> {
    v.map_values(|s: String| s@)
}

/// Splits a character sequence on a separator. Splitting always yields
/// one more component than there are separators, so the result is never
/// empty.
pub open spec fn spec_split_sep(s: Seq<char>, sep: char) -> Seq<Seq<char>>
    decreases s.len(),
{
    if s.len() == 0 {
        seq![Seq::<char>::empty()]
    } else if s[0] == sep {
        seq![Seq::<char>::empty()] + spec_split_sep(s.drop_first(), sep)
    } else {
        let rest = spec_split_sep(s.drop_first(), sep);
        seq![seq![s[0]] + rest[0]] + rest.drop_first()
    }
}

/// The components of a path string: what splitting on `/` yields.
pub open spec fn spec_split_slash(s: Seq<char>) -> Seq<Seq<char>> {
    spec_split_sep(s, '/')
}

/// The components of an absolute path, or `None` when the string is not
/// absolute or holds an empty component. `/` alone parses to no components
/// and names the root.
pub open spec fn spec_parse_path(s: Seq<char>) -> Option<Seq<Seq<char>>> {
    if s.len() == 0 || s[0] != '/' {
        None
    } else if s.len() == 1 {
        Some(Seq::empty())
    } else {
        let parts = spec_split_slash(s.subrange(1, s.len() as int));
        if forall|i: int| 0 <= i < parts.len() ==> #[trigger] parts[i].len() > 0 {
            Some(parts)
        } else {
            None
        }
    }
}

/// Splitting yields at least one component.
pub proof fn lemma_split_nonempty(s: Seq<char>, sep: char)
    ensures
        spec_split_sep(s, sep).len() >= 1,
    decreases s.len(),
{
    if s.len() != 0 {
        lemma_split_nonempty(s.drop_first(), sep);
    }
}

/// Splitting a separator-free sequence yields that sequence alone.
pub proof fn lemma_split_no_sep(s: Seq<char>, sep: char)
    requires
        forall|i: int| 0 <= i < s.len() ==> s[i] != sep,
    ensures
        spec_split_sep(s, sep) =~~= seq![s],
    decreases s.len(),
{
    if s.len() == 0 {
    } else {
        lemma_split_no_sep(s.drop_first(), sep);
        assert(seq![s[0]] + s.drop_first() =~= s);
    }
}

/// Splitting `c sep r`, with `c` separator-free, yields `c` followed by
/// the components of `r`.
pub proof fn lemma_split_step(s: Seq<char>, k: int, sep: char)
    requires
        0 <= k < s.len(),
        s[k] == sep,
        forall|i: int| 0 <= i < k ==> s[i] != sep,
    ensures
        spec_split_sep(s, sep) == seq![s.subrange(0, k)] + spec_split_sep(
            s.subrange(k + 1, s.len() as int),
            sep,
        ),
    decreases k,
{
    if k == 0 {
        assert(s.drop_first() =~= s.subrange(1, s.len() as int));
        assert(s.subrange(0, 0) =~= Seq::<char>::empty());
        assert(spec_split_sep(s, sep) =~= seq![s.subrange(0, 0)] + spec_split_sep(
            s.subrange(1, s.len() as int),
            sep,
        ));
    } else {
        let tail = s.drop_first();
        lemma_split_step(tail, k - 1, sep);
        let after = spec_split_sep(tail.subrange(k - 1 + 1, tail.len() as int), sep);
        let rest = spec_split_sep(tail, sep);
        // rest == [tail.subrange(0, k - 1)] + after
        assert(rest[0] == tail.subrange(0, k - 1));
        assert(rest.drop_first() =~= after);
        assert(seq![s[0]] + tail.subrange(0, k - 1) =~= s.subrange(0, k));
        assert(tail.subrange(k, tail.len() as int) =~= s.subrange(k + 1, s.len() as int));
        assert(spec_split_sep(s, sep) =~= seq![s.subrange(0, k)] + spec_split_sep(
            s.subrange(k + 1, s.len() as int),
            sep,
        ));
    }
}

/// Whether two string slices hold the same characters.
pub fn str_eq(a: &str, b: &str) -> (r: bool)
    ensures
        r == (a@ == b@),
{
    let an = a.unicode_len();
    let bn = b.unicode_len();
    if an != bn {
        return false;
    }
    let mut i: usize = 0;
    while i < an
        invariant
            an == a@.len() == b@.len(),
            0 <= i <= an,
            forall|j: int| 0 <= j < i ==> a@[j] == b@[j],
        decreases an - i,
    {
        if a.get_char(i) != b.get_char(i) {
            return false;
        }
        i += 1;
    }
    proof {
        assert(a@ =~= b@);
    }
    true
}

/// Parses an absolute path into its components.
///
/// Returns the components in order for a well-formed absolute path, no
/// components for `/` itself, and `InvalidPath` when the string does not
/// start with `/` or holds an empty component.
pub fn parse_path(path: &str) -> (r: Result<Vec<String>, DfsError>)
    ensures
        match r {
            Ok(v) => spec_parse_path(path@) == Some(seq_views(v@)),
            Err(e) => e == DfsError::InvalidPath && spec_parse_path(path@) is None,
        },
{
    let n = path.unicode_len();
    if n == 0 || path.get_char(0) != '/' {
        return Err(DfsError::InvalidPath);
    }
    if n == 1 {
        let parts: Vec<String> = Vec::new();
        proof {
            assert(seq_views(parts@) =~= Seq::<Seq<char>>::empty());
        }
        return Ok(parts);
    }
    let ghost t = path@.subrange(1, n as int);
    let mut parts: Vec<String> = Vec::new();
    let mut start: usize = 1;
    let mut i: usize = 1;
    proof {
        assert(seq_views(parts@) + spec_split_slash(t) =~= spec_split_slash(t));
    }
    while i < n
        invariant
            n == path@.len(),
            2 <= n,
            1 <= start <= i <= n,
            t == path@.subrange(1, n as int),
            spec_split_slash(t) == seq_views(parts@) + spec_split_slash(
                path@.subrange(start as int, n as int),
            ),
            forall|j: int| 0 <= j < parts@.len() ==> #[trigger] seq_views(parts@)[j].len() > 0,
            forall|j: int| start <= j < i ==> path@[j] != '/',
        decreases n - i,
    {
        let ghost done = seq_views(parts@);
        let ghost restseq = path@.subrange(start as int, n as int);
        if path.get_char(i) == '/' {
            if i == start {
                proof {
                    lemma_split_step(restseq, 0, '/');
                    assert(spec_split_slash(t)[done.len() as int] == restseq.subrange(0, 0));
                    assert(restseq.subrange(0, 0).len() == 0);
                }
                return Err(DfsError::InvalidPath);
            }
            let comp = path.substring_char(start, i).to_owned();
            proof {
                lemma_split_step(restseq, i - start, '/');
                assert(restseq.subrange(0, i - start) =~= comp@);
                assert(restseq.subrange(i - start + 1, restseq.len() as int) =~= path@.subrange(
                    i + 1,
                    n as int,
                ));
            }
            parts.push(comp);
            proof {
                assert(seq_views(parts@) =~= done + seq![comp@]);
                assert((done + seq![comp@]) + spec_split_slash(path@.subrange(i + 1, n as int))
                    =~= done + (seq![comp@] + spec_split_slash(path@.subrange(i + 1, n as int))));
            }
            start = i + 1;
        }
        i += 1;
    }
    // The remaining characters form the final component.
    let ghost done = seq_views(parts@);
    let ghost restseq = path@.subrange(start as int, n as int);
    proof {
        lemma_split_no_sep(restseq, '/');
    }
    if start == n {
        proof {
            assert(spec_split_slash(t)[done.len() as int] == restseq);
            assert(restseq.len() == 0);
        }
        return Err(DfsError::InvalidPath);
    }
    let comp = path.substring_char(start, n).to_owned();
    parts.push(comp);
    proof {
        assert(comp@ == restseq);
        assert(seq_views(parts@) =~= done + seq![comp@]);
        assert(done + seq![comp@] =~= spec_split_slash(t));
    }
    Ok(parts)
}

} // verus!
