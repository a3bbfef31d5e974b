//! Chunk handles.
//!
//! A chunk handle is a 64-bit identifier computed as a deterministic hash
//! of the owning user, the file path and the chunk index. Chunk servers
//! report the handles they hold in decimal string form; the master parses
//! those strings back into numbers.

use std::collections::hash_map::DefaultHasher;
use std::hash::Hasher;

use vstd::prelude::*;
use vstd::std_specs::hash::DefaultHasherAdditionalSpecFns;

verus! {

/// The user that owns every chunk in the current single-tenant design.
pub const USER_ID: u8 = 1;

/// The four little-endian bytes of a character.
pub open spec fn char_bytes(c: char) -> Seq<u8> {
    let v = c as u32;
    seq![
        (v & 0xff) as u8,
        ((v >> 8) & 0xff) as u8,
        ((v >> 16) & 0xff) as u8,
        ((v >> 24) & 0xff) as u8,
    ]
}

/// The eight little-endian bytes of a 64-bit integer.
pub open spec fn u64_bytes(v: u64) -> Seq<u8> {
    seq![
        (v & 0xff) as u8,
        ((v >> 8) & 0xff) as u8,
        ((v >> 16) & 0xff) as u8,
        ((v >> 24) & 0xff) as u8,
        ((v >> 32) & 0xff) as u8,
        ((v >> 40) & 0xff) as u8,
        ((v >> 48) & 0xff) as u8,
        ((v >> 56) & 0xff) as u8,
    ]
}

/// The hasher writes that identify `(path, index)` for the fixed user.
pub open spec fn handle_writes(path: Seq<char>, index: u64) -> Seq<Seq<u8>> {
    seq![seq![USER_ID]] + Seq::new(path.len(), |i: int| char_bytes(path[i])) + seq![
        u64_bytes(index),
    ]
}

/// The chunk handle of `(path, index)`: a function of the path characters
/// and the index alone, so allocating the same chunk twice yields the same
/// handle.
pub open spec fn spec_chunk_handle(path: Seq<char>, index: u64) -> u64 {
    DefaultHasher::spec_finish(handle_writes(path, index))
}

/// Computes the chunk handle of `(file_path, chunk_index)`.
pub fn chunk_handle(file_path: &str, chunk_index: u64) -> (h: u64)
    ensures
        h == spec_chunk_handle(file_path@, chunk_index),
{
    let mut hasher = DefaultHasher::new();
    let mut user: Vec<u8> = Vec::new();
    user.push(USER_ID);
    proof {
        assert(user@ =~= seq![USER_ID]);
    }
    hasher.write(user.as_slice());
    proof {
        assert(hasher@ =~= seq![seq![USER_ID]] + Seq::new(0, |k: int| char_bytes(file_path@[k])));
    }
    let n = file_path.unicode_len();
    let mut i: usize = 0;
    while i < n
        invariant
            n == file_path@.len(),
            0 <= i <= n,
            hasher@ == seq![seq![USER_ID]] + Seq::new(
                i as nat,
                |k: int| char_bytes(file_path@[k]),
            ),
        decreases n - i,
    {
        let c = file_path.get_char(i);
        let cv = c as u32;
        let mut cb: Vec<u8> = Vec::new();
        cb.push((cv & 0xff) as u8);
        cb.push(((cv >> 8) & 0xff) as u8);
        cb.push(((cv >> 16) & 0xff) as u8);
        cb.push(((cv >> 24) & 0xff) as u8);
        hasher.write(cb.as_slice());
        proof {
            assert(cb@ =~= char_bytes(file_path@[i as int]));
            assert(hasher@ =~= seq![seq![USER_ID]] + Seq::new(
                (i + 1) as nat,
                |k: int| char_bytes(file_path@[k]),
            ));
        }
        i += 1;
    }
    let iv = chunk_index;
    let mut ib: Vec<u8> = Vec::new();
    ib.push((iv & 0xff) as u8);
    ib.push(((iv >> 8) & 0xff) as u8);
    ib.push(((iv >> 16) & 0xff) as u8);
    ib.push(((iv >> 24) & 0xff) as u8);
    ib.push(((iv >> 32) & 0xff) as u8);
    ib.push(((iv >> 40) & 0xff) as u8);
    ib.push(((iv >> 48) & 0xff) as u8);
    ib.push(((iv >> 56) & 0xff) as u8);
    hasher.write(ib.as_slice());
    proof {
        assert(ib@ =~= u64_bytes(chunk_index));
        assert(hasher@ =~= handle_writes(file_path@, chunk_index));
    }
    hasher.finish()
}

/// Whether the character is a decimal digit.
pub open spec fn is_digit(c: char) -> bool {
    48 <= c as u32 <= 57
}

/// Whether every character of the sequence is a decimal digit.
pub open spec fn all_digits(s: Seq<char>) -> bool {
    forall|i: int| 0 <= i < s.len() ==> is_digit(#[trigger] s[i])
}

/// The value of a digit sequence read in base ten.
pub open spec fn digits_val(s: Seq<char>) -> int
    decreases s.len(),
{
    if s.len() == 0 {
        0
    } else {
        digits_val(s.drop_last()) * 10 + (s.last() as u32 - 48)
    }
}

/// The number a handle string denotes: `None` when the string is empty,
/// holds a non-digit, or denotes a value above `u64::MAX`.
pub open spec fn spec_parse_u64(s: Seq<char>) -> Option<u64> {
    if s.len() > 0 && all_digits(s) && digits_val(s) <= u64::MAX {
        Some(digits_val(s) as u64)
    } else {
        None
    }
}

/// A digit sequence has a value of at least zero.
proof fn lemma_digits_val_nonneg(s: Seq<char>)
    requires
        all_digits(s),
    ensures
        digits_val(s) >= 0,
    decreases s.len(),
{
    if s.len() > 0 {
        assert(all_digits(s.drop_last()));
        lemma_digits_val_nonneg(s.drop_last());
    }
}

/// Reading more digits never shrinks the value.
proof fn lemma_digits_val_prefix(s: Seq<char>, k: int)
    requires
        all_digits(s),
        0 <= k <= s.len(),
    ensures
        digits_val(s.subrange(0, k)) <= digits_val(s),
    decreases s.len() - k,
{
    if k < s.len() {
        lemma_digits_val_prefix(s, k + 1);
        let t = s.subrange(0, k + 1);
        assert(t.drop_last() =~= s.subrange(0, k));
        assert(all_digits(s.subrange(0, k)));
        lemma_digits_val_nonneg(s.subrange(0, k));
        assert(digits_val(t) == digits_val(s.subrange(0, k)) * 10 + (t.last() as u32 - 48));
    } else {
        assert(s.subrange(0, k) =~= s);
    }
}

/// Parses a decimal handle string.
pub fn parse_u64(s: &str) -> (r: Option<u64>)
    ensures
        r == spec_parse_u64(s@),
{
    let n = s.unicode_len();
    if n == 0 {
        return None;
    }
    let mut acc: u64 = 0;
    let mut i: usize = 0;
    while i < n
        invariant
            n == s@.len(),
            0 < n,
            0 <= i <= n,
            all_digits(s@.subrange(0, i as int)),
            acc as int == digits_val(s@.subrange(0, i as int)),
        decreases n - i,
    {
        let c = s.get_char(i);
        let cv = c as u32;
        if cv < 48 || cv > 57 {
            proof {
                assert(!is_digit(s@[i as int]));
            }
            return None;
        }
        let d = (cv - 48) as u64;
        let ghost pre = s@.subrange(0, i as int);
        proof {
            assert(s@.subrange(0, i + 1).drop_last() =~= pre);
            assert(s@.subrange(0, i + 1).last() == s@[i as int]);
            assert(all_digits(s@.subrange(0, i + 1)));
        }
        let step = match acc.checked_mul(10) {
            Some(m) => m.checked_add(d),
            None => None,
        };
        match step {
            Some(v) => {
                acc = v;
            },
            None => {
                // The value no longer fits in 64 bits, so neither does the
                // whole string's value.
                proof {
                    if all_digits(s@) {
                        lemma_digits_val_prefix(s@, i + 1);
                        assert(digits_val(s@.subrange(0, i + 1)) == acc as int * 10 + d);
                        assert(digits_val(s@) > u64::MAX);
                    }
                }
                return None;
            },
        }
        i += 1;
    }
    proof {
        assert(s@.subrange(0, n as int) =~= s@);
    }
    Some(acc)
}

} // verus!
