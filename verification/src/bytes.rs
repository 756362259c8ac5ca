//! Byte-level helpers shared by the builder and the accessors.
//!
//! Strings are handled as byte sequences. A byte that is not a UTF-8
//! continuation byte starts an encoded character; slicing is only done
//! at such positions (or at the ends of the buffer), so no encoded
//! character is ever split.

use vstd::prelude::*;

verus! {

/// True when `b` is the first byte of an encoded character, that is,
/// not a UTF-8 continuation byte.
pub open spec fn is_char_start(b: u8) -> bool {
    b < 0x80 || b >= 0xC0
}

/// True when position `i` of `s` is safe to cut at: the start, the end,
/// or the first byte of an encoded character.
pub open spec fn is_boundary(s: Seq<u8>, i: int) -> bool {
    i == 0 || i == s.len() || (0 < i < s.len() && is_char_start(s[i]))
}

/// Number of character-start bytes among the first `i` bytes of `s`.
pub open spec fn count_starts(s: Seq<u8>, i: int) -> int
    decreases i,
{
    if i <= 0 {
        0
    } else {
        count_starts(s, i - 1) + if is_char_start(s[i - 1]) {
            1int
        } else {
            0int
        }
    }
}

/// The bytes of `pat` occur verbatim inside `text` at byte offset `off`.
pub open spec fn occurs_in(pat: Seq<u8>, text: Seq<u8>, off: int) -> bool {
    &&& 0 <= off
    &&& off + pat.len() <= text.len()
    &&& text.subrange(off, off + pat.len()) == pat
}

/// A proper interior cut of `s` that begins an encoded character and has
/// at least one character-start byte before it: exactly the positions at
/// which `split_after_char` can split `s`.
pub open spec fn is_split_point(s: Seq<u8>, p: int) -> bool {
    &&& 0 < p < s.len()
    &&& is_char_start(s[p])
    &&& count_starts(s, p) >= 1
}

pub proof fn lemma_count_starts_mono(s: Seq<u8>, i: int, j: int)
    requires
        i <= j,
    ensures
        count_starts(s, i) <= count_starts(s, j),
    decreases j - i,
{
    if i < j {
        lemma_count_starts_mono(s, i, j - 1);
    }
}

pub proof fn lemma_count_starts_le_index(s: Seq<u8>, i: int)
    ensures
        count_starts(s, i) <= if i <= 0 {
            0int
        } else {
            i
        },
    decreases i,
{
    if i > 0 {
        lemma_count_starts_le_index(s, i - 1);
    }
}

/// Two distinct character-start positions have distinct start counts.
pub proof fn lemma_count_starts_strict(s: Seq<u8>, p: int, q: int)
    requires
        0 <= p < q,
        is_char_start(s[p]),
    ensures
        count_starts(s, p) < count_starts(s, q),
{
    assert(count_starts(s, p + 1) == count_starts(s, p) + 1);
    lemma_count_starts_mono(s, p + 1, q);
}

/// Executable form of `is_char_start`.
pub fn start_byte(b: u8) -> (r: bool)
    ensures
        r == is_char_start(b),
{
    b < 0x80 || b >= 0xC0
}

/// Executable form of `is_boundary`.
pub fn boundary_at(buf: &Vec<u8>, i: usize) -> (r: bool)
    requires
        i <= buf@.len(),
    ensures
        r == is_boundary(buf@, i as int),
{
    if i == 0 {
        true
    } else if i == buf.len() {
        true
    } else {
        start_byte(buf[i])
    }
}

/// Compare two byte slices for equality of their contents.
pub fn bytes_eq(a: &[u8], b: &[u8]) -> (r: bool)
    ensures
        r == (a@ == b@),
{
    if a.len() != b.len() {
        assert(a@ != b@);
        return false;
    }
    let n = a.len();
    let mut k: usize = 0;
    while k < n
        invariant
            n == a@.len() == b@.len(),
            k <= n,
            forall|j: int| 0 <= j < k ==> a@[j] == b@[j],
        decreases n - k,
    {
        if a[k] != b[k] {
            return false;
        }
        k += 1;
    }
    assert(a@ =~= b@);
    true
}

/// Append all of `src` to the end of `dst`.
pub fn push_bytes(dst: &mut Vec<u8>, src: &[u8])
    ensures
        final(dst)@ == old(dst)@ + src@,
{
    let ghost dst0 = dst@;
    let mut k: usize = 0;
    while k < src.len()
        invariant
            k <= src@.len(),
            dst@ == dst0 + src@.subrange(0, k as int),
        decreases src@.len() - k,
    {
        dst.push(src[k]);
        assert(dst@ =~= dst0 + src@.subrange(0, k + 1));
        k += 1;
    }
    assert(dst@ =~= dst0 + src@);
}

/// Split `s` just after its first `after` encoded characters.
///
/// Returns the two halves when `s` has more than `after` characters and
/// `after` is at least one, so both halves are non-empty; returns
/// nothing otherwise. The cut lands exactly on the unique split point
/// whose character-start count equals `after`.
pub fn split_after_char(s: &Vec<u8>, after: usize) -> (r: Option<(Vec<u8>, Vec<u8>)>)
    ensures
        r is Some <==> 1 <= after && (after as int) < count_starts(s@, s@.len() as int),
        r matches Some((a, b)) ==> {
            &&& a@ + b@ == s@
            &&& a@.len() >= 1
            &&& is_split_point(s@, a@.len() as int)
            &&& count_starts(s@, a@.len() as int) == after
            &&& b@ == s@.skip(a@.len() as int)
        },
{
    if after == 0 {
        return None;
    }
    let mut cnt: usize = 0;
    let mut p: usize = 0;
    while p < s.len()
        invariant
            p <= s@.len(),
            1 <= after,
            cnt <= after,
            cnt == count_starts(s@, p as int),
        decreases s@.len() - p,
    {
        if start_byte(s[p]) {
            if cnt == after {
                proof {
                    assert(count_starts(s@, p + 1) == count_starts(s@, p as int) + 1);
                    lemma_count_starts_mono(s@, p + 1, s@.len() as int);
                }
                let a = vstd::slice::slice_to_vec(
                    vstd::slice::slice_subrange(s.as_slice(), 0, p),
                );
                let b = vstd::slice::slice_to_vec(
                    vstd::slice::slice_subrange(s.as_slice(), p, s.len()),
                );
                proof {
                    assert(a@ + b@ =~= s@);
                    assert(b@ =~= s@.skip(p as int));
                    assert(p >= 1) by {
                        lemma_count_starts_le_index(s@, p as int);
                    }
                }
                return Some((a, b));
            }
            cnt += 1;
        }
        p += 1;
    }
    proof {
        assert(count_starts(s@, s@.len() as int) == cnt);
    }
    None
}

} // verus!
