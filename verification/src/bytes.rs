//! Byte-string primitives: substring matching, searching, replacement,
//! lexicographic comparison, line splitting and whitespace trimming.
//!
//! All text handled by this crate (markdown, HTML, permalinks, timestamps)
//! is carried as UTF-8 bytes, so every contract here is stated over `Seq<u8>`.
use vstd::prelude::*;

verus! {

/// `n` occurs in `h` starting at position `i`.
pub open spec fn matches_at(h: Seq<u8>, n: Seq<u8>, i: int) -> bool {
    0 <= i && i + n.len() <= h.len() && h.subrange(i, i + n.len()) == n
}

/// Position of the first occurrence of `n` in `s`, if any.
pub open spec fn idx_of(s: Seq<u8>, n: Seq<u8>) -> Option<int>
    decreases s.len(),
{
    if matches_at(s, n, 0) {
        Some(0int)
    } else if s.len() == 0 {
        None
    } else {
        match idx_of(s.skip(1), n) {
            Some(i) => Some(i + 1),
            None => None,
        }
    }
}

/// Occurrences are preserved when a prefix is dropped.
pub proof fn lemma_matches_skip(s: Seq<u8>, n: Seq<u8>, a: int, j: int)
    requires
        0 <= a <= s.len(),
        0 <= j,
    ensures
        matches_at(s, n, a + j) <==> matches_at(s.skip(a), n, j),
{
    if j + n.len() <= s.len() - a {
        assert(s.skip(a).subrange(j, j + n.len()) =~= s.subrange(a + j, a + j + n.len()));
    }
}

/// `idx_of` returns exactly the first occurrence.
pub proof fn lemma_idx_of(s: Seq<u8>, n: Seq<u8>)
    ensures
        match idx_of(s, n) {
            Some(i) => 0 <= i && matches_at(s, n, i) && forall|j: int|
                0 <= j < i ==> !matches_at(s, n, j),
            None => forall|j: int| !matches_at(s, n, j),
        },
    decreases s.len(),
{
    if matches_at(s, n, 0) {
    } else if s.len() == 0 {
        assert forall|j: int| !matches_at(s, n, j) by {
            if 0 <= j && j + n.len() <= s.len() {
                assert(j == 0 && n.len() == 0);
            }
        }
    } else {
        lemma_idx_of(s.skip(1), n);
        match idx_of(s.skip(1), n) {
            Some(i) => {
                lemma_matches_skip(s, n, 1, i);
                assert forall|j: int| 0 <= j < i + 1 implies !matches_at(s, n, j) by {
                    if j > 0 {
                        lemma_matches_skip(s, n, 1, j - 1);
                    }
                }
            },
            None => {
                assert forall|j: int| !matches_at(s, n, j) by {
                    if j > 0 {
                        lemma_matches_skip(s, n, 1, j - 1);
                    } else if j < 0 {
                    }
                }
            },
        }
    }
}

/// Dropping `a` then `b` elements is dropping `a + b` at once.
pub proof fn lemma_skip_skip(s: Seq<u8>, a: int, b: int)
    requires
        0 <= a,
        0 <= b,
        a + b <= s.len(),
    ensures
        s.skip(a).skip(b) == s.skip(a + b),
{
    assert(s.skip(a).skip(b) =~= s.skip(a + b));
}

/// Does `n` occur in `h` at position `i`?
pub fn match_at(h: &[u8], n: &[u8], i: usize) -> (r: bool)
    ensures
        r == matches_at(h@, n@, i as int),
{
    if i > h.len() || n.len() > h.len() - i {
        return false;
    }
    let mut j: usize = 0;
    while j < n.len()
        invariant
            i + n.len() <= h.len(),
            j <= n.len(),
            forall|k: int| 0 <= k < j ==> h@[i + k] == n@[k],
        decreases n.len() - j,
    {
        if h[i + j] != n[j] {
            proof {
                if matches_at(h@, n@, i as int) {
                    assert(h@.subrange(i as int, i + n@.len())[j as int] == n@[j as int]);
                }
            }
            return false;
        }
        j += 1;
    }
    proof {
        assert(h@.subrange(i as int, i + n@.len()) =~= n@);
    }
    true
}

/// First occurrence of `n` in `h` at or after `start`.
pub fn find_from(h: &[u8], n: &[u8], start: usize) -> (r: Option<usize>)
    requires
        n@.len() >= 1,
    ensures
        match r {
            Some(i) => start <= i && matches_at(h@, n@, i as int) && forall|j: int|
                start <= j < i ==> !matches_at(h@, n@, j),
            None => forall|j: int| start <= j ==> !matches_at(h@, n@, j),
        },
{
    let mut i: usize = start;
    if i > h.len() {
        return None;
    }
    while i < h.len()
        invariant
            start <= i <= h.len(),
            n@.len() >= 1,
            forall|j: int| start <= j < i ==> !matches_at(h@, n@, j),
        decreases h.len() - i,
    {
        if match_at(h, n, i) {
            return Some(i);
        }
        i += 1;
    }
    None
}

/// Append all of `src` to `out`.
pub fn push_all(out: &mut Vec<u8>, src: &[u8])
    ensures
        final(out)@ == old(out)@ + src@,
{
    let mut j: usize = 0;
    while j < src.len()
        invariant
            j <= src.len(),
            out@ == old(out)@ + src@.take(j as int),
        decreases src.len() - j,
    {
        out.push(src[j]);
        proof {
            assert(old(out)@ + src@.take(j + 1) =~= (old(out)@ + src@.take(j as int)).push(
                src@[j as int],
            ));
        }
        j += 1;
    }
    proof {
        assert(src@.take(src@.len() as int) =~= src@);
    }
}

/// Copy `h[i..j]` into a fresh vector.
pub fn sub_vec(h: &[u8], i: usize, j: usize) -> (r: Vec<u8>)
    requires
        i <= j <= h@.len(),
    ensures
        r@ == h@.subrange(i as int, j as int),
{
    vstd::slice::slice_to_vec(vstd::slice::slice_subrange(h, i, j))
}

/// Byte-for-byte equality.
pub fn bytes_eq(a: &[u8], b: &[u8]) -> (r: bool)
    ensures
        r == (a@ == b@),
{
    if a.len() != b.len() {
        return false;
    }
    let mut i: usize = 0;
    while i < a.len()
        invariant
            a@.len() == b@.len(),
            i <= a@.len(),
            forall|k: int| 0 <= k < i ==> a@[k] == b@[k],
        decreases a.len() - i,
    {
        if a[i] != b[i] {
            return false;
        }
        i += 1;
    }
    proof {
        assert(a@ =~= b@);
    }
    true
}

/// Every occurrence of `f` in `h` replaced by `t`, scanning left to right.
pub open spec fn replace_all_spec(h: Seq<u8>, f: Seq<u8>, t: Seq<u8>) -> Seq<u8>
    decreases h.len(),
{
    if f.len() == 0 || h.len() == 0 {
        h
    } else if matches_at(h, f, 0) {
        t + replace_all_spec(h.skip(f.len() as int), f, t)
    } else {
        seq![h[0]] + replace_all_spec(h.skip(1), f, t)
    }
}

/// Replace every occurrence of `f` in `h` by `t`.
pub fn replace_all(h: &[u8], f: &[u8], t: &[u8]) -> (r: Vec<u8>)
    requires
        f@.len() >= 1,
    ensures
        r@ == replace_all_spec(h@, f@, t@),
{
    let mut out: Vec<u8> = Vec::new();
    let mut i: usize = 0;
    proof {
        assert(h@.skip(0) =~= h@);
    }
    while i < h.len()
        invariant
            f@.len() >= 1,
            i <= h.len(),
            replace_all_spec(h@, f@, t@) == out@ + replace_all_spec(h@.skip(i as int), f@, t@),
        decreases h.len() - i,
    {
        let ghost pre_out = out@;
        let ghost suffix = h@.skip(i as int);
        if match_at(h, f, i) {
            proof {
                lemma_matches_skip(h@, f@, i as int, 0);
                lemma_skip_skip(h@, i as int, f@.len() as int);
            }
            push_all(&mut out, t);
            i += f.len();
            proof {
                assert(replace_all_spec(suffix, f@, t@) == t@ + replace_all_spec(
                    h@.skip(i as int),
                    f@,
                    t@,
                ));
                assert(pre_out + (t@ + replace_all_spec(h@.skip(i as int), f@, t@)) =~= (pre_out
                    + t@) + replace_all_spec(h@.skip(i as int), f@, t@));
            }
        } else {
            proof {
                lemma_matches_skip(h@, f@, i as int, 0);
                lemma_skip_skip(h@, i as int, 1);
            }
            out.push(h[i]);
            i += 1;
            proof {
                assert(suffix[0] == h@[i - 1]);
                assert(replace_all_spec(suffix, f@, t@) == seq![h@[i - 1]] + replace_all_spec(
                    h@.skip(i as int),
                    f@,
                    t@,
                ));
                assert(pre_out + (seq![h@[i - 1]] + replace_all_spec(h@.skip(i as int), f@, t@))
                    =~= pre_out.push(h@[i - 1]) + replace_all_spec(h@.skip(i as int), f@, t@));
            }
        }
    }
    proof {
        assert(h@.skip(h@.len() as int) =~= Seq::<u8>::empty());
        assert(out@ + Seq::<u8>::empty() =~= out@);
    }
    out
}

/// Does `h` end with `n`?
pub fn ends_with(h: &[u8], n: &[u8]) -> (r: bool)
    ensures
        r == (n@.len() <= h@.len() && h@.skip(h@.len() - n@.len()) == n@),
{
    if n.len() > h.len() {
        return false;
    }
    let r = match_at(h, n, h.len() - n.len());
    proof {
        assert(h@.subrange(h@.len() - n@.len(), h@.len() as int) =~= h@.skip(
            h@.len() - n@.len(),
        ));
    }
    r
}

/// Lexicographic order on byte strings.
pub open spec fn lex_le(a: Seq<u8>, b: Seq<u8>) -> bool
    decreases a.len(),
{
    if a.len() == 0 {
        true
    } else if b.len() == 0 {
        false
    } else if a[0] < b[0] {
        true
    } else if a[0] > b[0] {
        false
    } else {
        lex_le(a.skip(1), b.skip(1))
    }
}

/// Decide `lex_le` on byte strings.
pub fn bytes_le(a: &[u8], b: &[u8]) -> (r: bool)
    ensures
        r == lex_le(a@, b@),
{
    let mut i: usize = 0;
    proof {
        assert(a@.skip(0) =~= a@);
        assert(b@.skip(0) =~= b@);
    }
    loop
        invariant
            i <= a@.len(),
            i <= b@.len(),
            lex_le(a@, b@) == lex_le(a@.skip(i as int), b@.skip(i as int)),
        decreases a@.len() - i,
    {
        if i >= a.len() {
            return true;
        }
        if i >= b.len() {
            return false;
        }
        if a[i] < b[i] {
            proof {
                assert(a@.skip(i as int)[0] == a@[i as int]);
                assert(b@.skip(i as int)[0] == b@[i as int]);
            }
            return true;
        }
        if a[i] > b[i] {
            proof {
                assert(a@.skip(i as int)[0] == a@[i as int]);
                assert(b@.skip(i as int)[0] == b@[i as int]);
            }
            return false;
        }
        proof {
            assert(a@.skip(i as int)[0] == a@[i as int]);
            assert(b@.skip(i as int)[0] == b@[i as int]);
            lemma_skip_skip(a@, i as int, 1);
            lemma_skip_skip(b@, i as int, 1);
        }
        i += 1;
    }
}


/// Lexicographic order is total.
pub proof fn lemma_lex_le_total(a: Seq<u8>, b: Seq<u8>)
    ensures
        lex_le(a, b) || lex_le(b, a),
    decreases a.len(),
{
    if a.len() > 0 && b.len() > 0 && a[0] == b[0] {
        lemma_lex_le_total(a.skip(1), b.skip(1));
    }
}

/// Lexicographic order is antisymmetric.
pub proof fn lemma_lex_le_antisym(a: Seq<u8>, b: Seq<u8>)
    requires
        lex_le(a, b),
        lex_le(b, a),
    ensures
        a == b,
    decreases a.len(),
{
    if a.len() == 0 {
        assert(a =~= b);
    } else {
        lemma_lex_le_antisym(a.skip(1), b.skip(1));
        assert forall|i: int| 0 <= i < a.len() implies a[i] == b[i] by {
            if i > 0 {
                assert(a.skip(1)[i - 1] == b.skip(1)[i - 1]);
            }
        }
        assert(a.len() == b.len()) by {
            assert(a.skip(1).len() == b.skip(1).len());
        }
        assert(a =~= b);
    }
}

/// Lexicographic order is transitive.
pub proof fn lemma_lex_le_trans(a: Seq<u8>, b: Seq<u8>, c: Seq<u8>)
    requires
        lex_le(a, b),
        lex_le(b, c),
    ensures
        lex_le(a, c),
    decreases a.len(),
{
    if a.len() > 0 && b.len() > 0 && c.len() > 0 && a[0] == b[0] && b[0] == c[0] {
        lemma_lex_le_trans(a.skip(1), b.skip(1), c.skip(1));
    }
}

/// Length of the first line of `s` (everything before the first newline).
pub open spec fn line_len(s: Seq<u8>) -> int
    decreases s.len(),
{
    if s.len() == 0 {
        0
    } else if s[0] == 10 {
        0
    } else {
        1 + line_len(s.skip(1))
    }
}

pub proof fn lemma_line_len_bounds(s: Seq<u8>)
    ensures
        0 <= line_len(s) <= s.len(),
    decreases s.len(),
{
    if s.len() > 0 && s[0] != 10 {
        lemma_line_len_bounds(s.skip(1));
    }
}

/// Index just past the first line of `s`.
pub fn first_line_end(s: &[u8]) -> (r: usize)
    ensures
        r == line_len(s@),
        r <= s@.len(),
{
    let mut i: usize = 0;
    proof {
        assert(s@.skip(0) =~= s@);
    }
    while i < s.len()
        invariant
            i <= s@.len(),
            line_len(s@) == i + line_len(s@.skip(i as int)),
        decreases s.len() - i,
    {
        if s[i] == 10 {
            proof {
                assert(s@.skip(i as int)[0] == s@[i as int]);
            }
            proof {
                lemma_line_len_bounds(s@);
            }
            return i;
        }
        proof {
            assert(s@.skip(i as int)[0] == s@[i as int]);
            lemma_skip_skip(s@, i as int, 1);
        }
        i += 1;
    }
    proof {
        assert(s@.skip(s@.len() as int) =~= Seq::<u8>::empty());
        lemma_line_len_bounds(s@);
    }
    s.len()
}

/// ASCII whitespace, as trimmed from titles.
pub open spec fn is_ws(b: u8) -> bool {
    b == 32 || b == 9 || b == 13 || b == 10
}

/// `s` with leading and trailing ASCII whitespace removed.
pub open spec fn trim_spec(s: Seq<u8>) -> Seq<u8>
    decreases s.len(),
{
    if s.len() == 0 {
        s
    } else if is_ws(s[0]) {
        trim_spec(s.skip(1))
    } else if is_ws(s[s.len() - 1]) {
        trim_spec(s.drop_last())
    } else {
        s
    }
}

/// Remove leading and trailing ASCII whitespace.
pub fn trim(s: &[u8]) -> (r: Vec<u8>)
    ensures
        r@ == trim_spec(s@),
{
    let mut lo: usize = 0;
    let mut hi: usize = s.len();
    proof {
        assert(s@.subrange(0, s@.len() as int) =~= s@);
    }
    while lo < hi
        invariant
            lo <= hi <= s@.len(),
            trim_spec(s@) == trim_spec(s@.subrange(lo as int, hi as int)),
        ensures
            lo <= hi <= s@.len(),
            trim_spec(s@) == trim_spec(s@.subrange(lo as int, hi as int)),
            lo == hi || !is_ws(s@[lo as int]),
        decreases hi - lo,
    {
        let b = s[lo];
        if !(b == 32 || b == 9 || b == 13 || b == 10) {
            break;
        }
        proof {
            let sub = s@.subrange(lo as int, hi as int);
            assert(sub[0] == s@[lo as int]);
            assert(sub.skip(1) =~= s@.subrange(lo + 1, hi as int));
        }
        lo += 1;
    }
    while lo < hi
        invariant
            lo <= hi <= s@.len(),
            trim_spec(s@) == trim_spec(s@.subrange(lo as int, hi as int)),
            lo == hi || !is_ws(s@[lo as int]),
        ensures
            lo <= hi <= s@.len(),
            trim_spec(s@) == trim_spec(s@.subrange(lo as int, hi as int)),
            lo == hi || !is_ws(s@[lo as int]),
            lo == hi || !is_ws(s@[hi - 1]),
        decreases hi - lo,
    {
        let b = s[hi - 1];
        if !(b == 32 || b == 9 || b == 13 || b == 10) {
            break;
        }
        proof {
            let sub = s@.subrange(lo as int, hi as int);
            assert(sub[0] == s@[lo as int]);
            assert(sub[sub.len() - 1] == s@[hi - 1]);
            assert(sub.drop_last() =~= s@.subrange(lo as int, hi - 1));
        }
        hi -= 1;
    }
    proof {
        let sub = s@.subrange(lo as int, hi as int);
        if lo < hi {
            assert(sub[0] == s@[lo as int]);
            assert(sub[sub.len() - 1] == s@[hi - 1]);
        }
    }
    sub_vec(s, lo, hi)
}

/// `s` with its maximal leading run of `b` removed.
pub open spec fn drop_leading_spec(s: Seq<u8>, b: u8) -> Seq<u8>
    decreases s.len(),
{
    if s.len() > 0 && s[0] == b {
        drop_leading_spec(s.skip(1), b)
    } else {
        s
    }
}

/// Remove the maximal leading run of `b` from `s`.
pub fn drop_leading(s: &[u8], b: u8) -> (r: Vec<u8>)
    ensures
        r@ == drop_leading_spec(s@, b),
{
    let mut i: usize = 0;
    proof {
        assert(s@.skip(0) =~= s@);
    }
    while i < s.len()
        invariant
            i <= s@.len(),
            drop_leading_spec(s@, b) == drop_leading_spec(s@.skip(i as int), b),
        decreases s.len() - i,
    {
        if s[i] != b {
            proof {
                assert(s@.skip(i as int)[0] == s@[i as int]);
                assert(s@.skip(i as int) =~= s@.subrange(i as int, s@.len() as int));
            }
            return sub_vec(s, i, s.len());
        }
        proof {
            assert(s@.skip(i as int)[0] == s@[i as int]);
            lemma_skip_skip(s@, i as int, 1);
        }
        i += 1;
    }
    proof {
        assert(s@.skip(s@.len() as int) =~= Seq::<u8>::empty());
    }
    Vec::new()
}

/// Does `s` contain the byte `b`?
pub fn contains_byte(s: &[u8], b: u8) -> (r: bool)
    ensures
        r == s@.contains(b),
{
    let mut i: usize = 0;
    while i < s.len()
        invariant
            i <= s@.len(),
            forall|k: int| 0 <= k < i ==> s@[k] != b,
        decreases s.len() - i,
    {
        if s[i] == b {
            return true;
        }
        i += 1;
    }
    false
}

/// A fresh copy of a byte vector.
pub fn clone_bytes(v: &Vec<u8>) -> (r: Vec<u8>)
    ensures
        r@ == v@,
{
    vstd::slice::slice_to_vec(v.as_slice())
}

/// A one-byte vector, for single-byte search needles.
pub fn byte_vec1(b: u8) -> (r: Vec<u8>)
    ensures
        r@ == seq![b],
{
    let mut v: Vec<u8> = Vec::new();
    v.push(b);
    proof {
        assert(v@ =~= seq![b]);
    }
    v
}

} // verus!
