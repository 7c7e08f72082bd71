//! Byte-string helpers: prefix/suffix tests, slash trimming, concatenation,
//! and conversion of string literals to their UTF-8 bytes.

use vstd::prelude::*;
use vstd::string::StrSliceExecFns;
use vstd::string::StringSliceAdditionalSpecFns;

verus! {

/// The byte value of `/`, the directory separator in URL paths.
pub const SLASH: u8 = 47;

/// `p` is a prefix of `s`.
pub open spec fn is_prefix(p: Seq<u8>, s: Seq<u8>) -> bool {
    p.len() <= s.len() && s.subrange(0, p.len() as int) == p
}

/// `p` is a suffix of `s`.
pub open spec fn is_suffix(p: Seq<u8>, s: Seq<u8>) -> bool {
    p.len() <= s.len() && s.subrange(s.len() - p.len(), s.len() as int) == p
}

/// `s` with every leading occurrence of `c` removed.
pub open spec fn strip_leading(s: Seq<u8>, c: u8) -> Seq<u8>
    decreases s.len(),
{
    if s.len() > 0 && s[0] == c {
        strip_leading(s.drop_first(), c)
    } else {
        s
    }
}

/// `s` with every trailing occurrence of `c` removed.
pub open spec fn strip_trailing(s: Seq<u8>, c: u8) -> Seq<u8>
    decreases s.len(),
{
    if s.len() > 0 && s.last() == c {
        strip_trailing(s.drop_last(), c)
    } else {
        s
    }
}

/// `s` with leading and trailing occurrences of `c` removed.
pub open spec fn strip_both(s: Seq<u8>, c: u8) -> Seq<u8> {
    strip_trailing(strip_leading(s, c), c)
}

/// The UTF-8 bytes of a string slice, usable in specifications.
pub open spec fn lit(s: &str) -> Seq<u8> {
    s.spec_bytes()
}

/// The UTF-8 bytes of a string slice, as a fresh byte vector.
pub fn str_to_bytes(s: &str) -> (r: Vec<u8>)
    ensures
        r@ == lit(s),
{
    s.as_bytes_vec()
}

/// `a` followed by `b`, as a fresh byte vector.
pub fn concat_bytes(a: &Vec<u8>, b: &Vec<u8>) -> (r: Vec<u8>)
    ensures
        r@ == a@ + b@,
{
    let mut r: Vec<u8> = Vec::new();
    r.extend_from_slice(a.as_slice());
    r.extend_from_slice(b.as_slice());
    assert(r@ =~= a@ + b@);
    r
}

/// Whether `p` is a prefix of `s`.
pub fn starts_with_bytes(s: &Vec<u8>, p: &Vec<u8>) -> (r: bool)
    ensures
        r == is_prefix(p@, s@),
{
    if p.len() > s.len() {
        return false;
    }
    let mut i: usize = 0;
    while i < p.len()
        invariant
            i <= p.len() <= s.len(),
            forall|j: int| 0 <= j < i ==> s@[j] == p@[j],
        decreases p.len() - i,
    {
        if s[i] != p[i] {
            assert(s@.subrange(0, p.len() as int)[i as int] != p@[i as int]);
            return false;
        }
        i += 1;
    }
    assert(s@.subrange(0, p.len() as int) =~= p@);
    true
}

/// Whether `p` is a suffix of `s`.
pub fn ends_with_bytes(s: &Vec<u8>, p: &Vec<u8>) -> (r: bool)
    ensures
        r == is_suffix(p@, s@),
{
    if p.len() > s.len() {
        return false;
    }
    let off: usize = s.len() - p.len();
    let mut i: usize = 0;
    while i < p.len()
        invariant
            off == s.len() - p.len(),
            i <= p.len() <= s.len(),
            forall|j: int| 0 <= j < i ==> s@[off + j] == p@[j],
        decreases p.len() - i,
    {
        if s[off + i] != p[i] {
            assert(s@.subrange(s@.len() - p@.len(), s@.len() as int)[i as int] != p@[i as int]);
            return false;
        }
        i += 1;
    }
    assert(s@.subrange(s@.len() - p@.len(), s@.len() as int) =~= p@);
    true
}

/// A copy of `s[from..to]`.
pub fn copy_range(s: &Vec<u8>, from: usize, to: usize) -> (r: Vec<u8>)
    requires
        from <= to <= s@.len(),
    ensures
        r@ == s@.subrange(from as int, to as int),
{
    let mut r: Vec<u8> = Vec::new();
    let mut i: usize = from;
    while i < to
        invariant
            from <= i <= to <= s@.len(),
            r@ == s@.subrange(from as int, i as int),
        decreases to - i,
    {
        r.push(s[i]);
        assert(r@ =~= s@.subrange(from as int, i + 1));
        i += 1;
    }
    r
}

proof fn lemma_strip_leading_skip(s: Seq<u8>, c: u8, i: int)
    requires
        0 <= i <= s.len(),
        forall|j: int| 0 <= j < i ==> s[j] == c,
        i == s.len() || s[i] != c,
    ensures
        strip_leading(s, c) == s.skip(i),
    decreases i,
{
    if i == 0 {
        assert(s.skip(0) =~= s);
    } else {
        assert(s[0] == c);
        assert(s.drop_first() =~= s.skip(1));
        lemma_strip_leading_skip(s.skip(1), c, i - 1);
        assert(s.skip(1).skip(i - 1) =~= s.skip(i));
    }
}

proof fn lemma_strip_trailing_take(s: Seq<u8>, c: u8, i: int)
    requires
        0 <= i <= s.len(),
        forall|j: int| i <= j < s.len() ==> s[j] == c,
        i == 0 || s[i - 1] != c,
    ensures
        strip_trailing(s, c) == s.take(i),
    decreases s.len() - i,
{
    if i == s.len() {
        assert(s.take(i) =~= s);
    } else {
        assert(s.last() == c);
        assert(s.drop_last() =~= s.take(s.len() - 1));
        lemma_strip_trailing_take(s.take(s.len() - 1), c, i);
        assert(s.take(s.len() - 1).take(i) =~= s.take(i));
    }
}

/// A copy of `s` with every leading occurrence of `c` removed.
pub fn strip_leading_bytes(s: &Vec<u8>, c: u8) -> (r: Vec<u8>)
    ensures
        r@ == strip_leading(s@, c),
{
    let mut i: usize = 0;
    while i < s.len() && s[i] == c
        invariant
            i <= s@.len(),
            forall|j: int| 0 <= j < i ==> s@[j] == c,
        decreases s.len() - i,
    {
        i += 1;
    }
    proof {
        lemma_strip_leading_skip(s@, c, i as int);
    }
    copy_range(s, i, s.len())
}

/// A copy of `s` with every trailing occurrence of `c` removed.
pub fn strip_trailing_bytes(s: &Vec<u8>, c: u8) -> (r: Vec<u8>)
    ensures
        r@ == strip_trailing(s@, c),
{
    let mut i: usize = s.len();
    while i > 0 && s[i - 1] == c
        invariant
            i <= s@.len(),
            forall|j: int| i <= j < s@.len() ==> s@[j] == c,
        decreases i,
    {
        i -= 1;
    }
    proof {
        lemma_strip_trailing_take(s@, c, i as int);
    }
    copy_range(s, 0, i)
}

/// A copy of `s` with leading and trailing occurrences of `c` removed.
pub fn strip_both_bytes(s: &Vec<u8>, c: u8) -> (r: Vec<u8>)
    ensures
        r@ == strip_both(s@, c),
{
    let t = strip_leading_bytes(s, c);
    strip_trailing_bytes(&t, c)
}

/// `s` with the prefix `p` removed once, or `s` unchanged when `p` is no
/// prefix of it.
pub open spec fn strip_prefix_once(s: Seq<u8>, p: Seq<u8>) -> Seq<u8> {
    if is_prefix(p, s) {
        s.skip(p.len() as int)
    } else {
        s
    }
}

/// A copy of `s` with the prefix `p` removed once, if present.
pub fn strip_prefix_once_bytes(s: &Vec<u8>, p: &Vec<u8>) -> (r: Vec<u8>)
    ensures
        r@ == strip_prefix_once(s@, p@),
{
    if starts_with_bytes(s, p) {
        let r = copy_range(s, p.len(), s.len());
        assert(r@ =~= s@.skip(p@.len() as int));
        r
    } else {
        let r = copy_range(s, 0, s.len());
        assert(r@ =~= s@);
        r
    }
}

/// `a` and `b` joined by exactly one slash at the joint: trailing slashes
/// of `a` are trimmed, and a slash is added when `b` does not begin with
/// one.
pub open spec fn join_one_slash(a: Seq<u8>, b: Seq<u8>) -> Seq<u8> {
    strip_trailing(a, SLASH) + (if b.len() > 0 && b[0] == SLASH {
        b
    } else {
        seq![SLASH] + b
    })
}

/// `a` and `b` joined by exactly one slash at the joint.
pub fn join_one_slash_bytes(a: &Vec<u8>, b: &Vec<u8>) -> (r: Vec<u8>)
    ensures
        r@ == join_one_slash(a@, b@),
{
    let mut r = strip_trailing_bytes(a, SLASH);
    let ghost head = r@;
    if !(b.len() > 0 && b[0] == SLASH) {
        r.push(SLASH);
        r.extend_from_slice(b.as_slice());
        assert(r@ =~= head + (seq![SLASH] + b@));
    } else {
        r.extend_from_slice(b.as_slice());
    }
    r
}

} // verus!
