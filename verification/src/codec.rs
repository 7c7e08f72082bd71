//! Percent-encoding of generated links and percent-decoding of request
//! paths, on raw bytes.
//!
//! The kept-byte set is exactly: ASCII alphanumerics and `_ / \ . # ` { }`.
//! Every other byte of a link becomes `%XX` with uppercase hex digits.
//! Decoding accepts upper- and lowercase hex and leaves malformed escapes
//! untouched.

use vstd::prelude::*;
use vstd::arithmetic::div_mod::lemma_fundamental_div_mod;

verus! {

/// Bytes that generated links keep verbatim: ASCII alphanumerics and
/// `_ / \ . # ` { }`.
pub open spec fn is_kept(b: u8) -> bool {
    (65 <= b <= 90) || (97 <= b <= 122) || (48 <= b <= 57) || b == 95 || b == 47
        || b == 92 || b == 46 || b == 35 || b == 96 || b == 123 || b == 125
}

/// The uppercase hex digit for a value below 16.
pub open spec fn hex_digit(n: int) -> u8 {
    if n < 10 {
        (48 + n) as u8
    } else {
        (55 + n) as u8
    }
}

/// The value of a hex digit byte, or -1 if `b` is no hex digit.
pub open spec fn hex_val(b: u8) -> int {
    if 48 <= b <= 57 {
        b - 48
    } else if 65 <= b <= 70 {
        b - 55
    } else if 97 <= b <= 102 {
        b - 87
    } else {
        -1
    }
}

/// `b` is an upper- or lowercase hex digit.
pub open spec fn is_hex(b: u8) -> bool {
    hex_val(b) >= 0
}

/// The encoding of a single byte: itself if kept, else `%XX`.
pub open spec fn enc_byte(b: u8) -> Seq<u8> {
    if is_kept(b) {
        seq![b]
    } else {
        seq![37u8, hex_digit(b as int / 16), hex_digit(b as int % 16)]
    }
}

/// The percent-encoding of a byte string.
pub open spec fn encode_spec(s: Seq<u8>) -> Seq<u8>
    decreases s.len(),
{
    if s.len() == 0 {
        Seq::empty()
    } else {
        enc_byte(s[0]) + encode_spec(s.drop_first())
    }
}

/// The percent-decoding of a byte string: each well-formed `%XX` escape
/// becomes its byte; everything else is kept as it stands.
pub open spec fn decode_spec(s: Seq<u8>) -> Seq<u8>
    decreases s.len(),
{
    if s.len() == 0 {
        Seq::empty()
    } else if s[0] == 37u8 && s.len() >= 3 && is_hex(s[1]) && is_hex(s[2]) {
        seq![(hex_val(s[1]) * 16 + hex_val(s[2])) as u8] + decode_spec(s.skip(3))
    } else {
        seq![s[0]] + decode_spec(s.drop_first())
    }
}

fn is_kept_byte(b: u8) -> (r: bool)
    ensures
        r == is_kept(b),
{
    (65 <= b && b <= 90) || (97 <= b && b <= 122) || (48 <= b && b <= 57) || b == 95
        || b == 47 || b == 92 || b == 46 || b == 35 || b == 96 || b == 123 || b == 125
}

fn hex_digit_byte(n: u8) -> (r: u8)
    requires
        n < 16,
    ensures
        r == hex_digit(n as int),
{
    if n < 10 {
        48 + n
    } else {
        55 + n
    }
}

fn is_hex_byte(b: u8) -> (r: bool)
    ensures
        r == is_hex(b),
{
    (48 <= b && b <= 57) || (65 <= b && b <= 70) || (97 <= b && b <= 102)
}

fn hex_val_byte(b: u8) -> (r: u8)
    requires
        is_hex(b),
    ensures
        r == hex_val(b),
{
    if 48 <= b && b <= 57 {
        b - 48
    } else if 65 <= b && b <= 70 {
        b - 55
    } else {
        b - 87
    }
}

proof fn lemma_encode_push(a: Seq<u8>, x: u8)
    ensures
        encode_spec(a.push(x)) == encode_spec(a) + enc_byte(x),
    decreases a.len(),
{
    if a.len() == 0 {
        assert(a.push(x).drop_first() =~= Seq::<u8>::empty());
        assert(a.push(x)[0] == x);
        assert(encode_spec(Seq::<u8>::empty()) == Seq::<u8>::empty());
        assert(encode_spec(a.push(x)) == enc_byte(x) + encode_spec(a.push(x).drop_first()));
        assert(encode_spec(a.push(x)) == enc_byte(x) + Seq::<u8>::empty());
        assert(enc_byte(x) + Seq::<u8>::empty() =~= enc_byte(x));
        assert(encode_spec(a) + enc_byte(x) =~= enc_byte(x));
    } else {
        assert(a.push(x).drop_first() =~= a.drop_first().push(x));
        lemma_encode_push(a.drop_first(), x);
        assert(encode_spec(a.push(x)) == enc_byte(a[0]) + (encode_spec(a.drop_first()) + enc_byte(
            x,
        )));
        assert(enc_byte(a[0]) + (encode_spec(a.drop_first()) + enc_byte(x)) =~= (enc_byte(a[0])
            + encode_spec(a.drop_first())) + enc_byte(x));
    }
}

/// Percent-encode `s` with the kept-byte set of this layer.
pub fn percent_encode(s: &Vec<u8>) -> (r: Vec<u8>)
    ensures
        r@ == encode_spec(s@),
{
    let mut out: Vec<u8> = Vec::new();
    let mut i: usize = 0;
    while i < s.len()
        invariant
            i <= s@.len(),
            out@ == encode_spec(s@.take(i as int)),
        decreases s.len() - i,
    {
        let b = s[i];
        if is_kept_byte(b) {
            out.push(b);
            assert(out@ =~= encode_spec(s@.take(i as int)) + enc_byte(b));
        } else {
            out.push(37u8);
            out.push(hex_digit_byte(b / 16));
            out.push(hex_digit_byte(b % 16));
            assert(out@ =~= encode_spec(s@.take(i as int)) + enc_byte(b));
        }
        proof {
            assert(s@.take(i + 1) =~= s@.take(i as int).push(s@[i as int]));
            lemma_encode_push(s@.take(i as int), s@[i as int]);
        }
        i += 1;
    }
    proof {
        assert(s@.take(s@.len() as int) =~= s@);
    }
    out
}

/// Percent-decode `s`, leaving malformed escapes untouched.
pub fn percent_decode(s: &Vec<u8>) -> (r: Vec<u8>)
    ensures
        r@ == decode_spec(s@),
{
    let mut out: Vec<u8> = Vec::new();
    let mut i: usize = 0;
    proof {
        assert(s@.skip(0) =~= s@);
        assert(Seq::<u8>::empty() + decode_spec(s@) =~= decode_spec(s@));
    }
    while i < s.len()
        invariant
            i <= s@.len(),
            decode_spec(s@) == out@ + decode_spec(s@.skip(i as int)),
        decreases s.len() - i,
    {
        let ghost t = s@.skip(i as int);
        let ghost out0 = out@;
        if s[i] == 37u8 && s.len() - i >= 3 && is_hex_byte(s[i + 1]) && is_hex_byte(s[i + 2]) {
            let hi = hex_val_byte(s[i + 1]);
            let lo = hex_val_byte(s[i + 2]);
            out.push(hi * 16 + lo);
            proof {
                assert(t[0] == 37u8 && t.len() >= 3 && t[1] == s@[i + 1] && t[2] == s@[i + 2]);
                assert(t.skip(3) =~= s@.skip(i + 3));
                assert(decode_spec(t) == seq![(hex_val(t[1]) * 16 + hex_val(t[2])) as u8]
                    + decode_spec(s@.skip(i + 3)));
                assert(out@ =~= out0 + seq![(hex_val(t[1]) * 16 + hex_val(t[2])) as u8]);
                assert(out0 + decode_spec(t) =~= out@ + decode_spec(s@.skip(i + 3)));
            }
            i += 3;
        } else {
            out.push(s[i]);
            proof {
                assert(!(t[0] == 37u8 && t.len() >= 3 && is_hex(t[1]) && is_hex(t[2])));
                assert(t.drop_first() =~= s@.skip(i + 1));
                assert(decode_spec(t) == seq![t[0]] + decode_spec(s@.skip(i + 1)));
                assert(out@ =~= out0 + seq![t[0]]);
                assert(out0 + decode_spec(t) =~= out@ + decode_spec(s@.skip(i + 1)));
            }
            i += 1;
        }
    }
    proof {
        assert(s@.skip(s@.len() as int) =~= Seq::<u8>::empty());
    }
    out
}

proof fn lemma_hex_digit_val(n: int)
    requires
        0 <= n < 16,
    ensures
        is_hex(hex_digit(n)),
        hex_val(hex_digit(n)) == n,
{
}

/// Decoding undoes encoding: for every byte string `s`,
/// `decode_spec(encode_spec(s)) == s`. Generated links therefore
/// percent-decode back to exactly the names they were built from.
pub proof fn lemma_decode_encode(s: Seq<u8>)
    ensures
        decode_spec(encode_spec(s)) == s,
    decreases s.len(),
{
    if s.len() == 0 {
    } else {
        let b = s[0];
        lemma_decode_encode(s.drop_first());
        let e = encode_spec(s.drop_first());
        if is_kept(b) {
            let t = seq![b] + e;
            assert(encode_spec(s) == t);
            assert(t[0] == b && b != 37u8);
            assert(t.drop_first() =~= e);
            assert(decode_spec(t) == seq![b] + decode_spec(e));
            assert(seq![b] + s.drop_first() =~= s);
        } else {
            let h = hex_digit(b as int / 16);
            let l = hex_digit(b as int % 16);
            let t = seq![37u8, h, l] + e;
            assert(encode_spec(s) == t);
            assert(t[0] == 37u8 && t.len() >= 3 && t[1] == h && t[2] == l);
            lemma_hex_digit_val(b as int / 16);
            lemma_hex_digit_val(b as int % 16);
            lemma_fundamental_div_mod(b as int, 16);
            assert(hex_val(h) * 16 + hex_val(l) == b as int);
            assert(t.skip(3) =~= e);
            assert(decode_spec(t) == seq![b] + decode_spec(e));
            assert(seq![b] + s.drop_first() =~= s);
        }
    }
}

} // verus!
