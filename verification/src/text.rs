use vstd::prelude::*;
use vstd::string::StringExecFns;
use vstd::utf8::{encode_utf8, encode_scalar, is_ascii_chars, is_ascii_chars_nat_bound, is_ascii_chars_encode_utf8};
use crate::hashing::hex_char;

verus! {

/// Decimal digits of a nonnegative number, most significant first.
pub open spec fn spec_u64_chars(n: u64) -> Seq<char>
    decreases n,
{
    if n < 10 {
        seq![hex_char(n as u8)]
    } else {
        spec_u64_chars(n / 10).push(hex_char((n % 10) as u8))
    }
}

/// Decimal form of a signed number, with a leading minus sign if negative.
pub open spec fn spec_i64_chars(t: i64) -> Seq<char> {
    if t >= 0 {
        spec_u64_chars(t as u64)
    } else {
        seq!['-'] + spec_u64_chars(((-(t + 1)) as u64 + 1) as u64)
    }
}

/// The one-character string for a decimal digit.
pub fn digit_str(d: u8) -> (r: &'static str)
    requires
        d < 10,
    ensures
        r@ == seq![hex_char(d)],
{
    proof {
        reveal_strlit("0");
        reveal_strlit("1");
        reveal_strlit("2");
        reveal_strlit("3");
        reveal_strlit("4");
        reveal_strlit("5");
        reveal_strlit("6");
        reveal_strlit("7");
        reveal_strlit("8");
        reveal_strlit("9");
    }
    let r = match d {
        0 => "0",
        1 => "1",
        2 => "2",
        3 => "3",
        4 => "4",
        5 => "5",
        6 => "6",
        7 => "7",
        8 => "8",
        _ => "9",
    };
    proof {
        assert(r@ =~= seq![hex_char(d)]);
    }
    r
}

/// Formats a number in decimal.
pub fn u64_string(n: u64) -> (r: String)
    ensures
        r@ == spec_u64_chars(n),
    decreases n,
{
    if n < 10 {
        digit_str(n as u8).to_owned()
    } else {
        let mut s = u64_string(n / 10);
        s.append(digit_str((n % 10) as u8));
        proof {
            assert(s@ =~= spec_u64_chars(n));
        }
        s
    }
}

/// Formats a signed number in decimal.
pub fn i64_string(t: i64) -> (r: String)
    ensures
        r@ == spec_i64_chars(t),
{
    if t >= 0 {
        u64_string(t as u64)
    } else {
        let m: u64 = (-(t + 1)) as u64 + 1;
        let mut s = "-".to_owned();
        s.append(u64_string(m).as_str());
        proof {
            reveal_strlit("-");
            assert(s@ =~= spec_i64_chars(t));
        }
        s
    }
}

/// An ASCII character encodes as the single byte of its own code.
pub proof fn lemma_encode_prefix_ascii(s: Seq<char>, n: int)
    requires
        0 <= n <= s.len(),
        forall|i: int| 0 <= i < n ==> (#[trigger] s[i] as u32) < 0x80,
    ensures
        encode_utf8(s).len() >= n,
        forall|i: int| 0 <= i < n ==> encode_utf8(s)[i] == (s[i] as u32) as u8,
    decreases n,
{
    if n > 0 {
        let v = s[0] as u32;
        let e0 = encode_scalar(v);
        assert(encode_utf8(s) == e0 + encode_utf8(s.drop_first()));
        assert(e0 =~= seq![((v & 0x7F) as u8)]);
        assert(v & 0x7F == v) by (bit_vector)
            requires
                v < 0x80,
        ;
        let d = s.drop_first();
        assert forall|i: int| 0 <= i < n - 1 implies (#[trigger] d[i] as u32) < 0x80 by {
            assert(d[i] == s[i + 1]);
        }
        lemma_encode_prefix_ascii(d, n - 1);
        assert forall|i: int| 0 <= i < n implies encode_utf8(s)[i] == (s[i] as u32) as u8 by {
            if i > 0 {
                assert(encode_utf8(s)[i] == encode_utf8(d)[i - 1]);
                assert(d[i - 1] == s[i]);
            }
        }
    }
}

/// When every byte of a UTF-8 encoding is ASCII, the encoding is one byte
/// per character.
pub proof fn lemma_ascii_bytes_one_per_char(s: Seq<char>)
    requires
        forall|i: int| 0 <= i < encode_utf8(s).len() ==> #[trigger] encode_utf8(s)[i] < 0x80,
    ensures
        encode_utf8(s).len() == s.len(),
    decreases s.len(),
{
    if s.len() > 0 {
        let v = s[0] as u32;
        let e0 = encode_scalar(v);
        assert(encode_utf8(s) == e0 + encode_utf8(s.drop_first()));
        assert(e0.len() >= 1);
        assert(encode_utf8(s)[0] == e0[0]);
        if v >= 0x80 {
            if v <= 0x7FF {
                let b: u8 = ((v >> 6) & 0x1F) as u8;
                assert(e0[0] == 0xC0u8 | b);
                assert(0xC0u8 | b >= 0x80) by (bit_vector);
            } else if v <= 0xFFFF && !(0xD800 <= v && v <= 0xDFFF) {
                let b: u8 = ((v >> 12) & 0x0F) as u8;
                assert(e0[0] == 0xE0u8 | b);
                assert(0xE0u8 | b >= 0x80) by (bit_vector);
            } else {
                let b: u8 = ((v >> 18) & 0x7) as u8;
                assert(e0[0] == 0xF0u8 | b);
                assert(0xF0u8 | b >= 0x80) by (bit_vector);
            }
            assert(false);
        }
        assert(e0 =~= seq![((v & 0x7F) as u8)]);
        let d = s.drop_first();
        assert forall|i: int| 0 <= i < encode_utf8(d).len() implies #[trigger] encode_utf8(
            d,
        )[i] < 0x80 by {
            assert(encode_utf8(s)[i + 1] == encode_utf8(d)[i]);
        }
        lemma_ascii_bytes_one_per_char(d);
    }
}

/// ASCII text encodes pointwise: byte values are character codes, below 0x80.
pub proof fn lemma_ascii_chars_bytes(s: Seq<char>)
    requires
        is_ascii_chars(s),
    ensures
        encode_utf8(s).len() == s.len(),
        forall|i: int|
            0 <= i < s.len() ==> #[trigger] encode_utf8(s)[i] == s[i] as u8 && encode_utf8(
                s,
            )[i] < 0x80,
{
    is_ascii_chars_encode_utf8(s);
    is_ascii_chars_nat_bound(s);
}

} // verus!
