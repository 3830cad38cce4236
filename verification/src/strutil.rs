//! Small string and character utilities shared across the crate: lossy
//! decoding of raw bytes, decimal formatting, character classification and
//! UTF-8 length bookkeeping.

use vstd::prelude::*;
use vstd::string::StrSliceExecFns;
use vstd::string::StringExecFns;
use vstd::string::StringSliceAdditionalSpecFns;
use vstd::utf8::encode_scalar;
use vstd::utf8::encode_utf8;

verus! {

/// What `String::from_utf8_lossy` returns for the given bytes; it depends
/// on the bytes alone.
pub uninterp spec fn lossy_decode(bytes: Seq<u8>) -> Seq<char>;

/// Relies on `String::from_utf8_lossy`: the result is a pure function of
/// the bytes, and is their UTF-8 decoding whenever they are valid UTF-8.
#[verifier::external_body]
pub fn bytes_to_string_lossy(bytes: &Vec<u8>) -> (r: String)
    ensures
        r@ == lossy_decode(bytes@),
        vstd::utf8::valid_utf8(bytes@) ==> r@ == vstd::utf8::decode_utf8(bytes@),
{
    String::from_utf8_lossy(bytes.as_slice()).to_string()
}

/// The decimal digit character for `d`.
pub open spec fn dec_digit(d: nat) -> char {
    ((48 + d) as u8) as char
}

/// The decimal representation of `n`, most significant digit first.
pub open spec fn dec_str(n: nat) -> Seq<char>
    decreases n,
{
    if n < 10 {
        seq![dec_digit(n)]
    } else {
        dec_str(n / 10).push(dec_digit(n % 10))
    }
}

/// The decimal digit characters of a digit stack, last digit first.
spec fn chars_of_digits_rev(ds: Seq<u8>) -> Seq<char>
    decreases ds.len(),
{
    if ds.len() == 0 {
        Seq::<char>::empty()
    } else {
        seq![dec_digit(ds.last() as nat)] + chars_of_digits_rev(ds.drop_last())
    }
}

/// Append the single decimal digit `d` to `out`.
fn push_digit(out: &mut String, d: usize)
    requires
        d < 10,
    ensures
        final(out)@ == old(out)@ + seq![dec_digit(d as nat)],
{
    let lit = match d {
        0 => "0",
        1 => "1",
        2 => "2",
        3 => "3",
        4 => "4",
        5 => "5",
        6 => "6",
        7 => "7",
        8 => "8",
        _ => "9",
    };
    proof {
        reveal_strlit("0");
        reveal_strlit("1");
        reveal_strlit("2");
        reveal_strlit("3");
        reveal_strlit("4");
        reveal_strlit("5");
        reveal_strlit("6");
        reveal_strlit("7");
        reveal_strlit("8");
        reveal_strlit("9");
        assert(lit@ =~= seq![dec_digit(d as nat)]);
    }
    out.append(lit);
}

/// The decimal representation of `n` as a string.
pub fn usize_to_string(n: usize) -> (r: String)
    ensures
        r@ == dec_str(n as nat),
{
    let mut digits: Vec<u8> = Vec::new();
    let mut m: usize = n;
    digits.push((m % 10) as u8);
    m = m / 10;
    proof {
        assert(chars_of_digits_rev(digits@.drop_last()) =~= Seq::<char>::empty());
        assert(chars_of_digits_rev(digits@) =~= seq![dec_digit((n % 10) as nat)]);
        if n < 10 {
            assert(dec_str(n as nat) =~= seq![dec_digit(n as nat)]);
        }
    }
    while m > 0
        invariant
            m > 0 ==> dec_str(n as nat) == dec_str(m as nat) + chars_of_digits_rev(digits@),
            m == 0 ==> dec_str(n as nat) == chars_of_digits_rev(digits@),
            forall|j: int| 0 <= j < digits@.len() ==> digits@[j] < 10,
        decreases m,
    {
        let ghost prev = digits@;
        digits.push((m % 10) as u8);
        proof {
            assert(digits@.drop_last() =~= prev);
            assert(chars_of_digits_rev(digits@) == seq![dec_digit((m % 10) as nat)]
                + chars_of_digits_rev(prev));
            if m >= 10 {
                assert(dec_str(m as nat) == dec_str((m as nat) / 10).push(
                    dec_digit((m as nat) % 10),
                ));
                assert(dec_str((m as nat) / 10) + chars_of_digits_rev(digits@) =~= dec_str(
                    m as nat,
                ) + chars_of_digits_rev(prev));
            } else {
                assert(dec_str(m as nat) =~= seq![dec_digit(m as nat)]);
                assert(chars_of_digits_rev(digits@) =~= dec_str(m as nat) + chars_of_digits_rev(
                    prev,
                ));
            }
        }
        m = m / 10;
    }
    let mut out = String::new();
    let mut i: usize = digits.len();
    proof {
        assert(digits@.subrange(0, i as int) =~= digits@);
        assert(out@ + chars_of_digits_rev(digits@) =~= dec_str(n as nat));
    }
    while i > 0
        invariant
            i <= digits@.len(),
            forall|j: int| 0 <= j < digits@.len() ==> digits@[j] < 10,
            out@ + chars_of_digits_rev(digits@.subrange(0, i as int)) == dec_str(n as nat),
        decreases i,
    {
        let d = digits[i - 1];
        push_digit(&mut out, d as usize);
        proof {
            let sub = digits@.subrange(0, i as int);
            assert(sub.drop_last() =~= digits@.subrange(0, i - 1 as int));
            assert(chars_of_digits_rev(sub) == seq![dec_digit(sub.last() as nat)]
                + chars_of_digits_rev(sub.drop_last()));
            assert(out@ + chars_of_digits_rev(digits@.subrange(0, i - 1 as int)) =~= dec_str(
                n as nat,
            ));
        }
        i = i - 1;
    }
    proof {
        assert(chars_of_digits_rev(digits@.subrange(0, 0)) =~= Seq::<char>::empty());
        assert(out@ =~= dec_str(n as nat));
    }
    out
}

/// The Unicode white-space characters, by code point.
pub open spec fn is_ws_char(c: char) -> bool {
    let u = c as u32;
    ||| (0x9 <= u && u <= 0xD)
    ||| u == 0x20
    ||| u == 0x85
    ||| u == 0xA0
    ||| u == 0x1680
    ||| (0x2000 <= u && u <= 0x200A)
    ||| u == 0x2028
    ||| u == 0x2029
    ||| u == 0x202F
    ||| u == 0x205F
    ||| u == 0x3000
}

/// Whether `c` is a Unicode white-space character.
pub fn is_whitespace_char(c: char) -> (r: bool)
    ensures
        r == is_ws_char(c),
{
    let u = c as u32;
    (0x9 <= u && u <= 0xD) || u == 0x20 || u == 0x85 || u == 0xA0 || u == 0x1680 || (0x2000 <= u
        && u <= 0x200A) || u == 0x2028 || u == 0x2029 || u == 0x202F || u == 0x205F || u == 0x3000
}

/// The number of bytes of the UTF-8 encoding of `c`.
pub open spec fn char_len(c: char) -> int {
    encode_scalar(c as u32).len() as int
}

/// How many bytes the UTF-8 encoding of `c` takes.
pub fn char_utf8_len(c: char) -> (r: usize)
    ensures
        r == char_len(c),
        1 <= r <= 4,
{
    let u = c as u32;
    proof {
        vstd::utf8::char_is_scalar(c);
        reveal(vstd::utf8::encode_scalar);
    }
    if u < 0x80 {
        1
    } else if u < 0x800 {
        2
    } else if u < 0x10000 {
        3
    } else {
        4
    }
}

/// `encode_utf8` distributes over concatenation.
pub proof fn lemma_encode_utf8_concat(a: Seq<char>, b: Seq<char>)
    ensures
        encode_utf8(a + b) == encode_utf8(a) + encode_utf8(b),
    decreases a.len(),
{
    if a.len() == 0 {
        assert(a + b =~= b);
        assert(encode_utf8(a) =~= Seq::<u8>::empty());
        assert(encode_utf8(a) + encode_utf8(b) =~= encode_utf8(b));
    } else {
        assert((a + b).drop_first() =~= a.drop_first() + b);
        lemma_encode_utf8_concat(a.drop_first(), b);
        assert(encode_utf8(a + b) =~= encode_scalar((a + b)[0] as u32) + (encode_utf8(
            a.drop_first(),
        ) + encode_utf8(b)));
        assert(encode_scalar(a[0] as u32) + encode_utf8(a.drop_first()) + encode_utf8(b)
            =~= encode_scalar((a + b)[0] as u32) + (encode_utf8(a.drop_first()) + encode_utf8(b)));
    }
}

/// The byte length of the UTF-8 encoding of the first `i` characters.
pub open spec fn utf8_prefix_len(chars: Seq<char>, i: int) -> int {
    encode_utf8(chars.subrange(0, i)).len() as int
}

/// Extending a character prefix by one adds that character's byte length.
pub proof fn lemma_utf8_prefix_step(chars: Seq<char>, i: int)
    requires
        0 <= i < chars.len(),
    ensures
        utf8_prefix_len(chars, i + 1) == utf8_prefix_len(chars, i) + char_len(chars[i]),
{
    assert(chars.subrange(0, i + 1) =~= chars.subrange(0, i) + seq![chars[i]]);
    lemma_encode_utf8_concat(chars.subrange(0, i), seq![chars[i]]);
    vstd::utf8::char_is_scalar(chars[i]);
    assert(seq![chars[i]].drop_first() =~= Seq::<char>::empty());
    assert(encode_utf8(Seq::<char>::empty()) =~= Seq::<u8>::empty());
    assert(encode_utf8(seq![chars[i]]) =~= encode_scalar(seq![chars[i]][0] as u32) + encode_utf8(
        seq![chars[i]].drop_first(),
    ));
    assert(encode_utf8(seq![chars[i]]) =~= encode_scalar(chars[i] as u32));
}

/// A character prefix never encodes to more bytes than the whole sequence.
pub proof fn lemma_utf8_prefix_le_total(chars: Seq<char>, i: int)
    requires
        0 <= i <= chars.len(),
    ensures
        0 <= utf8_prefix_len(chars, i) <= encode_utf8(chars).len(),
{
    let a = chars.subrange(0, i);
    let b = chars.subrange(i, chars.len() as int);
    assert(chars =~= a + b);
    lemma_encode_utf8_concat(a, b);
}

/// Whether two string slices hold the same text, by comparing their UTF-8
/// bytes.
pub fn str_eq(a: &str, b: &str) -> (r: bool)
    ensures
        r == (a@ == b@),
{
    proof {
        if a@ == b@ {
            assert(a.spec_bytes() == b.spec_bytes());
        }
        vstd::utf8::encode_utf8_decode_utf8(a@);
        vstd::utf8::encode_utf8_decode_utf8(b@);
    }
    let ab = a.as_bytes();
    let bb = b.as_bytes();
    if ab.len() != bb.len() {
        return false;
    }
    let n = ab.len();
    let mut i: usize = 0;
    while i < n
        invariant
            i <= n == ab@.len() == bb@.len(),
            ab@ == a.spec_bytes(),
            bb@ == b.spec_bytes(),
            forall|j: int| 0 <= j < i ==> ab@[j] == bb@[j],
        decreases n - i,
    {
        if ab[i] != bb[i] {
            proof {
                if a@ == b@ {
                    assert(a.spec_bytes() == b.spec_bytes());
                }
            }
            return false;
        }
        i = i + 1;
    }
    proof {
        assert(ab@ =~= bb@);
        vstd::utf8::encode_utf8_decode_utf8(a@);
        vstd::utf8::encode_utf8_decode_utf8(b@);
        assert(vstd::utf8::decode_utf8(a.spec_bytes()) == a@);
        assert(vstd::utf8::decode_utf8(b.spec_bytes()) == b@);
    }
    true
}

/// The characters of `s`, in order.
pub fn str_chars(s: &str) -> (r: Vec<char>)
    ensures
        r@ == s@,
{
    let n = s.unicode_len();
    let mut out: Vec<char> = Vec::new();
    let mut i: usize = 0;
    while i < n
        invariant
            i <= n == s@.len(),
            out@ == s@.subrange(0, i as int),
        decreases n - i,
    {
        out.push(s.get_char(i));
        assert(out@ =~= s@.subrange(0, i + 1 as int));
        i = i + 1;
    }
    assert(s@.subrange(0, s@.len() as int) =~= s@);
    out
}

} // verus!
