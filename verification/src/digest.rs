//! Content addressing: SHA-256 over a record's characters, written out
//! as the same compact lowercase hex the store has always used (each
//! byte as one or two digits, without a leading zero).

use vstd::prelude::*;
use vstd::string::StrSliceExecFns;
use vstd::string::StringExecFns;
use sha2::Digest;
use crate::strutil::no_char;

verus! {

/// The hex digit for a value below sixteen.
pub open spec fn hex_digit(d: int) -> char {
    if d == 0 {
        '0'
    } else if d == 1 {
        '1'
    } else if d == 2 {
        '2'
    } else if d == 3 {
        '3'
    } else if d == 4 {
        '4'
    } else if d == 5 {
        '5'
    } else if d == 6 {
        '6'
    } else if d == 7 {
        '7'
    } else if d == 8 {
        '8'
    } else if d == 9 {
        '9'
    } else if d == 10 {
        'a'
    } else if d == 11 {
        'b'
    } else if d == 12 {
        'c'
    } else if d == 13 {
        'd'
    } else if d == 14 {
        'e'
    } else {
        'f'
    }
}

/// One byte as compact hex: a single digit below sixteen, two digits
/// otherwise.
pub open spec fn byte_hex(b: u8) -> Seq<char> {
    if b < 16 {
        seq![hex_digit(b as int)]
    } else {
        seq![hex_digit(b as int / 16), hex_digit(b as int % 16)]
    }
}

/// A byte sequence as compact hex.
pub open spec fn hex_of(bs: Seq<u8>) -> Seq<char>
    decreases bs.len(),
{
    if bs.len() == 0 {
        Seq::empty()
    } else {
        hex_of(bs.drop_last()) + byte_hex(bs.last())
    }
}

/// Compact hex is at least one character per byte and never contains a
/// newline, so addresses are safe entries for the newline-joined lists.
pub proof fn lemma_hex_of_props(bs: Seq<u8>)
    ensures
        hex_of(bs).len() >= bs.len(),
        no_char(hex_of(bs), '\n'),
    decreases bs.len(),
{
    if bs.len() != 0 {
        lemma_hex_of_props(bs.drop_last());
        assert(forall|i: int|
            0 <= i < byte_hex(bs.last()).len() ==> byte_hex(bs.last())[i] != '\n');
    }
}

/// Render a byte vector as compact hex.
pub fn to_hex(bs: &Vec<u8>) -> (r: String)
    ensures
        r@ == hex_of(bs@),
{
    let digits = "0123456789abcdef";
    proof {
        reveal_strlit("0123456789abcdef");
        assert(digits.is_ascii());
        assert(forall|d: int| 0 <= d < 16 ==> digits@[d] == hex_digit(d));
    }
    let mut out = String::new();
    let mut i: usize = 0;
    while i < bs.len()
        invariant
            digits@.len() == 16,
            vstd::string::is_ascii(digits),
            forall|d: int| 0 <= d < 16 ==> digits@[d] == hex_digit(d),
            i <= bs@.len(),
            out@ == hex_of(bs@.subrange(0, i as int)),
        decreases bs@.len() - i,
    {
        let b = bs[i];
        if b < 16 {
            let d = (b as usize);
            out.append(digits.substring_ascii(d, d + 1));
            proof {
                assert(digits@.subrange(d as int, d as int + 1) =~= seq![hex_digit(b as int)]);
            }
        } else {
            let hi = (b / 16) as usize;
            let lo = (b % 16) as usize;
            out.append(digits.substring_ascii(hi, hi + 1));
            out.append(digits.substring_ascii(lo, lo + 1));
            proof {
                assert(digits@.subrange(hi as int, hi as int + 1) =~= seq![
                    hex_digit(b as int / 16)]);
                assert(digits@.subrange(lo as int, lo as int + 1) =~= seq![
                    hex_digit(b as int % 16)]);
            }
        }
        proof {
            let pre = bs@.subrange(0, i as int + 1);
            assert(pre.drop_last() =~= bs@.subrange(0, i as int));
            assert(pre.last() == bs@[i as int]);
            assert(out@ =~= hex_of(pre));
        }
        i = i + 1;
    }
    proof {
        assert(bs@.subrange(0, bs@.len() as int) =~= bs@);
    }
    out
}

/// The SHA-256 digest of a string, named but never written out: the
/// contracts treat it as an opaque function of the characters alone.
pub uninterp spec fn digest_of_str(s: Seq<char>) -> Seq<u8>;

/// Relies on sha2's `Sha256::digest`: the 32-byte SHA-256 digest of the
/// string's UTF-8 bytes, a deterministic function of its characters.
#[verifier::external_body]
fn sha256_of_str(s: &str) -> (r: Vec<u8>)
    ensures
        r@ == digest_of_str(s@),
        r@.len() == 32,
{
    sha2::Sha256::digest(s.as_bytes()).to_vec()
}

/// The storage key a value is filed under: compact hex of its SHA-256
/// digest.
pub open spec fn address_of(v: Seq<char>) -> Seq<char> {
    hex_of(digest_of_str(v))
}

/// The content hash of a string: the key it is stored under.  An
/// address is long and never contains a newline, so it is a safe entry
/// for the newline-joined version lists.
pub fn hash(s: &str) -> (r: String)
    ensures
        r@ == address_of(s@),
        r@.len() >= 32,
        no_char(r@, '\n'),
{
    let d = sha256_of_str(s);
    proof {
        lemma_hex_of_props(d@);
    }
    to_hex(&d)
}

} // verus!
