//! Decimal formatting and string comparison used by ids, messages and exports.

use vstd::prelude::*;
use vstd::string::StrSliceExecFns;

verus! {

/// ASCII decimal digits of `n`, most significant first.
pub open spec fn dec_bytes(n: nat) -> Seq<u8>
    decreases n,
{
    if n < 10 {
        seq![(48 + n) as u8]
    } else {
        dec_bytes(n / 10).push((48 + n % 10) as u8)
    }
}

/// ASCII decimal text of a signed value: a minus sign, then the digits of its magnitude.
pub open spec fn signed_dec_bytes(v: int) -> Seq<u8> {
    if v < 0 {
        seq![45u8] + dec_bytes((-v) as nat)
    } else {
        dec_bytes(v as nat)
    }
}

/// The characters of an ASCII byte sequence.
pub open spec fn ascii_chars(s: Seq<u8>) -> Seq<char> {
    s.map_values(|b: u8| b as char)
}

/// Appends the decimal digits of `n` to `out`.
pub fn push_decimal(out: &mut Vec<u8>, n: u64)
    ensures
        final(out)@ == old(out)@ + dec_bytes(n as nat),
    decreases n,
{
    if n >= 10 {
        push_decimal(out, n / 10);
    }
    out.push((48 + n % 10) as u8);
    proof {
        if n < 10 {
            assert(n % 10 == n);
        }
    }
    assert(final(out)@ =~= old(out)@ + dec_bytes(n as nat)) by {
        if n >= 10 {
            assert(old(out)@ + dec_bytes(n as nat / 10) + seq![(48 + n % 10) as u8] =~= old(out)@
                + dec_bytes(n as nat));
        }
    }
}

/// Appends the decimal text of a signed value to `out`.
pub fn push_signed_decimal(out: &mut Vec<u8>, v: i64)
    ensures
        final(out)@ == old(out)@ + signed_dec_bytes(v as int),
{
    if v < 0 {
        out.push(45u8);
        let m: u64 = if v == i64::MIN {
            9223372036854775808u64
        } else {
            (-v) as u64
        };
        push_decimal(out, m);
        assert(final(out)@ =~= old(out)@ + signed_dec_bytes(v as int));
    } else {
        push_decimal(out, v as u64);
    }
}

/// Relies on `String::push`: the character is appended at the end.
#[verifier::external_body]
pub fn push_char(s: &mut String, c: char)
    ensures
        final(s)@ == old(s)@.push(c),
{
    s.push(c)
}

/// Whether two strings hold the same characters.
pub fn str_eq(a: &str, b: &str) -> (r: bool)
    ensures
        r == (a@ == b@),
{
    let n = a.unicode_len();
    if n != b.unicode_len() {
        return false;
    }
    let mut i: usize = 0;
    while i < n
        invariant
            n as int == a@.len(),
            n as int == b@.len(),
            i <= n,
            forall|j: int| 0 <= j < i ==> a@[j] == b@[j],
        decreases n - i,
    {
        if a.get_char(i) != b.get_char(i) {
            return false;
        }
        i = i + 1;
    }
    assert(a@ =~= b@);
    true
}

/// Appends the decimal digits of `n` to a string.
pub fn push_decimal_chars(s: &mut String, n: u64)
    ensures
        final(s)@ == old(s)@ + ascii_chars(dec_bytes(n as nat)),
    decreases n,
{
    if n >= 10 {
        push_decimal_chars(s, n / 10);
    }
    push_char(s, ((48 + n % 10) as u8) as char);
    proof {
        if n < 10 {
            assert(n % 10 == n);
            assert(final(s)@ =~= old(s)@ + ascii_chars(dec_bytes(n as nat)));
        } else {
            assert(ascii_chars(dec_bytes(n as nat)) =~= ascii_chars(dec_bytes(n as nat / 10)).push(
                ((48 + n % 10) as u8) as char,
            ));
            assert(final(s)@ =~= old(s)@ + ascii_chars(dec_bytes(n as nat)));
        }
    }
}

/// Appends the decimal text of a signed value to a string.
pub fn push_signed_decimal_chars(s: &mut String, v: i64)
    ensures
        final(s)@ == old(s)@ + ascii_chars(signed_dec_bytes(v as int)),
{
    if v < 0 {
        push_char(s, '-');
        let m: u64 = if v == i64::MIN {
            9223372036854775808u64
        } else {
            (-v) as u64
        };
        push_decimal_chars(s, m);
        assert(final(s)@ =~= old(s)@ + ascii_chars(signed_dec_bytes(v as int)));
    } else {
        push_decimal_chars(s, v as u64);
    }
}

} // verus!
