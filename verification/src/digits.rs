//! Decimal text: the one number format the library reads and writes.
//!
//! The persisted counter file, the ordinal rank in a hello reply and the
//! uptime fragments all print numbers in plain base-10 ASCII. `dec_bytes`
//! is the single specification of that format; the executable renderers and
//! the parser in `persist` are all proved against it.

use vstd::prelude::*;
use vstd::string::StringExecFns;

verus! {

/// The ASCII byte of a single decimal digit (`b'0'` is 48).
pub open spec fn digit_byte(d: nat) -> u8
    recommends
        d < 10,
{
    (48 + d) as u8
}

/// Decimal representation of `n` as ASCII digit bytes, most significant
/// digit first, with no sign, no leading zeros (except for `n == 0` itself).
pub open spec fn dec_bytes(n: nat) -> Seq<u8>
    decreases n,
{
    if n < 10 {
        seq![digit_byte(n)]
    } else {
        dec_bytes(n / 10).push(digit_byte(n % 10))
    }
}

/// The same decimal representation, as characters of a string.
pub open spec fn dec_chars(n: nat) -> Seq<char> {
    dec_bytes(n).map_values(|b: u8| b as char)
}

/// Whether `b` is an ASCII decimal digit.
pub open spec fn is_digit(b: u8) -> bool {
    48 <= b <= 57
}

/// Whether every byte of `s` is an ASCII decimal digit.
pub open spec fn all_digits(s: Seq<u8>) -> bool {
    forall|i: int| 0 <= i < s.len() ==> is_digit(#[trigger] s[i])
}

/// The numeric value of a sequence of ASCII digit bytes.
pub open spec fn dec_value(s: Seq<u8>) -> nat
    recommends
        all_digits(s),
    decreases s.len(),
{
    if s.len() == 0 {
        0
    } else {
        (dec_value(s.drop_last()) * 10 + (s.last() - 48)) as nat
    }
}

/// A rendered number consists of digits only and is never empty.
pub proof fn lemma_dec_bytes_shape(n: nat)
    ensures
        all_digits(dec_bytes(n)),
        dec_bytes(n).len() >= 1,
    decreases n,
{
    if n >= 10 {
        lemma_dec_bytes_shape(n / 10);
        assert forall|i: int| 0 <= i < dec_bytes(n).len() implies is_digit(
            #[trigger] dec_bytes(n)[i],
        ) by {
            if i < dec_bytes(n / 10).len() {
                assert(dec_bytes(n)[i] == dec_bytes(n / 10)[i]);
            }
        }
    }
}

/// Reading back a rendered number yields the number: the value of
/// `dec_bytes(n)` is `n`.
pub proof fn lemma_dec_bytes_value(n: nat)
    ensures
        dec_value(dec_bytes(n)) == n,
    decreases n,
{
    if n < 10 {
        let s = dec_bytes(n);
        assert(s.len() == 1);
        assert(s.drop_last() =~= Seq::<u8>::empty());
        assert(s.last() == digit_byte(n));
        assert(digit_byte(n) == 48 + n);
        assert(dec_value(s.drop_last()) == 0);
        assert(dec_value(s) == (dec_value(s.drop_last()) * 10 + (s.last() - 48)) as nat);
        assert(dec_value(s) == n);
    } else {
        lemma_dec_bytes_value(n / 10);
        let s = dec_bytes(n);
        assert(s.len() >= 1);
        assert(s.drop_last() =~= dec_bytes(n / 10));
        assert(s.last() == digit_byte(n % 10));
        assert(digit_byte(n % 10) == 48 + n % 10);
        assert(dec_value(s.drop_last()) == n / 10);
        assert(dec_value(s) == (dec_value(s.drop_last()) * 10 + (s.last() - 48)) as nat);
        vstd::arithmetic::div_mod::lemma_fundamental_div_mod(n as int, 10);
        assert(dec_value(s) == n);
    }
}

/// Renders `n` in decimal as the bytes of the persisted counter file.
pub fn dec_byte_vec(n: usize) -> (r: Vec<u8>)
    ensures
        r@ == dec_bytes(n as nat),
    decreases n,
{
    if n < 10 {
        let mut v: Vec<u8> = Vec::new();
        v.push(48 + n as u8);
        proof {
            assert(v@ =~= dec_bytes(n as nat));
        }
        v
    } else {
        let mut v = dec_byte_vec(n / 10);
        v.push(48 + (n % 10) as u8);
        proof {
            assert(v@ =~= dec_bytes(n as nat));
        }
        v
    }
}

/// The one-character string of a single decimal digit.
fn digit_str(d: u8) -> (r: &'static str)
    requires
        d < 10,
    ensures
        r@ == seq![digit_byte(d as nat) as char],
{
    let r = match d {
        0 => "0",
        1 => "1",
        2 => "2",
        3 => "3",
        4 => "4",
        5 => "5",
        6 => "6",
        7 => "7",
        8 => "8",
        _ => "9",
    };
    proof {
        reveal_strlit("0");
        reveal_strlit("1");
        reveal_strlit("2");
        reveal_strlit("3");
        reveal_strlit("4");
        reveal_strlit("5");
        reveal_strlit("6");
        reveal_strlit("7");
        reveal_strlit("8");
        reveal_strlit("9");
        assert(r@ =~= seq![digit_byte(d as nat) as char]);
    }
    r
}

/// Renders `n` in decimal as a string.
pub fn dec_string(n: u64) -> (r: String)
    ensures
        r@ == dec_chars(n as nat),
    decreases n,
{
    if n < 10 {
        let r = digit_str(n as u8).to_owned();
        proof {
            assert(r@ =~= dec_chars(n as nat));
        }
        r
    } else {
        let mut r = dec_string(n / 10);
        r.append(digit_str((n % 10) as u8));
        proof {
            assert(r@ =~= dec_chars(n as nat));
        }
        r
    }
}

} // verus!
