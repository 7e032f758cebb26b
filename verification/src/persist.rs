//! The persisted counter: its on-disk text format and the atomic-replace
//! save protocol.
//!
//! The counter lives in one UTF-8 text file holding its decimal value, with
//! no required trailing newline. Loading is total: a missing file or
//! unparsable contents degrade to a count of zero, never to an error. Saving
//! writes the new text to a sibling temporary file and then renames it over
//! the destination in one atomic step, so no reader ever sees a partially
//! written number. The file reads and writes themselves happen outside the
//! library; this module owns the byte format and the model of the protocol.

use vstd::prelude::*;

use crate::digits::all_digits;
use crate::digits::dec_bytes;
use crate::digits::dec_value;
use crate::digits::is_digit;
use crate::digits::lemma_dec_bytes_shape;
use crate::digits::lemma_dec_bytes_value;

verus! {

/// Whether `b` is ASCII whitespace; such bytes around the stored number are
/// ignored when loading.
pub open spec fn is_space(b: u8) -> bool {
    b == 32 || 9 <= b <= 13
}

/// `s` with leading whitespace removed.
pub open spec fn trim_front(s: Seq<u8>) -> Seq<u8>
    decreases s.len(),
{
    if s.len() > 0 && is_space(s.first()) {
        trim_front(s.drop_first())
    } else {
        s
    }
}

/// `s` with trailing whitespace removed.
pub open spec fn trim_back(s: Seq<u8>) -> Seq<u8>
    decreases s.len(),
{
    if s.len() > 0 && is_space(s.last()) {
        trim_back(s.drop_last())
    } else {
        s
    }
}

/// `s` with whitespace removed at both ends.
pub open spec fn trimmed(s: Seq<u8>) -> Seq<u8> {
    trim_back(trim_front(s))
}

/// The counter value that file contents `s` store: the decimal number
/// between optional whitespace, or zero when the contents are empty, are
/// not a number, or name a number too large for the counter.
pub open spec fn stored_count(s: Seq<u8>) -> nat {
    let t = trimmed(s);
    if t.len() > 0 && all_digits(t) && dec_value(t) <= usize::MAX as nat {
        dec_value(t)
    } else {
        0
    }
}

/// The counter recovered at startup from a file that may be absent.
pub open spec fn recovered_count(contents: Option<Seq<u8>>) -> nat {
    match contents {
        None => 0,
        Some(s) => stored_count(s),
    }
}

/// If every byte of `s` below `lo` is whitespace and `s[lo]` is not (or
/// `lo` is the end), then trimming the front removes exactly those bytes.
proof fn lemma_trim_front_range(s: Seq<u8>, lo: int)
    requires
        0 <= lo <= s.len(),
        forall|i: int| 0 <= i < lo ==> is_space(#[trigger] s[i]),
        lo == s.len() || !is_space(s[lo]),
    ensures
        trim_front(s) =~= s.subrange(lo, s.len() as int),
    decreases lo,
{
    if lo == 0 {
        assert(trim_front(s) =~= s.subrange(0, s.len() as int));
    } else {
        let rest = s.drop_first();
        assert(forall|i: int| 0 <= i < lo - 1 ==> is_space(#[trigger] rest[i]));
        lemma_trim_front_range(rest, lo - 1);
        assert(rest.subrange(lo - 1, rest.len() as int) =~= s.subrange(lo, s.len() as int));
    }
}

/// If every byte of `s` from `hi` on is whitespace and `s[hi - 1]` is not
/// (or `hi` is zero), then trimming the back removes exactly those bytes.
proof fn lemma_trim_back_range(s: Seq<u8>, hi: int)
    requires
        0 <= hi <= s.len(),
        forall|i: int| hi <= i < s.len() ==> is_space(#[trigger] s[i]),
        hi == 0 || !is_space(s[hi - 1]),
    ensures
        trim_back(s) =~= s.subrange(0, hi),
    decreases s.len(),
{
    if hi == s.len() {
        assert(trim_back(s) =~= s.subrange(0, hi));
    } else {
        let rest = s.drop_last();
        assert(forall|i: int| hi <= i < rest.len() ==> is_space(#[trigger] rest[i]));
        lemma_trim_back_range(rest, hi);
    }
}

/// The value of a digit prefix never exceeds the value of the whole.
proof fn lemma_dec_value_take_le(s: Seq<u8>, k: int)
    requires
        0 <= k <= s.len(),
        all_digits(s),
    ensures
        dec_value(s.take(k)) <= dec_value(s),
    decreases s.len() - k,
{
    if k == s.len() {
        assert(s.take(k) =~= s);
    } else {
        lemma_dec_value_take_le(s, k + 1);
        assert(s.take(k + 1).drop_last() =~= s.take(k));
        assert(s.take(k + 1).last() == s[k]);
        assert(is_digit(s[k]));
        assert(dec_value(s.take(k + 1)) == dec_value(s.take(k)) * 10 + (s[k] - 48));
        assert(dec_value(s.take(k)) <= dec_value(s.take(k)) * 10 + (s[k] - 48));
    }
}

/// Reads the counter out of the raw contents of its file. Total: contents
/// that do not hold a decimal number that fits the counter yield zero.
pub fn parse_count(s: &[u8]) -> (r: usize)
    ensures
        r as nat == stored_count(s@),
{
    let n = s.len();
    let mut lo: usize = 0;
    while lo < n && is_space_byte(s[lo])
        invariant
            0 <= lo <= n,
            n == s@.len(),
            forall|i: int| 0 <= i < lo ==> is_space(#[trigger] s@[i]),
        decreases n - lo,
    {
        lo = lo + 1;
    }
    let mut hi: usize = n;
    while hi > lo && is_space_byte(s[hi - 1])
        invariant
            lo <= hi <= n,
            n == s@.len(),
            forall|i: int| hi <= i < n ==> is_space(#[trigger] s@[i]),
        decreases hi,
    {
        hi = hi - 1;
    }
    let ghost t = s@.subrange(lo as int, hi as int);
    proof {
        lemma_trim_front_range(s@, lo as int);
        let front = s@.subrange(lo as int, n as int);
        assert(forall|i: int| hi - lo <= i < front.len() ==> is_space(#[trigger] front[i]));
        lemma_trim_back_range(front, hi - lo);
        assert(front.subrange(0, hi - lo) =~= t);
        assert(trimmed(s@) =~= t);
    }
    let mut acc: usize = 0;
    let mut i = lo;
    while i < hi
        invariant
            lo <= i <= hi <= n,
            n == s@.len(),
            t == s@.subrange(lo as int, hi as int),
            trimmed(s@) =~= t,
            all_digits(t.take(i - lo)),
            acc as nat == dec_value(t.take(i - lo)),
        decreases hi - i,
    {
        let b = s[i];
        assert(t[i - lo] == b);
        if b < 48 || b > 57 {
            proof {
                assert(!is_digit(t[i - lo]));
                assert(!all_digits(t));
            }
            return 0;
        }
        let d = (b - 48) as usize;
        let widened = match acc.checked_mul(10) {
            Some(x) => x.checked_add(d),
            None => None,
        };
        proof {
            assert(t.take(i - lo + 1).drop_last() =~= t.take(i - lo));
            assert(t.take(i - lo + 1).last() == t[i - lo]);
            assert(dec_value(t.take(i - lo + 1)) == acc * 10 + d);
        }
        match widened {
            Some(next) => {
                acc = next;
            },
            None => {
                proof {
                    assert(dec_value(t.take(i - lo + 1)) > usize::MAX as nat);
                    if all_digits(t) {
                        lemma_dec_value_take_le(t, i - lo + 1);
                    }
                    assert(stored_count(s@) == 0);
                }
                return 0;
            },
        }
        i = i + 1;
    }
    proof {
        assert(t.take(hi - lo) =~= t);
    }
    acc
}

/// Whether `b` is ASCII whitespace.
fn is_space_byte(b: u8) -> (r: bool)
    ensures
        r == is_space(b),
{
    b == 32 || (9 <= b && b <= 13)
}

/// Saving then loading returns the saved value: the decimal text written
/// for a counter value `v` stores exactly `v`, whatever non-negative `v`
/// the counter held.
pub proof fn lemma_save_load_round_trip(v: usize)
    ensures
        recovered_count(Some(dec_bytes(v as nat))) == v,
{
    let s = dec_bytes(v as nat);
    lemma_dec_bytes_shape(v as nat);
    lemma_dec_bytes_value(v as nat);
    assert(!is_space(s.first()));
    assert(!is_space(s.last()));
    lemma_trim_front_range(s, 0);
    assert(trim_front(s) =~= s);
    lemma_trim_back_range(s, s.len() as int);
    assert(trimmed(s) =~= s);
}

/// A missing file, an empty one, or one holding non-numeric text recovers
/// as a count of zero, never as an error.
pub proof fn lemma_recover_defaults_to_zero(contents: Option<Seq<u8>>)
    requires
        match contents {
            None => true,
            Some(s) => trimmed(s).len() == 0 || !all_digits(trimmed(s)),
        },
    ensures
        recovered_count(contents) == 0,
{
}

/// The two files the save protocol touches: the destination counter file
/// and its sibling temporary. `None` stands for a file that does not exist.
pub struct DiskContents {
    pub dest: Option<Seq<u8>>,
    pub tmp: Option<Seq<u8>>,
}

/// The disk states a crash can leave behind while `bytes` is being saved
/// over the disk state `d0`. The protocol first writes `bytes` to the
/// temporary file — an interruption there leaves any prefix of them, or no
/// temporary at all — and then renames the temporary over the destination
/// in one atomic step. The destination is never written in place.
pub open spec fn crash_reachable(d0: DiskContents, bytes: Seq<u8>, d: DiskContents) -> bool {
    ||| {
        &&& d.dest == d0.dest
        &&& (d.tmp == d0.tmp || (exists|k: int| 0 <= k <= bytes.len() && d.tmp == Some(#[trigger] bytes.take(k))))
    }
    ||| d == (DiskContents { dest: Some(bytes), tmp: None })
}

/// Atomic replace never loses a committed count: however a save of `v` is
/// interrupted, the destination file recovers either as whatever it
/// recovered as before the save began, or as `v` itself — never as a
/// truncated or mixed number.
pub proof fn lemma_crash_never_loses_commit(v: usize, d0: DiskContents, d: DiskContents)
    requires
        crash_reachable(d0, dec_bytes(v as nat), d),
    ensures
        recovered_count(d.dest) == recovered_count(d0.dest) || recovered_count(d.dest) == v,
{
    lemma_save_load_round_trip(v);
}

} // verus!
