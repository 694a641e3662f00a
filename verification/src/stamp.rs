//! Timestamps and random identifiers for a packaging run: the manifest's
//! creation time, its random installation token, and short time-seeded
//! names for scratch artifacts.

use vstd::prelude::*;
use rand::RngExt;

verus! {

/// Relies on chrono's Local::now and to_rfc3339: the moment of the call,
/// written as an RFC 3339 timestamp.  The value depends on the clock, so
/// only its shape is promised: nonempty, and bounded in length (the
/// calendar's year range keeps the fixed-format text well under 64
/// characters).
#[verifier::external_body]
pub(crate) fn rfc3339_now() -> (r: String)
    ensures
        r@.len() > 0,
        r@.len() <= 64,
{
    chrono::Local::now().to_rfc3339()
}

/// Relies on chrono's Utc::now and timestamp_millis: milliseconds since
/// the epoch.  The result depends on the clock, so nothing is promised
/// of it.
#[verifier::external_body]
pub(crate) fn now_unix_millis() -> (r: u64)
{
    let ms = chrono::Utc::now().timestamp_millis();
    if ms < 0 {
        0
    } else {
        ms as u64
    }
}

/// A character the random token generator may produce.
pub open spec fn is_alphanumeric_char(c: char) -> bool {
    ('A' <= c && c <= 'Z') || ('a' <= c && c <= 'z') || ('0' <= c && c <= '9')
}

/// Relies on rand's Alphanumeric distribution: every sample is one of
/// A-Z, a-z or 0-9, and exactly `len` samples are taken.  The values
/// themselves are random, so nothing more is promised.
#[verifier::external_body]
pub(crate) fn random_alphanumeric_token(len: usize) -> (r: String)
    ensures
        r@.len() == len,
        forall|i: int| 0 <= i < r@.len() ==> is_alphanumeric_char(#[trigger] r@[i]),
{
    rand::rng().sample_iter(rand::distr::Alphanumeric).take(len).map(char::from).collect()
}

/// The base-36 digit for a value below 36: digits first, then lowercase
/// letters.
pub open spec fn digit36(v: u8) -> char {
    if v < 10 {
        ((48 + v) as u8) as char
    } else {
        ((87 + v) as u8) as char
    }
}

/// `len` base-36 digits of `n`, least significant first, as the scratch
/// name generator writes them.
pub open spec fn base36_digits(n: nat, len: nat) -> Seq<char>
    decreases len,
{
    if len == 0 {
        Seq::empty()
    } else {
        seq![digit36((n % 36) as u8)] + base36_digits(n / 36, (len - 1) as nat)
    }
}

/// The digits of a seed, rendered in base 36.
pub fn base36_string(seed: u64, len: usize) -> (r: String)
    ensures
        r@ == base36_digits(seed as nat, len as nat),
{
    let mut out: Vec<char> = Vec::new();
    let mut n: u64 = seed;
    let mut k: usize = 0;
    assert(out@ + base36_digits(seed as nat, len as nat) =~= base36_digits(
        seed as nat,
        len as nat,
    ));
    while k < len
        invariant
            0 <= k <= len,
            out@ + base36_digits(n as nat, (len - k) as nat) == base36_digits(
                seed as nat,
                len as nat,
            ),
            out@.len() == k,
        decreases len - k,
    {
        let ghost n0 = n as nat;
        let d = (n % 36) as u8;
        let c = if d < 10 {
            (48 + d) as char
        } else {
            (87 + d) as char
        };
        assert(c == digit36(d));
        out.push(c);
        n = n / 36;
        proof {
            assert(base36_digits(n0, (len - k) as nat) == seq![digit36((n0 % 36) as u8)]
                + base36_digits(n0 / 36, (len - k - 1) as nat));
            assert(d == (n0 % 36) as u8);
            assert(n as nat == n0 / 36);
            assert(out@ + base36_digits(n as nat, (len - k - 1) as nat) =~= out@.drop_last()
                + base36_digits(n0, (len - k) as nat));
        }
        k = k + 1;
    }
    assert(out@ =~= base36_digits(seed as nat, len as nat)) by {
        assert(base36_digits(n as nat, 0) =~= Seq::<char>::empty());
        assert(out@ + Seq::<char>::empty() =~= out@);
    }
    chars_to_string(&out)
}

/// Build a `String` from characters.
pub fn chars_to_string(cs: &Vec<char>) -> (r: String)
    ensures
        r@ == cs@,
{
    let mut s = String::new();
    let n = cs.len();
    let mut i: usize = 0;
    while i < n
        invariant
            n == cs@.len(),
            0 <= i <= n,
            s@ =~= cs@.take(i as int),
        decreases n - i,
    {
        push_char(&mut s, cs[i]);
        assert(s@ =~= cs@.take(i + 1));
        i = i + 1;
    }
    assert(s@ =~= cs@);
    s
}

/// Relies on String::push: the character is appended.
#[verifier::external_body]
fn push_char(s: &mut String, c: char)
    ensures
        final(s)@ == old(s)@.push(c),
{
    s.push(c);
}

/// A short scratch name seeded from the clock: `len` base-36 characters,
/// digits and lowercase letters.  The value depends on the time of the
/// call, so only its length and alphabet are promised.
pub fn random_string(len: usize) -> (r: String)
    ensures
        r@.len() == len,
        forall|i: int|
            0 <= i < r@.len() ==> ('0' <= #[trigger] r@[i] && r@[i] <= '9') || ('a' <= r@[i]
                && r@[i] <= 'z'),
{
    let seed = now_unix_millis();
    let r = base36_string(seed, len);
    proof {
        lemma_base36_digits_shape(seed as nat, len as nat);
    }
    r
}

proof fn lemma_base36_digits_shape(n: nat, len: nat)
    ensures
        base36_digits(n, len).len() == len,
        forall|i: int|
            0 <= i < len ==> ('0' <= #[trigger] base36_digits(n, len)[i] && base36_digits(
                n,
                len,
            )[i] <= '9') || ('a' <= base36_digits(n, len)[i] && base36_digits(n, len)[i] <= 'z'),
    decreases len,
{
    if len > 0 {
        lemma_base36_digits_shape(n / 36, (len - 1) as nat);
        assert forall|i: int|
            0 <= i < len implies ('0' <= #[trigger] base36_digits(n, len)[i] && base36_digits(
            n,
            len,
        )[i] <= '9') || ('a' <= base36_digits(n, len)[i] && base36_digits(n, len)[i] <= 'z') by {
            if i == 0 {
                assert(base36_digits(n, len)[0] == digit36((n % 36) as u8));
            } else {
                assert(base36_digits(n, len)[i] == base36_digits(n / 36, (len - 1) as nat)[i - 1]);
            }
        }
    }
}

} // verus!
