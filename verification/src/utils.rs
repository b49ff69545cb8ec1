//! Small utilities: the time-seeded short string used for generated seeds,
//! and the trusted primitives for the clock and for string building.

use vstd::prelude::*;

verus! {

/// Relies on `std::time::SystemTime::now`, `duration_since` and `as_nanos`:
/// the nanoseconds since the epoch, or zero if the clock sits before it.
/// Nothing is promised of the clock's value.
#[verifier::external_body]
pub fn now_nanos() -> u128 {
    std::time::SystemTime::now()
        .duration_since(std::time::UNIX_EPOCH)
        .map(|d| d.as_nanos())
        .unwrap_or(0)
}

/// Relies on `String::push`: appends exactly the one character.
#[verifier::external_body]
pub fn push_char(s: &mut String, c: char)
    ensures
        final(s)@ == old(s)@.push(c),
{
    s.push(c);
}

/// The characters a generated seed may use after its marker: capital letters
/// and digits.
pub open spec fn is_seed_char(c: char) -> bool {
    ('A' <= c && c <= 'Z') || ('0' <= c && c <= '9')
}

/// The character one seed index below thirty-six denotes: letters first,
/// then digits.
pub open spec fn spec_seed_char(idx: int) -> char
    recommends
        0 <= idx < 36,
{
    if idx < 26 {
        ((('A' as int) + idx) as char)
    } else {
        ((('0' as int) + (idx - 26)) as char)
    }
}

/// The character for one seed index below thirty-six: letters first, then
/// digits.
pub fn seed_char(idx: u8) -> (c: char)
    requires
        idx < 36,
    ensures
        is_seed_char(c),
        c == spec_seed_char(idx as int),
{
    if idx < 26 {
        (('A' as u8) + idx) as char
    } else {
        (('0' as u8) + (idx - 26)) as char
    }
}

/// The mixed seed after `k` steps: each step folds the step index in by
/// exclusive-or and rotates the word left by seven bits.
pub open spec fn seed_stream(seed: u128, k: nat) -> u128
    decreases k,
{
    if k == 0 {
        seed
    } else {
        let x = seed_stream(seed, (k - 1) as nat) ^ (((k - 1) as nat) as u128);
        ((x << 7) | (x >> 121)) as u128
    }
}

/// A `*` marker, then `n` characters drawn from the seed's mixed stream:
/// position `i` shows the stream's value after `i` steps, reduced to the
/// thirty-six seed characters.
pub fn seeded_string(seed0: u128, n: usize) -> (r: String)
    requires
        n < 100000,
    ensures
        r@.len() == n + 1,
        r@[0] == '*',
        forall|i: int| 1 <= i < r@.len() ==> is_seed_char(#[trigger] r@[i]),
        forall|i: int|
            0 <= i < n ==> #[trigger] r@[i + 1] == spec_seed_char(
                (seed_stream(seed0, (i + 1) as nat) % 36) as int,
            ),
{
    let mut result = String::new();
    push_char(&mut result, '*');
    let mut seed: u128 = seed0;
    let mut i: usize = 0;
    while i < n
        invariant
            i <= n,
            n < 100000,
            result@.len() == i + 1,
            result@[0] == '*',
            seed == seed_stream(seed0, i as nat),
            forall|j: int| 1 <= j < result@.len() ==> is_seed_char(#[trigger] result@[j]),
            forall|j: int|
                0 <= j < i ==> #[trigger] result@[j + 1] == spec_seed_char(
                    (seed_stream(seed0, (j + 1) as nat) % 36) as int,
                ),
        decreases n - i,
    {
        seed = seed ^ (i as u128);
        seed = (seed << 7) | (seed >> 121);
        proof {
            assert(seed == seed_stream(seed0, (i + 1) as nat));
        }
        let idx: u8 = (seed % 36) as u8;
        let c = seed_char(idx);
        push_char(&mut result, c);
        i = i + 1;
    }
    result
}

/// Whether a string's tail shows a seed's mixed stream: position `i + 1`
/// holds the stream's value after `i + 1` steps, reduced to the thirty-six
/// seed characters.
pub open spec fn stream_rendered(s0: u128, r: Seq<char>, n: int) -> bool {
    forall|i: int|
        0 <= i < n ==> #[trigger] r[i + 1] == spec_seed_char(
            (seed_stream(s0, (i + 1) as nat) % 36) as int,
        )
}

/// A short string seeded from the clock: a `*` marker, then `n` characters
/// of the clock value's mixed stream. Two calls may return different
/// strings; the shape is fixed, and the characters are the stream's, pinned
/// by the seeded core for every seed.
pub fn time_based_string(n: usize) -> (r: String)
    requires
        n < 100000,
    ensures
        r@.len() == n + 1,
        r@[0] == '*',
        forall|i: int| 1 <= i < r@.len() ==> is_seed_char(#[trigger] r@[i]),
        exists|s0: u128| #[trigger] stream_rendered(s0, r@, n as int),
{
    let t = now_nanos();
    let r = seeded_string(t, n);
    proof {
        assert(stream_rendered(t, r@, n as int));
    }
    r
}

} // verus!
