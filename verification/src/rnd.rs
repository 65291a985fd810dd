//! Random utilities.

use vstd::prelude::*;
use std::ops::Range;
use rand::Rng;
use vstd::string::StringSliceAdditionalSpecFns;

verus! {

/// A random number in `r`, from the thread's generator of the `rand` crate
/// (`thread_rng` and `Rng::gen_range`). The contract claims only that the
/// number lies in `r`, which `gen_range` documents; which number comes out
/// is left to chance. `thread_rng` panics where the operating system gives
/// no random seed, which no condition here can rule out.
#[verifier::external_body]
pub fn rand_range(r: &Range<usize>) -> (x: usize)
    requires
        r.start < r.end,
    ensures
        r.start <= x < r.end,
{
    let mut rng = rand::thread_rng();
    rng.gen_range(r.start, r.end)
}

/// A random element of `s`.
pub fn sample<T>(s: &[T]) -> (r: &T)
    requires
        s@.len() > 0,
    ensures
        exists|i: int| 0 <= i < s@.len() && *r == s@[i],
{
    let idx = rand_range(&(0..s.len()));
    &s[idx]
}

/// `String::push`: appends the character.
#[verifier::external_body]
pub(crate) fn push_char(s: &mut String, c: char)
    ensures
        final(s)@ == old(s)@.push(c),
{
    s.push(c);
}

/// `c` is one of `bytes`, taken as a character.
pub open spec fn drawn_from(c: char, bytes: Seq<u8>) -> bool {
    exists|j: int| 0 <= j < bytes.len() && c == bytes[j] as char
}

/// The characters that the bytes of `bytes` at the places `picks` stand
/// for, in order.
pub open spec fn picked(bytes: Seq<u8>, picks: Seq<usize>) -> Seq<char> {
    picks.map_values(|k: usize| bytes[k as int] as char)
}

/// The string of the bytes of `charset` at the places `picks`, each taken
/// as a character.
pub fn string_of_picks(charset: &str, picks: &Vec<usize>) -> (r: String)
    requires
        forall|i: int| 0 <= i < picks@.len() ==> (#[trigger] picks@[i]) < charset.spec_bytes().len(),
    ensures
        r@ == picked(charset.spec_bytes(), picks@),
{
    let bytes = charset.as_bytes();
    let mut res = String::new();
    let mut k: usize = 0;
    while k < picks.len()
        invariant
            k <= picks@.len(),
            bytes@ == charset.spec_bytes(),
            forall|i: int| 0 <= i < picks@.len() ==> (#[trigger] picks@[i]) < bytes@.len(),
            res@ == picked(bytes@, picks@.take(k as int)),
        decreases picks@.len() - k,
    {
        let b = bytes[picks[k]];
        push_char(&mut res, b as char);
        proof {
            assert(picks@.take(k + 1) =~= picks@.take(k as int).push(picks@[k as int]));
            assert(picked(bytes@, picks@.take(k + 1)) =~= picked(bytes@, picks@.take(k as int)).push(b as char));
        }
        k = k + 1;
    }
    proof {
        assert(picks@.take(k as int) =~= picks@);
    }
    res
}

/// A random string of a length in `len`, each of its characters one of the
/// bytes of `charset`: the length is drawn first, then the place of each
/// character in `charset`.
pub fn rand_string(len: &Range<usize>, charset: &str) -> (r: String)
    requires
        len.start < len.end,
        len.end <= 1 || charset.spec_bytes().len() > 0,
    ensures
        len.start <= r@.len() < len.end,
        forall|i: int| 0 <= i < r@.len() ==> drawn_from(#[trigger] r@[i], charset.spec_bytes()),
        exists|picks: Seq<usize>| (forall|i: int| 0 <= i < picks.len() ==> (#[trigger] picks[i]) < charset.spec_bytes().len())
            && r@ == picked(charset.spec_bytes(), picks),
{
    let n = rand_range(len);
    let bytes = charset.as_bytes();
    let mut picks: Vec<usize> = Vec::new();
    let mut k: usize = 0;
    while k < n
        invariant
            k <= n,
            n < len.end,
            len.end <= 1 || bytes@.len() > 0,
            bytes@ == charset.spec_bytes(),
            picks@.len() == k,
            forall|i: int| 0 <= i < picks@.len() ==> (#[trigger] picks@[i]) < bytes@.len(),
        decreases n - k,
    {
        let p = rand_range(&(0..bytes.len()));
        picks.push(p);
        k = k + 1;
    }
    let r = string_of_picks(charset, &picks);
    proof {
        assert forall|i: int| 0 <= i < r@.len() implies drawn_from(#[trigger] r@[i], charset.spec_bytes()) by {
            assert(r@[i] == bytes@[picks@[i] as int] as char);
        }
    }
    r
}

} // verus!
