use vstd::prelude::*;
use crate::color::Rgb;

verus! {

/// Relies on rand's `thread_rng` and `Rng::gen_range`: the sample lies in
/// the given inclusive range, which is not empty, so the call returns.
#[verifier::external_body]
fn random_in(lo: u8, hi: u8) -> (n: u8)
    requires
        lo <= hi,
    ensures
        lo <= n <= hi,
{
    rand::Rng::gen_range(&mut rand::thread_rng(), lo..=hi)
}

/// Relies on rand::random: some byte comes back; nothing is promised of it.
#[verifier::external_body]
fn random_signed() -> i8 {
    rand::random::<i8>()
}

/// One uniform random bit, deciding whether a cell starts alive.
pub(crate) fn random_binary() -> (n: u8)
    ensures
        n < 2,
{
    random_in(0, 1)
}

/// A fresh random color as assigned at construction and as the defensive
/// fallback for a newborn without colored parents: each channel is drawn
/// independently from 50..=255.
pub(crate) fn random_rgb() -> (c: Rgb)
    ensures
        50 <= c.r && 50 <= c.g && 50 <= c.b,
{
    Rgb { r: random_in(50, 255), g: random_in(50, 255), b: random_in(50, 255) }
}

/// The jitter offset drawn for one newborn channel: a random signed byte
/// reduced modulo ten, so it always lies in -9..=9.
pub(crate) fn random_jitter() -> (o: i8)
    ensures
        -9 <= o <= 9,
{
    random_signed() % 10
}

} // verus!
