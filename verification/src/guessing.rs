//! A number-guessing game: a secret from 1 to 49 is drawn, and each guess
//! is answered by whether the secret is greater or smaller.
use vstd::prelude::*;
use rand::Rng;

use crate::text::{chars_of, trim, spec_parse_unsigned, trim_chars, parse_unsigned_chars};

verus! {

/// How a guess compares with the secret.
#[derive(PartialEq, Eq, Structural, Debug, Clone, Copy)]
pub enum Verdict {
    Correct,
    /// The secret is greater than the guess.
    Greater,
    /// The secret is smaller than the guess.
    Smaller,
}

/// `Rng::random_range(low..high)` on the thread's generator: a number in
/// `[low, high)`, chosen at random.
#[verifier::external_body]
fn random_below(low: u32, high: u32) -> (r: u32)
    requires
        low < high,
    ensures
        low <= r < high,
{
    rand::rng().random_range(low..high)
}

/// A secret from 1 to 49.
pub fn draw_secret() -> (r: u32)
    ensures
        1 <= r < 50,
{
    random_below(1, 50)
}

/// The answer to a guess.
pub fn judge_guess(guess: u32, secret: u32) -> (v: Verdict)
    ensures
        v == (if guess == secret {
            Verdict::Correct
        } else if guess < secret {
            Verdict::Greater
        } else {
            Verdict::Smaller
        }),
{
    if guess == secret {
        Verdict::Correct
    } else if guess < secret {
        Verdict::Greater
    } else {
        Verdict::Smaller
    }
}

/// A guess as typed: a `u32` after trimming, `None` where it is not one.
pub fn read_guess(input: &str) -> (r: Option<u32>)
    ensures
        match r {
            Some(g) => spec_parse_unsigned(trim_chars(input@), u32::MAX as int) == Some(g as int),
            None => spec_parse_unsigned(trim_chars(input@), u32::MAX as int) is None,
        },
{
    let t = trim(input);
    let cs = chars_of(t.as_str());
    match parse_unsigned_chars(cs.as_slice(), u32::MAX as u64) {
        Some(v) => Some(v as u32),
        None => None,
    }
}

} // verus!
