//! The rules of the guessing game: a secret number from 1 to 99, a hint for
//! every guess, and a count of the guesses that missed.

use rand::Rng;
use vstd::prelude::*;

verus! {

/// What the player is told after a guess.
#[derive(Clone, Copy, Debug, PartialEq, Eq, Structural)]
pub enum Hint {
    /// The guess is the secret number.
    Correct,
    /// The guess shares its tens or its last digit with the secret number.
    Close,
    /// Neither.
    Far,
}

/// A game in progress.
pub struct GuessGame {
    /// The number to find.
    pub secret: u32,
    /// How many guesses have missed so far.
    pub count: i32,
}

/// The hint that a guess earns.
pub open spec fn hint_for(secret: u32, guess: u32) -> Hint {
    if guess == secret {
        Hint::Correct
    } else if guess / 10 == secret / 10 || guess % 10 == secret % 10 {
        Hint::Close
    } else {
        Hint::Far
    }
}

/// A number drawn by `rand::Rng::gen_range` from the thread's generator
/// (`rand::thread_rng`), over the half-open range from `low` to `high`.
/// Which number comes is left open; all that is claimed is that it lies in
/// the range. An empty range, on which `gen_range` panics, is excluded.
/// The generator is seeded by the operating system, and `thread_rng`
/// panics if that fails.
#[verifier::external_body]
fn draw_between(low: u32, high: u32) -> (n: u32)
    requires
        low < high,
    ensures
        low <= n < high,
{
    rand::thread_rng().gen_range(low..high)
}

/// The hint for `guess` in a game whose secret number is `secret`.
pub fn judge(secret: u32, guess: u32) -> (hint: Hint)
    ensures
        hint == hint_for(secret, guess),
{
    if guess == secret {
        Hint::Correct
    } else if guess / 10 == secret / 10 || guess % 10 == secret % 10 {
        Hint::Close
    } else {
        Hint::Far
    }
}

impl GuessGame {
    /// A new game with a secret number drawn at random from 1 to 99.
    pub fn start() -> (game: Self)
        ensures
            1 <= game.secret < 100,
            game.count == 0,
    {
        GuessGame { secret: draw_between(1, 100), count: 0 }
    }

    /// Takes one guess: answers with its hint and counts it if it missed.
    pub fn attempt(&mut self, guess: u32) -> (hint: Hint)
        requires
            old(self).count < i32::MAX,
        ensures
            hint == hint_for(old(self).secret, guess),
            final(self).secret == old(self).secret,
            final(self).count == (if hint == Hint::Correct {
                old(self).count as int
            } else {
                old(self).count + 1
            }),
    {
        let hint = judge(self.secret, guess);
        match hint {
            Hint::Correct => {},
            _ => {
                self.count = self.count + 1;
            },
        }
        hint
    }
}

} // verus!
