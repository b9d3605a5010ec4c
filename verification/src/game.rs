use vstd::prelude::*;

use crate::raft::random::random_in_range;

verus! {

/// How a guess compares with the secret number.
#[derive(Debug, Clone, Copy, PartialEq, Eq, Structural)]
pub enum Verdict {
    TooSmall,
    TooLarge,
    Win,
}

/// How `guess` compares with `secret`.
pub fn judge(guess: u32, secret: u32) -> (v: Verdict)
    ensures
        v == (if guess < secret {
            Verdict::TooSmall
        } else if guess > secret {
            Verdict::TooLarge
        } else {
            Verdict::Win
        }),
{
    if guess < secret {
        Verdict::TooSmall
    } else if guess > secret {
        Verdict::TooLarge
    } else {
        Verdict::Win
    }
}

/// A secret number drawn at random from 1 to 100.
pub fn secret_number() -> (r: u32)
    ensures
        1 <= r <= 100,
{
    random_in_range(1, 101) as u32
}

/// A guessing game: the player has `rounds_left` guesses to find `secret`.
pub struct Game {
    pub rounds_left: i32,
    pub secret: u32,
}

impl Game {
    /// A game of `rounds` guesses of a secret drawn at random.
    pub fn new(rounds: i32) -> (g: Game)
        ensures
            g.rounds_left == rounds,
            1 <= g.secret <= 100,
    {
        Game { rounds_left: rounds, secret: secret_number() }
    }

    /// Whether a guess is left.
    pub fn running(&self) -> (r: bool)
        ensures
            r == (self.rounds_left > 0),
    {
        self.rounds_left > 0
    }

    /// Plays one round: it costs a guess whether or not the player typed a
    /// number, and a number is judged against the secret.
    pub fn turn(&mut self, guess: Option<u32>) -> (v: Option<Verdict>)
        requires
            old(self).rounds_left > 0,
        ensures
            final(self).rounds_left == old(self).rounds_left - 1,
            final(self).secret == old(self).secret,
            v == (match guess {
                Some(g) => Some(
                    if g < old(self).secret {
                        Verdict::TooSmall
                    } else if g > old(self).secret {
                        Verdict::TooLarge
                    } else {
                        Verdict::Win
                    },
                ),
                None => None,
            }),
    {
        self.rounds_left = self.rounds_left - 1;
        match guess {
            Some(g) => Some(judge(g, self.secret)),
            None => None,
        }
    }
}

} // verus!
