//! The tally: how many deliveries of each colour have been made.

use vstd::prelude::*;
use crate::color::{lemma_all_colors, Color};

verus! {

/// The least of three numbers.
pub open spec fn least(a: nat, b: nat, c: nat) -> nat {
    if a <= b && a <= c {
        a
    } else if b <= c {
        b
    } else {
        c
    }
}

/// Keeps track of the amount of each colour collected.
#[derive(Debug)]
pub struct Tally {
    collected: Vec<(Color, u32)>,
}

impl View for Tally {
    type V = Map<Color, nat>;

    /// The amount collected of each colour.
    closed spec fn view(&self) -> Map<Color, nat> {
        Map::new(|color: Color| true, |color: Color| self.amount(color))
    }
}

impl Clone for Tally {
    fn clone(&self) -> (copy: Tally)
        ensures
            copy@ == self@,
    {
        proof {
            use_type_invariant(self);
        }
        let mut collected: Vec<(Color, u32)> = Vec::new();
        let mut i: usize = 0;
        while i < self.collected.len()
            invariant
                i <= self.collected@.len(),
                collected@ == self.collected@.take(i as int),
            decreases self.collected@.len() - i,
        {
            collected.push(self.collected[i]);
            assert(self.collected@.take(i + 1) =~= self.collected@.take(i as int).push(
                self.collected@[i as int],
            ));
            i += 1;
        }
        assert(self.collected@.take(self.collected@.len() as int) =~= self.collected@);
        let copy = Tally { collected };
        assert(copy@ =~= self@);
        copy
    }
}

impl Tally {
    /// The tally has one entry for each colour, in the order of the
    /// colours.
    #[verifier::type_invariant]
    closed spec fn wf(&self) -> bool {
        &&& self.collected@.len() == 3
        &&& forall|i: int| 0 <= i < 3 ==> (#[trigger] self.collected@[i]).0 == Color::all()[i]
    }

    /// The place of a colour in the tally.
    closed spec fn place(color: Color) -> int {
        match color {
            Color::Blue => 0,
            Color::Green => 1,
            Color::Red => 2,
        }
    }

    closed spec fn amount(&self, color: Color) -> nat {
        self.collected@[Self::place(color)].1 as nat
    }

    /// Creates a new tally with nothing collected.
    pub fn new() -> (tally: Tally)
        ensures
            forall|color: Color| #[trigger] tally@[color] == 0,
    {
        let colors = Color::values();
        let mut collected: Vec<(Color, u32)> = Vec::new();
        let mut i: usize = 0;
        while i < colors.len()
            invariant
                i <= colors@.len(),
                colors@ == Color::all(),
                collected@.len() == i,
                forall|k: int| 0 <= k < i ==> #[trigger] collected@[k] == (colors@[k], 0u32),
            decreases colors@.len() - i,
        {
            collected.push((colors[i], 0));
            i += 1;
        }
        let tally = Tally { collected };
        proof {
            lemma_all_colors(Color::Blue);
            assert forall|color: Color| #[trigger] tally@[color] == 0 by {
                assert(tally.collected@[Self::place(color)] == (colors@[Self::place(color)], 0u32));
            }
        }
        tally
    }

    /// Returns the current score: the least amount collected of any colour.
    pub fn score(&self) -> (score: u32)
        ensures
            score == least(self@[Color::Blue], self@[Color::Green], self@[Color::Red]),
    {
        proof {
            use_type_invariant(self);
        }
        let mut score: u32 = self.collected[0].1;
        let mut i: usize = 1;
        while i < self.collected.len()
            invariant
                1 <= i <= 3,
                self.collected@.len() == 3,
                i == 1 ==> score == self.collected@[0].1,
                i == 2 ==> score == least(
                    self.collected@[0].1 as nat,
                    self.collected@[1].1 as nat,
                    self.collected@[1].1 as nat,
                ),
                i == 3 ==> score == least(
                    self.collected@[0].1 as nat,
                    self.collected@[1].1 as nat,
                    self.collected@[2].1 as nat,
                ),
            decreases 3 - i,
        {
            if self.collected[i].1 < score {
                score = self.collected[i].1;
            }
            i += 1;
        }
        score
    }

    /// Returns the amount collected for the given colour.
    pub fn get(&self, color: Color) -> (amount: u32)
        ensures
            amount == self@[color],
    {
        proof {
            use_type_invariant(self);
        }
        let mut i: usize = 0;
        while i < self.collected.len()
            invariant
                i <= 3,
                self.wf(),
                forall|k: int| 0 <= k < i ==> (#[trigger] self.collected@[k]).0 != color,
            decreases 3 - i,
        {
            if self.collected[i].0 == color {
                return self.collected[i].1;
            }
            i += 1;
        }
        proof {
            assert(self.collected@[Self::place(color)].0 == color);
            assert(false);
        }
        0
    }

    /// Increments the tally for the given colour.
    pub fn update(&mut self, color: Color)
        requires
            old(self)@[color] < u32::MAX,
        ensures
            final(self)@ == old(self)@.insert(color, old(self)@[color] + 1),
    {
        proof {
            use_type_invariant(&*self);
            lemma_all_colors(color);
        }
        let mut next: Vec<(Color, u32)> = Vec::new();
        let mut i: usize = 0;
        while i < self.collected.len()
            invariant
                i <= 3,
                self.wf(),
                *self == *old(self),
                old(self)@[color] < u32::MAX,
                next@.len() == i,
                forall|k: int|
                    0 <= k < i ==> #[trigger] next@[k] == (
                        self.collected@[k].0,
                        if k == Self::place(color) {
                            (self.collected@[k].1 + 1) as u32
                        } else {
                            self.collected@[k].1
                        },
                    ),
            decreases 3 - i,
        {
            let (entry, amount) = self.collected[i];
            if entry == color {
                assert(Color::all()[i as int] == color);
                assert(amount == old(self)@[color]);
                next.push((entry, amount + 1));
            } else {
                next.push((entry, amount));
            }
            i += 1;
        }
        self.collected = next;
        proof {
            assert forall|other: Color| #[trigger]
                self@[other] == old(self)@.insert(color, old(self)@[color] + 1)[other] by {
                assert(self.collected@[Self::place(other)] == next@[Self::place(other)]);
            }
            assert(self@ =~= old(self)@.insert(color, old(self)@[color] + 1));
        }
    }
}

} // verus!
