use vstd::prelude::*;

verus! {

/// A colour of the game's palette; also the kind of a traded good.
#[derive(Debug, Clone, Copy, PartialEq, Eq, Hash, Structural)]
pub enum Color {
    Blue,
    Green,
    Red,
}

impl Color {
    /// The red, green and blue components of a colour.
    pub open spec fn rgb_spec(self) -> (u8, u8, u8) {
        match self {
            Color::Blue => (72u8, 133u8, 237u8),
            Color::Green => (60u8, 186u8, 88u8),
            Color::Red => (219u8, 50u8, 54u8),
        }
    }

    /// Every colour, in declaration order.
    pub open spec fn all() -> Seq<Color> {
        seq![Color::Blue, Color::Green, Color::Red]
    }

    /// Returns the colour's components in the RGB scheme.
    pub fn rgb(self) -> (c: (u8, u8, u8))
        ensures
            c == self.rgb_spec(),
    {
        match self {
            Color::Blue => (72, 133, 237),
            Color::Green => (60, 186, 88),
            Color::Red => (219, 50, 54),
        }
    }

    /// Returns all colour variants.
    pub fn values() -> (v: Vec<Color>)
        ensures
            v@ == Color::all(),
    {
        let mut v: Vec<Color> = Vec::new();
        v.push(Color::Blue);
        v.push(Color::Green);
        v.push(Color::Red);
        assert(v@ =~= Color::all());
        v
    }
}

/// Every colour occurs in `Color::all()`, and none twice.
pub proof fn lemma_all_colors(c: Color)
    ensures
        Color::all().len() == 3,
        Color::all().contains(c),
        Color::all().no_duplicates(),
{
    let s = Color::all();
    assert(s[0] == Color::Blue && s[1] == Color::Green && s[2] == Color::Red);
    match c {
        Color::Blue => assert(s[0] == c),
        Color::Green => assert(s[1] == c),
        Color::Red => assert(s[2] == c),
    }
}

} // verus!
