//! What the rules of the Wires module tell the player to do.

use crate::modules::wires::WireColor;
use vstd::prelude::*;

verus! {

/// The wire that the player has to cut.
#[derive(Debug, Copy, Clone, PartialEq, Eq, Structural)]
pub enum WireSolution {
    /// Cut the wire in this place, counted from zero.
    Index(u8),
    /// Cut the wire of this color. The rules of the game say so only where
    /// there is one such wire; generated rules may say so where there are
    /// more, and then any wire of the color will do.
    TheOneOfColor(WireColor),
    /// Cut the first wire of this color.
    FirstOfColor(WireColor),
    /// Cut the last wire of this color.
    LastOfColor(WireColor),
}

/// The wire to cut, for short.
pub type Solution = WireSolution;

/// The place of the first wire from `from` on that has the color `color`;
/// the number of wires where there is none.
pub open spec fn first_of(wires: Seq<WireColor>, color: WireColor, from: int) -> int
    decreases wires.len() - from,
{
    if from < 0 || from >= wires.len() {
        wires.len() as int
    } else if wires[from] == color {
        from
    } else {
        first_of(wires, color, from + 1)
    }
}

/// The place of the last wire before `upto` that has the color `color`;
/// `-1` where there is none.
pub open spec fn last_of(wires: Seq<WireColor>, color: WireColor, upto: int) -> int
    decreases upto,
{
    if upto <= 0 || upto > wires.len() {
        -1
    } else if wires[upto - 1] == color {
        upto - 1
    } else {
        last_of(wires, color, upto - 1)
    }
}

/// The first wire of a color that is there is one of the wires, and has
/// that color.
pub proof fn lemma_first_of(wires: Seq<WireColor>, color: WireColor, from: int)
    requires
        0 <= from,
        exists|i: int| from <= i < wires.len() && wires[i] == color,
    ensures
        from <= first_of(wires, color, from) < wires.len(),
        wires[first_of(wires, color, from)] == color,
    decreases wires.len() - from,
{
    if wires[from] != color {
        lemma_first_of(wires, color, from + 1);
    }
}

/// The last wire of a color that is there is one of the wires, and has that
/// color.
pub proof fn lemma_last_of(wires: Seq<WireColor>, color: WireColor, upto: int)
    requires
        upto <= wires.len(),
        exists|i: int| 0 <= i < upto && wires[i] == color,
    ensures
        0 <= last_of(wires, color, upto) < upto,
        wires[last_of(wires, color, upto)] == color,
    decreases upto,
{
    if wires[upto - 1] != color {
        lemma_last_of(wires, color, upto - 1);
    }
}

impl WireSolution {
    /// The place of the wire to cut.
    pub open spec fn index_in(self, wires: Seq<WireColor>) -> int {
        match self {
            WireSolution::Index(n) => n as int,
            WireSolution::FirstOfColor(color) | WireSolution::TheOneOfColor(color) => first_of(
                wires,
                color,
                0,
            ),
            WireSolution::LastOfColor(color) => last_of(wires, color, wires.len() as int),
        }
    }

    /// The color that the solution names.
    pub open spec fn color(self) -> Option<WireColor> {
        match self {
            WireSolution::Index(_) => None,
            WireSolution::FirstOfColor(color)
            | WireSolution::TheOneOfColor(color)
            | WireSolution::LastOfColor(color) => Some(color),
        }
    }

    /// Whether the solution can be carried out on `wires`: the color that
    /// it names is there, and there are no more wires than a `u8` counts.
    pub open spec fn fits(self, wires: Seq<WireColor>) -> bool {
        self.color() matches Some(color) ==> wires.contains(color) && wires.len() <= 256
    }

    /// Whether cutting the wire in place `index` follows the solution.
    pub open spec fn met_by(self, wires: Seq<WireColor>, index: int) -> bool {
        match self {
            WireSolution::TheOneOfColor(color) => wires[index] == color,
            _ => self.index_in(wires) == index,
        }
    }

    /// The place of a wire that the solution says to cut, counted from zero.
    /// Where more than one wire will do, [`WireSolution::check`] takes any
    /// of them.
    pub fn as_index(self, wires: &[WireColor]) -> (index: u8)
        requires
            self.fits(wires@),
        ensures
            index == self.index_in(wires@),
            self.color() is Some ==> index < wires@.len(),
    {
        match self {
            WireSolution::Index(n) => n,
            WireSolution::FirstOfColor(color) | WireSolution::TheOneOfColor(color) => {
                let mut i: usize = 0;
                proof {
                    lemma_first_of(wires@, color, 0);
                }
                while wires[i] != color
                    invariant
                        0 <= i < wires@.len(),
                        first_of(wires@, color, i as int) == first_of(wires@, color, 0),
                        first_of(wires@, color, 0) < wires@.len() <= 256,
                    decreases wires@.len() - i,
                {
                    assert(first_of(wires@, color, i as int) == first_of(wires@, color, i + 1));
                    assert(i + 1 >= wires@.len() ==> first_of(wires@, color, i + 1)
                        == wires@.len());
                    i = i + 1;
                }
                i as u8
            },
            WireSolution::LastOfColor(color) => {
                let mut i: usize = wires.len();
                proof {
                    lemma_last_of(wires@, color, wires@.len() as int);
                }
                while wires[i - 1] != color
                    invariant
                        0 < i <= wires@.len(),
                        last_of(wires@, color, i as int) == last_of(
                            wires@,
                            color,
                            wires@.len() as int,
                        ),
                        0 <= last_of(wires@, color, wires@.len() as int),
                        wires@.len() <= 256,
                    decreases i,
                {
                    assert(last_of(wires@, color, i as int) == last_of(wires@, color, i - 1));
                    assert(i - 1 <= 0 ==> last_of(wires@, color, i - 1) == -1);
                    i = i - 1;
                }
                (i - 1) as u8
            },
        }
    }

    /// Tells whether the wire in place `index` was the right one to cut.
    pub fn check(self, wires: &[WireColor], index: u8) -> (r: bool)
        requires
            self is TheOneOfColor ==> index < wires@.len(),
            !(self is TheOneOfColor) ==> self.fits(wires@),
        ensures
            r == self.met_by(wires@, index as int),
    {
        match self {
            WireSolution::TheOneOfColor(color) => wires[index as usize] == color,
            _ => self.as_index(wires) == index,
        }
    }
}

} // verus!
