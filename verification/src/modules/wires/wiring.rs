//! Wires that may be any, on a module of the Wires kind.

use crate::chance::{draw_between, lemma_shuffled, numbers_below, partial_shuffle};
use crate::modules::wires::kinds::all_colors;
use crate::modules::wires::WireColor;
use rand::rngs::StdRng;
use vstd::prelude::*;

verus! {

/// The number of slots of `wires` that hold a wire.
pub open spec fn placed(wires: Seq<Option<WireColor>>) -> nat
    decreases wires.len(),
{
    if wires.len() == 0 {
        0
    } else {
        placed(wires.drop_last()) + if wires.last() is Some {
            1nat
        } else {
            0nat
        }
    }
}

/// A wire that is put into an empty slot is one more.
pub proof fn lemma_placed_update(wires: Seq<Option<WireColor>>, i: int, wire: WireColor)
    requires
        0 <= i < wires.len(),
        wires[i] is None,
    ensures
        placed(wires.update(i, Some(wire))) == placed(wires) + 1,
    decreases wires.len(),
{
    let updated = wires.update(i, Some(wire));
    if i == wires.len() - 1 {
        assert(updated.drop_last() =~= wires.drop_last());
    } else {
        assert(updated.drop_last() =~= wires.drop_last().update(i, Some(wire)));
        lemma_placed_update(wires.drop_last(), i, wire);
    }
}

/// Empty slots hold no wire.
pub proof fn lemma_placed_none(wires: Seq<Option<WireColor>>)
    requires
        forall|i: int| 0 <= i < wires.len() ==> wires[i] is None,
    ensures
        placed(wires) == 0,
    decreases wires.len(),
{
    if wires.len() > 0 {
        lemma_placed_none(wires.drop_last());
    }
}

impl WireColor {
    /// The color in place `i` of the five, if `i` is below five.
    pub fn from_index(i: usize) -> (color: Option<WireColor>)
        ensures
            color is Some <==> i < 5,
            color matches Some(c) ==> c == all_colors()[i as int],
    {
        match i {
            0 => Some(WireColor::Black),
            1 => Some(WireColor::Blue),
            2 => Some(WireColor::Red),
            3 => Some(WireColor::White),
            4 => Some(WireColor::Yellow),
            _ => None,
        }
    }
}

/// Draws the wires of a module as the game does: three to six wires, six
/// more often than any other number, each of any color and in any of the six
/// slots. A slot holds `Some` color where there is a wire in it. The number
/// of wires is returned beside the slots.
pub fn generate(rng: &mut StdRng) -> (module: ([Option<WireColor>; 6], u8))
    ensures
        3 <= module.1 <= 6,
        placed(module.0@) == module.1,
        exists|count: u32, places: Seq<u8>, colors: Seq<WireColor>|
            3 <= count < 9 && places.to_multiset() == Seq::new(6, |i: int| i as u8).to_multiset()
                && colors.len() == wires_drawn(count) && module.0@ == drawn_wires(
                count,
                places,
                colors,
            ) && module.1 == wires_drawn(count),
{
    let count: u32 = draw_between(rng, 3, 9);
    let wire_count: usize = if count > 6 {
        6
    } else {
        count as usize
    };
    let mut places = numbers_below(6);
    let ghost unshuffled = places@;
    partial_shuffle(rng, &mut places, wire_count);
    proof {
        lemma_shuffled(unshuffled, places@);
        assert forall|k: int| 0 <= k < 6 implies (#[trigger] places@[k]) < 6 by {
            let at = choose|at: int| 0 <= at < 6 && unshuffled[at] == places@[k];
            assert(unshuffled[at] == at);
        }
    }
    let mut colors: Vec<WireColor> = Vec::new();
    while colors.len() < wire_count
        invariant
            colors@.len() <= wire_count,
        decreases wire_count - colors@.len(),
    {
        let color = WireColor::from_index(draw_between(rng, 0, 5) as usize).unwrap();
        colors.push(color);
    }
    let module = from_draws(count, places.as_slice(), colors.as_slice());
    assert(3 <= count < 9 && places@.to_multiset() == Seq::new(6, |i: int| i as u8).to_multiset()
        && colors@.len() == wires_drawn(count) && module.0@ == drawn_wires(
        count,
        places@,
        colors@,
    ) && module.1 == wires_drawn(count));
    module
}

/// The number of wires of a module for which `count` was drawn: `count`, but
/// no more than six.
pub open spec fn wires_drawn(count: u32) -> nat {
    if count > 6 {
        6
    } else {
        count as nat
    }
}

/// The slots after the first `n` colors have been put into the slots that
/// `places` names from `first` on.
pub open spec fn wired(places: Seq<u8>, colors: Seq<WireColor>, first: int, n: int) -> Seq<
    Option<WireColor>,
>
    decreases n,
{
    if n <= 0 {
        Seq::new(6, |i: int| None)
    } else {
        wired(places, colors, first, n - 1).update(
            places[first + n - 1] as int,
            Some(colors[n - 1]),
        )
    }
}

/// The slots of the module that draws make: the wires go into the slots
/// that the last places of `places` name, as many as there are wires, and
/// have the colors `colors` in that order.
pub open spec fn drawn_wires(count: u32, places: Seq<u8>, colors: Seq<WireColor>) -> Seq<
    Option<WireColor>,
> {
    wired(places, colors, 6 - wires_drawn(count), wires_drawn(count) as int)
}

/// The module that draws make: `count` is the number drawn for its wires,
/// which are no more than six, `places` the slots in the order into which
/// they were shuffled, and `colors` the colors of the wires.
pub fn from_draws(count: u32, places: &[u8], colors: &[WireColor]) -> (module: (
    [Option<WireColor>; 6],
    u8,
))
    requires
        3 <= count < 9,
        places@.len() == 6,
        places@.no_duplicates(),
        forall|k: int| 0 <= k < 6 ==> places@[k] < 6,
        colors@.len() >= wires_drawn(count),
    ensures
        module.1 == wires_drawn(count),
        module.0@ == drawn_wires(count, places@, colors@),
        placed(module.0@) == module.1,
{
    let wire_count: usize = if count > 6 {
        6
    } else {
        count as usize
    };
    let first: usize = 6 - wire_count;
    let mut wires: [Option<WireColor>; 6] = [None;6];
    proof {
        lemma_placed_none(wires@);
        assert(wires@ =~= wired(places@, colors@, first as int, 0));
    }
    let mut n: usize = 0;
    while n < wire_count
        invariant
            3 <= wire_count <= 6,
            first == 6 - wire_count,
            n <= wire_count,
            places@.len() == 6,
            places@.no_duplicates(),
            forall|k: int| 0 <= k < 6 ==> (#[trigger] places@[k]) < 6,
            colors@.len() >= wire_count,
            wires@.len() == 6,
            forall|k: int| first + n <= k < 6 ==> wires@[(#[trigger] places@[k]) as int] is None,
            placed(wires@) == n,
            wires@ == wired(places@, colors@, first as int, n as int),
        decreases wire_count - n,
    {
        let position: usize = places[first + n] as usize;
        let color = colors[n];
        proof {
            lemma_placed_update(wires@, position as int, color);
        }
        wires[position] = Some(color);
        n = n + 1;
    }
    (wires, wire_count as u8)
}

} // verus!
