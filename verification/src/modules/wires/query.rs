//! The conditions that the rules of the Wires module ask about.

use crate::edgework::{Edgework, EdgeworkModel, PortType};
use crate::modules::wires::WireColor;
use vstd::prelude::*;

verus! {

/// A condition on the edgework of a bomb.
#[derive(Debug, Copy, Clone, PartialEq, Eq, Hash, Structural)]
pub enum EdgeworkQuery {
    SerialStartsWithLetter,
    SerialOdd,
    HasEmptyPortPlate,
    PortPresent(PortType),
}

/// The kinds of condition on the colors of the wires of a module.
#[derive(Debug, Copy, Clone, PartialEq, Eq, Hash, Structural)]
pub enum WireQueryType {
    /// If there is exactly one _color_ wire...
    ExactlyOne,
    /// If there are no _color_ wires...
    NotPresent,
    /// If the last wire is _color_...
    LastWireIs,
    /// If there is more than one _color_ wire...
    MoreThanOne,
}

/// A condition on the colors of the wires of a module.
#[derive(Debug, Copy, Clone, PartialEq, Eq, Structural)]
pub struct WireQuery {
    pub query_type: WireQueryType,
    pub color: WireColor,
}

/// A single condition of a rule.
#[derive(Debug, Copy, Clone, PartialEq, Eq, Structural)]
pub enum Query {
    Edgework(EdgeworkQuery),
    Wire(WireQuery),
}

/// The number of wires in `wires` that have the color `color`.
pub open spec fn count_of(wires: Seq<WireColor>, color: WireColor) -> nat
    decreases wires.len(),
{
    if wires.len() == 0 {
        0
    } else {
        count_of(wires.drop_last(), color) + if wires.last() == color {
            1nat
        } else {
            0nat
        }
    }
}

/// A color that is counted is there.
pub proof fn lemma_counted_is_there(wires: Seq<WireColor>, color: WireColor)
    ensures
        count_of(wires, color) > 0 <==> wires.contains(color),
    decreases wires.len(),
{
    if wires.len() > 0 {
        lemma_counted_is_there(wires.drop_last(), color);
        if wires.last() == color {
            assert(wires[wires.len() - 1] == color);
        } else if wires.contains(color) {
            let i = choose|i: int| 0 <= i < wires.len() && wires[i] == color;
            assert(wires.drop_last()[i] == color);
        } else if wires.drop_last().contains(color) {
            let i = choose|i: int| 0 <= i < wires.drop_last().len() && wires.drop_last()[i] == color;
            assert(wires[i] == color);
        }
    }
}

impl EdgeworkQuery {
    /// Whether the condition holds of the edgework.
    pub open spec fn holds(self, edgework: EdgeworkModel) -> bool {
        match self {
            EdgeworkQuery::SerialStartsWithLetter => 0x41 <= edgework.serial[0] <= 0x5A,
            EdgeworkQuery::SerialOdd => (edgework.serial[5] - 0x30) % 2 == 1,
            EdgeworkQuery::HasEmptyPortPlate => exists|i: int|
                0 <= i < edgework.plates.len() && (#[trigger] edgework.plates[i]).none(),
            EdgeworkQuery::PortPresent(port) => exists|i: int|
                0 <= i < edgework.plates.len() && (#[trigger] edgework.plates[i]).has(port),
        }
    }

    /// Tells whether the condition holds of the edgework.
    #[verifier::loop_isolation(false)]
    pub fn evaluate(self, edgework: &Edgework) -> (r: bool)
        requires
            edgework.wf(),
        ensures
            r == self.holds(edgework@),
    {
        match self {
            EdgeworkQuery::SerialStartsWithLetter => {
                let first: u8 = edgework.serial_number.as_bytes()[0];
                0x41 <= first && first <= 0x5A
            },
            EdgeworkQuery::SerialOdd => edgework.serial_number.last_digit() % 2 == 1,
            EdgeworkQuery::HasEmptyPortPlate => {
                let mut i: usize = 0;
                while i < edgework.port_plates.len()
                    invariant
                        i <= edgework.port_plates@.len(),
                        forall|k: int| 0 <= k < i ==> !(#[trigger] edgework@.plates[k]).none(),
                    decreases edgework.port_plates.len() - i,
                {
                    if edgework.port_plates[i].is_empty() {
                        assert(edgework@.plates[i as int].none());
                        return true;
                    }
                    i = i + 1;
                }
                false
            },
            EdgeworkQuery::PortPresent(port) => {
                let mut i: usize = 0;
                while i < edgework.port_plates.len()
                    invariant
                        i <= edgework.port_plates@.len(),
                        forall|k: int| 0 <= k < i ==> !(#[trigger] edgework@.plates[k]).has(port),
                    decreases edgework.port_plates.len() - i,
                {
                    if edgework.port_plates[i].has(port) {
                        assert(edgework@.plates[i as int].has(port));
                        return true;
                    }
                    i = i + 1;
                }
                false
            },
        }
    }
}

impl WireQueryType {
    /// The number of wires that a condition of this kind says something
    /// about.
    pub fn wires_involved(self) -> (n: usize)
        ensures
            n == self.involved(),
    {
        match self {
            WireQueryType::MoreThanOne => 2,
            WireQueryType::NotPresent => 0,
            _ => 1,
        }
    }

    /// The number of wires that a condition of this kind says something
    /// about.
    pub open spec fn involved(self) -> nat {
        match self {
            WireQueryType::MoreThanOne => 2,
            WireQueryType::NotPresent => 0,
            _ => 1,
        }
    }
}

impl WireQuery {
    /// Whether the condition holds of the wires.
    pub open spec fn holds(self, wires: Seq<WireColor>) -> bool {
        match self.query_type {
            WireQueryType::LastWireIs => wires.len() > 0 && wires.last() == self.color,
            WireQueryType::ExactlyOne => count_of(wires, self.color) == 1,
            WireQueryType::MoreThanOne => count_of(wires, self.color) > 1,
            WireQueryType::NotPresent => count_of(wires, self.color) == 0,
        }
    }

    /// The number of wires that the condition says something about.
    pub fn wires_involved(self) -> (n: usize)
        ensures
            n == self.query_type.involved(),
    {
        self.query_type.wires_involved()
    }

    /// Tells whether the condition holds of the wires.
    pub fn evaluate(self, wires: &[WireColor]) -> (r: bool)
        requires
            self.query_type == WireQueryType::LastWireIs ==> wires@.len() > 0,
        ensures
            r == self.holds(wires@),
    {
        match self.query_type {
            WireQueryType::LastWireIs => wires[wires.len() - 1] == self.color,
            WireQueryType::ExactlyOne => count_wires(wires, self.color) == 1,
            WireQueryType::MoreThanOne => count_wires(wires, self.color) > 1,
            WireQueryType::NotPresent => count_wires(wires, self.color) == 0,
        }
    }
}

/// Counts the wires that have the color `color`.
pub fn count_wires(wires: &[WireColor], color: WireColor) -> (n: usize)
    ensures
        n == count_of(wires@, color),
{
    let mut n: usize = 0;
    let mut i: usize = 0;
    assert(wires@.take(0) =~= Seq::<WireColor>::empty());
    while i < wires.len()
        invariant
            i <= wires@.len(),
            n <= i,
            n == count_of(wires@.take(i as int), color),
        decreases wires.len() - i,
    {
        assert(wires@.take(i + 1).drop_last() =~= wires@.take(i as int));
        if wires[i] == color {
            n = n + 1;
        }
        i = i + 1;
    }
    assert(wires@.take(i as int) =~= wires@);
    n
}

impl Query {
    /// Whether the condition holds of the edgework and the wires.
    pub open spec fn holds(self, edgework: EdgeworkModel, wires: Seq<WireColor>) -> bool {
        match self {
            Query::Edgework(query) => query.holds(edgework),
            Query::Wire(query) => query.holds(wires),
        }
    }

    /// Whether the condition is about the last wire.
    pub open spec fn asks_last_wire(self) -> bool {
        self matches Query::Wire(query) && query.query_type == WireQueryType::LastWireIs
    }

    /// The number of wires that the condition says something about.
    pub open spec fn involved(self) -> nat {
        match self {
            Query::Edgework(_) => 0,
            Query::Wire(query) => query.query_type.involved(),
        }
    }

    /// The color that is sure to be on the module where the condition holds.
    pub open spec fn sure_color(self) -> Option<WireColor> {
        match self {
            Query::Wire(query) => match query.query_type {
                WireQueryType::NotPresent => None,
                _ => Some(query.color),
            },
            Query::Edgework(_) => None,
        }
    }

    /// Tells whether the condition holds of the edgework and the wires.
    pub fn evaluate(self, edgework: &Edgework, wires: &[WireColor]) -> (r: bool)
        requires
            edgework.wf(),
            self.asks_last_wire() ==> wires@.len() > 0,
        ensures
            r == self.holds(edgework@, wires@),
    {
        match self {
            Query::Edgework(query) => query.evaluate(edgework),
            Query::Wire(query) => query.evaluate(wires),
        }
    }

    /// Tells whether the condition is about the last wire.
    pub fn is_about_last_wire(self) -> (r: bool)
        ensures
            r == self.asks_last_wire(),
    {
        match self {
            Query::Wire(wire) => match wire.query_type {
                WireQueryType::LastWireIs => true,
                _ => false,
            },
            Query::Edgework(_) => false,
        }
    }

    /// The number of wires that the condition says something about.
    pub fn wires_involved(self) -> (n: usize)
        ensures
            n == self.involved(),
    {
        match self {
            Query::Edgework(_) => 0,
            Query::Wire(query) => query.wires_involved(),
        }
    }

    /// If a wire of some color is sure to be there where the condition
    /// holds, returns that color.
    pub fn solution_color(self) -> (color: Option<WireColor>)
        ensures
            color == self.sure_color(),
    {
        match self {
            Query::Wire(query) => match query.query_type {
                WireQueryType::NotPresent => None,
                _ => Some(query.color),
            },
            Query::Edgework(_) => None,
        }
    }

    /// Where the condition holds, its sure color is among the wires.
    pub proof fn lemma_sure_color(self, edgework: EdgeworkModel, wires: Seq<WireColor>)
        requires
            self.holds(edgework, wires),
        ensures
            self.sure_color() matches Some(color) ==> wires.contains(color),
    {
        if let Query::Wire(query) = self {
            lemma_counted_is_there(wires, query.color);
            if query.query_type == WireQueryType::LastWireIs {
                assert(wires[wires.len() - 1] == query.color);
            }
        }
    }
}

} // verus!
