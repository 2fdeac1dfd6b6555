//! The kinds of condition and of solution that the rule generator chooses
//! among before it gives them a color, and the weights it chooses by.

use crate::binary64::{lemma_decay, one, Double};
use crate::edgework::PortType;
use crate::modules::wires::query::{EdgeworkQuery, Query, WireQuery, WireQueryType};
use crate::modules::wires::solution::WireSolution;
use crate::modules::wires::WireColor;
use vstd::prelude::*;

verus! {

/// A kind of condition: a condition on the edgework, or a condition on the
/// wires without its color.
#[derive(Debug, Copy, Clone, PartialEq, Eq, Hash, Structural)]
pub enum QueryType {
    Edgework(EdgeworkQuery),
    Wire(WireQueryType),
}

/// A kind of solution: a solution without its color.
#[derive(Debug, Copy, Clone, PartialEq, Eq, Hash, Structural)]
pub enum ColorlessSolution {
    Index(u8),
    TheOneOfColor,
    FirstOfColor,
    LastOfColor,
}

/// The number of kinds of condition.
pub const QUERY_TYPE_COUNT: usize = 13;

/// The number of kinds of solution on a module of up to six wires.
pub const SOLUTION_TYPE_COUNT: usize = 9;

impl PortType {
    /// The place of the port among the six.
    pub open spec fn index(self) -> int {
        match self {
            PortType::DVI => 0,
            PortType::PS2 => 1,
            PortType::RJ45 => 2,
            PortType::StereoRCA => 3,
            PortType::Parallel => 4,
            PortType::Serial => 5,
        }
    }
}

impl QueryType {
    /// The slot that holds the weight of the kind.
    pub open spec fn slot(self) -> int {
        match self {
            QueryType::Edgework(EdgeworkQuery::SerialStartsWithLetter) => 0,
            QueryType::Edgework(EdgeworkQuery::SerialOdd) => 1,
            QueryType::Edgework(EdgeworkQuery::HasEmptyPortPlate) => 2,
            QueryType::Edgework(EdgeworkQuery::PortPresent(port)) => 3 + port.index(),
            QueryType::Wire(WireQueryType::ExactlyOne) => 9,
            QueryType::Wire(WireQueryType::NotPresent) => 10,
            QueryType::Wire(WireQueryType::LastWireIs) => 11,
            QueryType::Wire(WireQueryType::MoreThanOne) => 12,
        }
    }

    /// The kind of the condition `query`.
    pub open spec fn of(query: Query) -> QueryType {
        match query {
            Query::Edgework(q) => QueryType::Edgework(q),
            Query::Wire(q) => QueryType::Wire(q.query_type),
        }
    }

    /// The slot that holds the weight of the kind.
    pub fn to_slot(self) -> (slot: usize)
        ensures
            slot == self.slot(),
            slot < 13,
    {
        match self {
            QueryType::Edgework(EdgeworkQuery::SerialStartsWithLetter) => 0,
            QueryType::Edgework(EdgeworkQuery::SerialOdd) => 1,
            QueryType::Edgework(EdgeworkQuery::HasEmptyPortPlate) => 2,
            QueryType::Edgework(EdgeworkQuery::PortPresent(port)) => match port {
                PortType::DVI => 3,
                PortType::PS2 => 4,
                PortType::RJ45 => 5,
                PortType::StereoRCA => 6,
                PortType::Parallel => 7,
                PortType::Serial => 8,
            },
            QueryType::Wire(WireQueryType::ExactlyOne) => 9,
            QueryType::Wire(WireQueryType::NotPresent) => 10,
            QueryType::Wire(WireQueryType::LastWireIs) => 11,
            QueryType::Wire(WireQueryType::MoreThanOne) => 12,
        }
    }

    /// The kind of the condition `query`.
    pub fn from(query: Query) -> (kind: QueryType)
        ensures
            kind == QueryType::of(query),
    {
        match query {
            Query::Edgework(q) => QueryType::Edgework(q),
            Query::Wire(q) => QueryType::Wire(q.query_type),
        }
    }
}

/// The kinds of the first condition of a rule, in the order in which the
/// generator weighs them.
pub open spec fn primary_queries() -> Seq<QueryType> {
    seq![
        QueryType::Wire(WireQueryType::ExactlyOne),
        QueryType::Wire(WireQueryType::NotPresent),
        QueryType::Wire(WireQueryType::LastWireIs),
        QueryType::Wire(WireQueryType::MoreThanOne),
    ]
}

/// The kinds of condition on the wires that say something about fewer than
/// `uninvolved` wires.
pub open spec fn spare_wire_queries(uninvolved: int) -> Seq<QueryType> {
    if uninvolved >= 3 {
        primary_queries()
    } else if uninvolved == 2 {
        seq![
            QueryType::Wire(WireQueryType::ExactlyOne),
            QueryType::Wire(WireQueryType::NotPresent),
            QueryType::Wire(WireQueryType::LastWireIs),
        ]
    } else if uninvolved == 1 {
        seq![QueryType::Wire(WireQueryType::NotPresent)]
    } else {
        Seq::empty()
    }
}

/// The kinds of the second condition of a rule, in the order in which the
/// generator weighs them, where the first condition leaves `uninvolved`
/// wires alone: the conditions on the serial number, the conditions on the
/// wires that say something about fewer than `uninvolved` wires, and the
/// conditions on the ports.
pub open spec fn secondary_queries(uninvolved: int) -> Seq<QueryType> {
    seq![
        QueryType::Edgework(EdgeworkQuery::SerialStartsWithLetter),
        QueryType::Edgework(EdgeworkQuery::SerialOdd),
    ] + spare_wire_queries(uninvolved) + seq![
        QueryType::Edgework(EdgeworkQuery::PortPresent(PortType::DVI)),
        QueryType::Edgework(EdgeworkQuery::PortPresent(PortType::PS2)),
        QueryType::Edgework(EdgeworkQuery::PortPresent(PortType::RJ45)),
        QueryType::Edgework(EdgeworkQuery::PortPresent(PortType::StereoRCA)),
        QueryType::Edgework(EdgeworkQuery::PortPresent(PortType::Parallel)),
        QueryType::Edgework(EdgeworkQuery::PortPresent(PortType::Serial)),
        QueryType::Edgework(EdgeworkQuery::HasEmptyPortPlate),
    ]
}

/// The five colors, in their order.
pub open spec fn all_colors() -> Seq<WireColor> {
    seq![WireColor::Black, WireColor::Blue, WireColor::Red, WireColor::White, WireColor::Yellow]
}

impl ColorlessSolution {
    /// The slot that holds the weight of the kind.
    pub open spec fn slot(self) -> int {
        match self {
            ColorlessSolution::Index(n) => n as int,
            ColorlessSolution::TheOneOfColor => 6,
            ColorlessSolution::FirstOfColor => 7,
            ColorlessSolution::LastOfColor => 8,
        }
    }

    /// Whether the kind takes a color.
    pub open spec fn takes_color(self) -> bool {
        !(self is Index)
    }

    /// The kind of the solution `solution`.
    pub open spec fn of(solution: WireSolution) -> ColorlessSolution {
        match solution {
            WireSolution::Index(n) => ColorlessSolution::Index(n),
            WireSolution::TheOneOfColor(_) => ColorlessSolution::TheOneOfColor,
            WireSolution::FirstOfColor(_) => ColorlessSolution::FirstOfColor,
            WireSolution::LastOfColor(_) => ColorlessSolution::LastOfColor,
        }
    }

    /// The solution of this kind with the color `color`.
    pub open spec fn with_color(self, color: WireColor) -> WireSolution {
        match self {
            ColorlessSolution::Index(n) => WireSolution::Index(n),
            ColorlessSolution::TheOneOfColor => WireSolution::TheOneOfColor(color),
            ColorlessSolution::FirstOfColor => WireSolution::FirstOfColor(color),
            ColorlessSolution::LastOfColor => WireSolution::LastOfColor(color),
        }
    }

    /// The slot that holds the weight of the kind.
    pub fn to_slot(self) -> (slot: usize)
        requires
            self matches ColorlessSolution::Index(n) ==> n < 6,
        ensures
            slot == self.slot(),
            slot < 9,
    {
        match self {
            ColorlessSolution::Index(n) => n as usize,
            ColorlessSolution::TheOneOfColor => 6,
            ColorlessSolution::FirstOfColor => 7,
            ColorlessSolution::LastOfColor => 8,
        }
    }

    /// The kind of the solution `solution`.
    pub fn from(solution: WireSolution) -> (kind: ColorlessSolution)
        ensures
            kind == ColorlessSolution::of(solution),
    {
        match solution {
            WireSolution::Index(n) => ColorlessSolution::Index(n),
            WireSolution::TheOneOfColor(_) => ColorlessSolution::TheOneOfColor,
            WireSolution::FirstOfColor(_) => ColorlessSolution::FirstOfColor,
            WireSolution::LastOfColor(_) => ColorlessSolution::LastOfColor,
        }
    }
}

/// The kinds of solution that the conditions from the `i`th on allow beyond
/// cutting by place, after `found`: the one wire of a color where one says
/// that there is exactly one, the first and the last of a color where one
/// says that there is more than one.
pub open spec fn additional_from(queries: Seq<Query>, i: int, found: Seq<ColorlessSolution>) -> Seq<
    ColorlessSolution,
>
    decreases queries.len() - i,
{
    if i < 0 || i >= queries.len() {
        found
    } else {
        additional_from(queries, i + 1, found + additional_solutions(queries[i]))
    }
}

/// The kinds of solution that the condition `query` allows beyond cutting
/// by place.
pub open spec fn additional_solutions(query: Query) -> Seq<ColorlessSolution> {
    match query {
        Query::Wire(WireQuery { query_type: WireQueryType::ExactlyOne, .. }) => seq![
            ColorlessSolution::TheOneOfColor,
        ],
        Query::Wire(WireQuery { query_type: WireQueryType::MoreThanOne, .. }) => seq![
            ColorlessSolution::FirstOfColor,
            ColorlessSolution::LastOfColor,
        ],
        _ => Seq::empty(),
    }
}

/// The places by which a wire of a module of `wire_count` wires can be cut,
/// in the order in which the generator weighs them: the first, the second,
/// the last, and then those between.
pub open spec fn places(wire_count: int) -> Seq<ColorlessSolution> {
    if wire_count == 3 {
        seq![ColorlessSolution::Index(0), ColorlessSolution::Index(1), ColorlessSolution::Index(2)]
    } else if wire_count == 4 {
        seq![
            ColorlessSolution::Index(0),
            ColorlessSolution::Index(1),
            ColorlessSolution::Index(3),
            ColorlessSolution::Index(2),
        ]
    } else if wire_count == 5 {
        seq![
            ColorlessSolution::Index(0),
            ColorlessSolution::Index(1),
            ColorlessSolution::Index(4),
            ColorlessSolution::Index(2),
            ColorlessSolution::Index(3),
        ]
    } else {
        seq![
            ColorlessSolution::Index(0),
            ColorlessSolution::Index(1),
            ColorlessSolution::Index(5),
            ColorlessSolution::Index(2),
            ColorlessSolution::Index(3),
            ColorlessSolution::Index(4),
        ]
    }
}

/// The kinds of solution that a rule with the conditions `queries` can have
/// on a module of `wire_count` wires.
pub open spec fn possible_solutions(queries: Seq<Query>, wire_count: int) -> Seq<
    ColorlessSolution,
> {
    additional_from(queries, 0, places(wire_count))
}

/// The colors that are sure to be there where the conditions from the `i`th
/// on hold, after `found`.
pub open spec fn sure_colors_from(queries: Seq<Query>, i: int, found: Seq<WireColor>) -> Seq<
    WireColor,
>
    decreases queries.len() - i,
{
    if i < 0 || i >= queries.len() {
        found
    } else {
        sure_colors_from(
            queries,
            i + 1,
            match queries[i].sure_color() {
                None => found,
                Some(color) => found.push(color),
            },
        )
    }
}

/// The colors that are sure to be there where the conditions hold.
pub open spec fn sure_colors(queries: Seq<Query>) -> Seq<WireColor> {
    sure_colors_from(queries, 0, Seq::empty())
}

/// The weights by which the generator chooses among kinds, a slot for each
/// kind. Every weight starts at one and gets less each time its kind is
/// chosen.
pub struct Weights {
    table: Vec<Double>,
}

impl View for Weights {
    type V = Seq<Double>;

    closed spec fn view(&self) -> Seq<Double> {
        self.table@
    }
}

/// Every weight is a number that is not more than one.
pub open spec fn weights_wf(weights: Seq<Double>) -> bool {
    forall|i: int| 0 <= i < weights.len() ==> (#[trigger] weights[i]).wf() && weights[i].exp() <= -52
}

impl Weights {
    /// A table of `slots` weights of one.
    pub fn new(slots: usize) -> (weights: Weights)
        ensures
            weights@ == Seq::new(slots as nat, |i: int| one()),
            weights_wf(weights@),
    {
        let mut table: Vec<Double> = Vec::new();
        let mut i: usize = 0;
        proof {
            Double::lemma_from_parts((0x10_0000_0000_0000, -52));
        }
        while i < slots
            invariant
                i <= slots,
                table@ == Seq::new(i as nat, |k: int| one()),
            decreases slots - i,
        {
            table.push(Double::one());
            assert(table@ =~= Seq::new((i + 1) as nat, |k: int| one()));
            i = i + 1;
        }
        Weights { table }
    }

    /// The weight in `slot`.
    pub fn get(&self, slot: usize) -> (weight: Double)
        requires
            slot < self@.len(),
        ensures
            weight == self@[slot as int],
    {
        self.table[slot]
    }

    /// Multiplies the weight in `slot` by `factor`.
    pub fn decay(&mut self, slot: usize, factor: Double)
        requires
            slot < old(self)@.len(),
            weights_wf(old(self)@),
            factor.wf(),
            -60 <= factor.exp() <= -56,
        ensures
            final(self)@ == old(self)@.update(slot as int, old(self)@[slot as int].times(factor)),
            weights_wf(final(self)@),
    {
        let weight = self.table[slot];
        proof {
            lemma_decay(weight, factor);
        }
        self.table[slot] = weight.mul(factor);
    }
}

/// The kinds that the conditions add are added after those found, all take
/// a color, and are there only where a condition makes sure of a color.
pub proof fn lemma_additional_from(queries: Seq<Query>, i: int, found: Seq<ColorlessSolution>)
    requires
        0 <= i <= queries.len(),
    ensures
        additional_from(queries, i, found).len() >= found.len(),
        forall|k: int|
            0 <= k < found.len() ==> #[trigger] additional_from(queries, i, found)[k] == found[k],
        forall|k: int|
            found.len() <= k < additional_from(queries, i, found).len() ==> (
            #[trigger] additional_from(queries, i, found)[k]).takes_color(),
        additional_from(queries, i, found).len() > found.len() ==> exists|j: int|
            i <= j < queries.len() && (#[trigger] queries[j]).sure_color() is Some,
    decreases queries.len() - i,
{
    if i < queries.len() {
        let next = found + additional_solutions(queries[i]);
        lemma_additional_from(queries, i + 1, next);
        let all = additional_from(queries, i, found);
        assert(all == additional_from(queries, i + 1, next));
        assert forall|k: int| 0 <= k < found.len() implies #[trigger] all[k] == found[k] by {
            assert(next[k] == found[k]);
        }
        assert forall|k: int| found.len() <= k < all.len() implies (#[trigger] all[k]).takes_color() by {
            if k < next.len() {
                assert(all[k] == next[k]);
                assert(next[k] == additional_solutions(queries[i])[k - found.len()]);
            }
        }
        if all.len() > found.len() {
            if next.len() > found.len() {
                assert(queries[i].sure_color() is Some);
            } else {
                let j = choose|j: int|
                    i + 1 <= j < queries.len() && (#[trigger] queries[j]).sure_color() is Some;
                assert(queries[j].sure_color() is Some);
            }
        }
    }
}

/// The colors that the conditions make sure of are added after those found,
/// each is one that a condition makes sure of, and there is one where a
/// condition makes sure of one.
pub proof fn lemma_sure_colors_from(queries: Seq<Query>, i: int, found: Seq<WireColor>)
    requires
        0 <= i <= queries.len(),
    ensures
        sure_colors_from(queries, i, found).len() >= found.len(),
        sure_colors_from(queries, i, found).len() <= found.len() + queries.len() - i,
        forall|k: int|
            found.len() <= k < sure_colors_from(queries, i, found).len() ==> exists|j: int|
                i <= j < queries.len() && (#[trigger] queries[j]).sure_color() == Some(
                    #[trigger] sure_colors_from(queries, i, found)[k],
                ),
        (exists|j: int| i <= j < queries.len() && (#[trigger] queries[j]).sure_color() is Some)
            ==> sure_colors_from(queries, i, found).len() > found.len(),
    decreases queries.len() - i,
{
    if i < queries.len() {
        let next = match queries[i].sure_color() {
            None => found,
            Some(color) => found.push(color),
        };
        lemma_sure_colors_from(queries, i + 1, next);
        let all = sure_colors_from(queries, i, found);
        assert(all == sure_colors_from(queries, i + 1, next));
        lemma_sure_colors_prefix(queries, i + 1, next);
        assert forall|k: int| found.len() <= k < all.len() implies exists|j: int|
            i <= j < queries.len() && (#[trigger] queries[j]).sure_color() == Some(
                #[trigger] all[k],
            ) by {
            if k < next.len() {
                assert(all[k] == next[k]);
                assert(queries[i].sure_color() == Some(all[k]));
            } else {
                let j = choose|j: int|
                    i + 1 <= j < queries.len() && (#[trigger] queries[j]).sure_color() == Some(
                        all[k],
                    );
                assert(queries[j].sure_color() == Some(all[k]));
            }
        }
        if exists|j: int| i <= j < queries.len() && (#[trigger] queries[j]).sure_color() is Some {
            let j = choose|j: int|
                i <= j < queries.len() && (#[trigger] queries[j]).sure_color() is Some;
            if j > i {
                assert(queries[j].sure_color() is Some);
            }
        }
    }
}

/// The colors found stay where they are.
pub proof fn lemma_sure_colors_prefix(queries: Seq<Query>, i: int, found: Seq<WireColor>)
    requires
        0 <= i <= queries.len(),
    ensures
        sure_colors_from(queries, i, found).len() >= found.len(),
        forall|k: int|
            0 <= k < found.len() ==> #[trigger] sure_colors_from(queries, i, found)[k] == found[k],
    decreases queries.len() - i,
{
    if i < queries.len() {
        let next = match queries[i].sure_color() {
            None => found,
            Some(color) => found.push(color),
        };
        lemma_sure_colors_prefix(queries, i + 1, next);
        assert forall|k: int| 0 <= k < found.len() implies #[trigger] sure_colors_from(
            queries,
            i,
            found,
        )[k] == found[k] by {
            assert(next[k] == found[k]);
        }
    }
}

/// Every kind of solution that a rule can have has a slot, and those that
/// take a color are there only where a condition makes sure of one.
pub proof fn lemma_possible_solutions(queries: Seq<Query>, wire_count: int)
    requires
        3 <= wire_count <= 6,
    ensures
        possible_solutions(queries, wire_count).len() >= 3,
        forall|k: int|
            0 <= k < possible_solutions(queries, wire_count).len() ==> 0 <= (
            #[trigger] possible_solutions(queries, wire_count)[k]).slot() < 9,
        forall|k: int|
            0 <= k < possible_solutions(queries, wire_count).len() ==> (
            #[trigger] possible_solutions(queries, wire_count)[k] matches ColorlessSolution::Index(
                n,
            ) ==> n < wire_count),
        forall|k: int|
            0 <= k < possible_solutions(queries, wire_count).len() ==> ((
            #[trigger] possible_solutions(queries, wire_count)[k]).takes_color() ==> sure_colors(
                queries,
            ).len() > 0),
{
    lemma_additional_from(queries, 0, places(wire_count));
    lemma_sure_colors_from(queries, 0, Seq::empty());
    let all = possible_solutions(queries, wire_count);
    assert forall|k: int| 0 <= k < all.len() implies 0 <= (#[trigger] all[k]).slot() < 9 && (
    all[k] matches ColorlessSolution::Index(n) ==> n < wire_count) && (all[k].takes_color()
        ==> sure_colors(queries).len() > 0) by {
        if k < places(wire_count).len() {
            assert(all[k] == places(wire_count)[k]);
        }
    }
}

} // verus!
