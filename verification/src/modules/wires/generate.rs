//! Generating the rules of the Wires module from a rule seed.
//!
//! A rule list is made of three or four rules. For each rule the generator
//! chooses one or two kinds of condition and a kind of solution by weight,
//! and gives them colors. A kind that is chosen weighs less from then on, so
//! that the rules of a list differ. A rule that cannot hold is thrown away
//! and another one is made.

use crate::binary64::{lemma_decay, one, six_tenths, tenth, twentieth, Double};
use crate::edgework::PortType;
use crate::modules::wires::kinds::{
    additional_from, additional_solutions, all_colors, lemma_possible_solutions,
    lemma_sure_colors_from, places, possible_solutions, primary_queries, secondary_queries,
    spare_wire_queries, sure_colors, sure_colors_from, weights_wf, ColorlessSolution, QueryType,
    Weights, QUERY_TYPE_COUNT, SOLUTION_TYPE_COUNT,
};
use crate::modules::wires::query::{EdgeworkQuery, Query, WireQuery, WireQueryType};
use crate::modules::wires::solution::WireSolution;
use crate::modules::wires::{Rule, RuleList, RuleListModel, RuleModel, RuleSet, WireColor};
use crate::random::{
    lemma_below_wf, lemma_step_wf, lemma_weighted_index, total_weight, weighted_index,
    RandomState, RuleseedRandom, MAX_VALUE, VANILLA_SEED,
};
use vstd::prelude::*;

verus! {

/// The weights of the kinds `kinds` of condition.
pub open spec fn query_weights_of(kinds: Seq<QueryType>, table: Seq<Double>) -> Seq<Double> {
    Seq::new(kinds.len(), |i: int| table[kinds[i].slot()])
}

/// The weights of the kinds `kinds` of solution.
pub open spec fn solution_weights_of(kinds: Seq<ColorlessSolution>, table: Seq<Double>) -> Seq<
    Double,
> {
    Seq::new(kinds.len(), |i: int| table[kinds[i].slot()])
}

/// The place that the next draw chooses by the weights `weights`.
pub open spec fn drawn_place(random: RandomState, weights: Seq<Double>) -> int {
    weighted_index(weights, random.double().times(total_weight(weights, weights.len() as int)), 0)
}

/// A condition that the generator chose, and what choosing it left behind.
pub struct ChosenQuery {
    pub query: Query,
    pub random: RandomState,
    pub query_weights: Seq<Double>,
    pub colors: Seq<WireColor>,
}

/// Chooses a condition among the kinds `kinds`: the kind by weight, after
/// which it weighs a tenth of what it did, and for a kind of condition on
/// the wires a color among `colors`, which then is no longer to be had.
#[verifier::opaque]
pub open spec fn choose_query(
    random: RandomState,
    query_weights: Seq<Double>,
    kinds: Seq<QueryType>,
    colors: Seq<WireColor>,
) -> ChosenQuery {
    let kind = kinds[drawn_place(random, query_weights_of(kinds, query_weights))];
    let random = random.step();
    let query_weights = query_weights.update(
        kind.slot(),
        query_weights[kind.slot()].times(tenth()),
    );
    match kind {
        QueryType::Edgework(query) => ChosenQuery {
            query: Query::Edgework(query),
            random,
            query_weights,
            colors,
        },
        QueryType::Wire(query_type) => {
            let place = random.below(colors.len() as u32) as int;
            ChosenQuery {
                query: Query::Wire(WireQuery { query_type, color: colors[place] }),
                random: random.after_below(colors.len() as u32),
                query_weights,
                colors: colors.remove(place),
            }
        },
    }
}

/// What the generator of a rule list holds: the random number generator and
/// the weights of the kinds of condition and of solution.
pub struct Generator {
    pub random: RandomState,
    pub query_weights: Seq<Double>,
    pub solution_weights: Seq<Double>,
}

impl Generator {
    /// The random number generator is as it should be, and there is a weight
    /// of at most one for every kind.
    pub open spec fn wf(self) -> bool {
        &&& self.random.wf()
        &&& self.query_weights.len() == 13
        &&& self.solution_weights.len() == 9
        &&& weights_wf(self.query_weights)
        &&& weights_wf(self.solution_weights)
    }
}

/// The conditions that the generator chose for a rule, and what choosing
/// them left behind.
pub struct ChosenQueries {
    pub queries: Seq<Query>,
    pub random: RandomState,
    pub query_weights: Seq<Double>,
}

/// Chooses the conditions of a rule for a module of `wire_count` wires. One
/// draw decides whether the rule has two conditions: it has where the draw
/// is not below six tenths. The first condition is one on the wires; the
/// second is one that leaves a wire alone which the first does not speak of.
pub open spec fn choose_queries(random: RandomState, query_weights: Seq<Double>, wire_count: int)
    -> ChosenQueries {
    let compound = !(random.double().units() < six_tenths().units());
    let main = choose_query(random.step(), query_weights, primary_queries(), all_colors());
    if compound {
        let aux = choose_query(
            main.random,
            main.query_weights,
            secondary_queries(wire_count - main.query.involved()),
            main.colors,
        );
        ChosenQueries {
            queries: seq![main.query, aux.query],
            random: aux.random,
            query_weights: aux.query_weights,
        }
    } else {
        ChosenQueries {
            queries: seq![main.query],
            random: main.random,
            query_weights: main.query_weights,
        }
    }
}

/// A solution that the generator chose, and what choosing it left behind.
pub struct ChosenSolution {
    pub solution: WireSolution,
    pub random: RandomState,
    pub solution_weights: Seq<Double>,
}

/// Chooses the solution of a rule with the conditions `queries`: its kind by
/// weight among those that the conditions allow, after which the kind weighs
/// a twentieth of what it did, and its color among those that the conditions
/// make sure of.
pub open spec fn choose_solution(
    random: RandomState,
    solution_weights: Seq<Double>,
    queries: Seq<Query>,
    wire_count: int,
) -> ChosenSolution {
    let kinds = possible_solutions(queries, wire_count);
    let kind = kinds[drawn_place(random, solution_weights_of(kinds, solution_weights))];
    let random = random.step();
    let colors = sure_colors(queries);
    let place = random.below(colors.len() as u32) as int;
    ChosenSolution {
        solution: kind.with_color(colors[place]),
        random: random.after_below(colors.len() as u32),
        solution_weights: solution_weights.update(
            kind.slot(),
            solution_weights[kind.slot()].times(twentieth()),
        ),
    }
}

/// A rule that the generator made, and the generator after it.
pub struct GeneratedRule {
    pub rule: RuleModel,
    pub generator: Generator,
}

/// Makes a rule for a module of `wire_count` wires: first its conditions,
/// then its solution.
pub open spec fn generate_rule(g: Generator, wire_count: int) -> GeneratedRule {
    let chosen = choose_queries(g.random, g.query_weights, wire_count);
    let solved = choose_solution(chosen.random, g.solution_weights, chosen.queries, wire_count);
    GeneratedRule {
        rule: RuleModel { queries: chosen.queries, solution: solved.solution },
        generator: Generator {
            random: solved.random,
            query_weights: chosen.query_weights,
            solution_weights: solved.solution_weights,
        },
    }
}

/// Choosing a condition leaves the generator as it should be, and the weight
/// of the conditions on the last wire no more than it was; less, where such
/// a condition was chosen among kinds of which it is not the last.
pub proof fn lemma_choose_query(
    random: RandomState,
    query_weights: Seq<Double>,
    kinds: Seq<QueryType>,
    colors: Seq<WireColor>,
)
    requires
        random.wf(),
        query_weights.len() == 13,
        weights_wf(query_weights),
        0 < kinds.len(),
    ensures
        ({
            let chosen = choose_query(random, query_weights, kinds, colors);
            let place = drawn_place(random, query_weights_of(kinds, query_weights));
            &&& 0 <= place < kinds.len()
            &&& QueryType::of(chosen.query) == kinds[place]
            &&& chosen.random.wf()
            &&& chosen.query_weights.len() == 13
            &&& weights_wf(chosen.query_weights)
            &&& chosen.query_weights[11].bits() <= query_weights[11].bits()
            &&& (chosen.query.asks_last_wire() && place + 1 < kinds.len())
                ==> chosen.query_weights[11].bits() < query_weights[11].bits()
            &&& chosen.query is Wire && colors.len() > 0 ==> chosen.colors.len() == colors.len()
                - 1
            &&& chosen.query is Edgework ==> chosen.colors == colors
        }),
{
    reveal(choose_query);
    let weights = query_weights_of(kinds, query_weights);
    let left = random.double().times(total_weight(weights, weights.len() as int));
    lemma_weighted_index(weights, left, 0);
    let place = drawn_place(random, weights);
    let kind = kinds[place];
    assert(0 <= kind.slot() < 13);
    lemma_step_wf(random);
    lemma_below_wf(random.step(), colors.len() as u32);
    crate::binary64::Double::lemma_from_parts((0x19_9999_9999_999A, -56));
    assert(query_weights[kind.slot()].wf());
    lemma_decay(query_weights[kind.slot()], tenth());
    let chosen = choose_query(random, query_weights, kinds, colors);
    assert(chosen.query_weights == query_weights.update(
        kind.slot(),
        query_weights[kind.slot()].times(tenth()),
    ));
    assert forall|i: int| 0 <= i < 13 implies (#[trigger] chosen.query_weights[i]).wf()
        && chosen.query_weights[i].exp() <= -52 by {
        if i != kind.slot() {
            assert(chosen.query_weights[i] == query_weights[i]);
        }
    }
    if chosen.query.asks_last_wire() {
        assert(kind.slot() == 11);
        if place + 1 < kinds.len() {
            assert(weights[place] == query_weights[11]);
        }
    }
    if kind.slot() != 11 {
        assert(chosen.query_weights[11] == query_weights[11]);
    }
}

/// Choosing the conditions of a rule leaves the generator as it should be,
/// and the weight of the conditions on the last wire no more than it was;
/// less, where the conditions cannot hold together.
pub proof fn lemma_choose_queries(random: RandomState, query_weights: Seq<Double>, wire_count: int)
    requires
        random.wf(),
        query_weights.len() == 13,
        weights_wf(query_weights),
        3 <= wire_count <= 6,
    ensures
        ({
            let chosen = choose_queries(random, query_weights, wire_count);
            &&& 1 <= chosen.queries.len() <= 2
            &&& chosen.random.wf()
            &&& chosen.query_weights.len() == 13
            &&& weights_wf(chosen.query_weights)
            &&& chosen.query_weights[11].bits() <= query_weights[11].bits()
            &&& !(RuleModel { queries: chosen.queries, solution: WireSolution::Index(0) }).valid()
                ==> chosen.query_weights[11].bits() < query_weights[11].bits()
        }),
{
    lemma_step_wf(random);
    lemma_choose_query(random.step(), query_weights, primary_queries(), all_colors());
    let main = choose_query(random.step(), query_weights, primary_queries(), all_colors());
    let first = drawn_place(random.step(), query_weights_of(primary_queries(), query_weights));
    assert(QueryType::of(main.query) == primary_queries()[first]);
    let kinds = secondary_queries(wire_count - main.query.involved());
    assert(kinds.len() >= 9);
    lemma_choose_query(main.random, main.query_weights, kinds, main.colors);
    let chosen = choose_queries(random, query_weights, wire_count);
    let rule = RuleModel { queries: chosen.queries, solution: WireSolution::Index(0) };
    if !rule.valid() {
        assert(chosen.queries.len() == 2);
        assert(chosen.queries[0] == main.query);
        assert(main.query.asks_last_wire());
        assert(first == 2);
    }
}

/// Choosing the solution of a rule leaves the generator as it should be, and
/// gives a solution that can be carried out wherever the conditions hold.
pub proof fn lemma_choose_solution(
    random: RandomState,
    solution_weights: Seq<Double>,
    queries: Seq<Query>,
    wire_count: int,
)
    requires
        random.wf(),
        solution_weights.len() == 9,
        weights_wf(solution_weights),
        3 <= wire_count <= 6,
        1 <= queries.len() <= 2,
    ensures
        ({
            let solved = choose_solution(random, solution_weights, queries, wire_count);
            &&& solved.random.wf()
            &&& solved.solution_weights.len() == 9
            &&& weights_wf(solved.solution_weights)
            &&& (RuleModel { queries, solution: solved.solution }).licensed(wire_count)
        }),
{
    lemma_possible_solutions(queries, wire_count);
    lemma_sure_colors_from(queries, 0, Seq::empty());
    let kinds = possible_solutions(queries, wire_count);
    let weights = solution_weights_of(kinds, solution_weights);
    lemma_weighted_index(
        weights,
        random.double().times(total_weight(weights, weights.len() as int)),
        0,
    );
    let place = drawn_place(random, weights);
    let kind = kinds[place];
    lemma_step_wf(random);
    let colors = sure_colors(queries);
    lemma_below_wf(random.step(), colors.len() as u32);
    crate::binary64::Double::lemma_from_parts((0x19_9999_9999_999A, -57));
    assert(solution_weights[kind.slot()].wf());
    lemma_decay(solution_weights[kind.slot()], twentieth());
    let solved = choose_solution(random, solution_weights, queries, wire_count);
    let after = solved.solution_weights;
    assert forall|i: int| 0 <= i < 9 implies (#[trigger] after[i]).wf() && after[i].exp()
        <= -52 by {
        if i != kind.slot() {
            assert(after[i] == solution_weights[i]);
        }
    }
    if kind.takes_color() {
        let at = random.step().below(colors.len() as u32) as int;
        assert(0 <= at < colors.len());
        let j = choose|j: int|
            0 <= j < queries.len() && (#[trigger] queries[j]).sure_color() == Some(colors[at]);
        assert(queries[j].sure_color() == solved.solution.color());
    }
}

/// Making a rule leaves the generator as it should be. The rule has a
/// solution that can be carried out wherever it holds. The weight of the
/// conditions on the last wire is no more than it was, and is less where
/// the rule cannot hold.
pub proof fn lemma_generate_rule(g: Generator, wire_count: int)
    requires
        g.wf(),
        3 <= wire_count <= 6,
    ensures
        generate_rule(g, wire_count).generator.wf(),
        generate_rule(g, wire_count).rule.licensed(wire_count),
        generate_rule(g, wire_count).generator.query_weights[11].bits()
            <= g.query_weights[11].bits(),
        !generate_rule(g, wire_count).rule.valid() ==> generate_rule(
            g,
            wire_count,
        ).generator.query_weights[11].bits() < g.query_weights[11].bits(),
{
    lemma_choose_queries(g.random, g.query_weights, wire_count);
    let chosen = choose_queries(g.random, g.query_weights, wire_count);
    lemma_choose_solution(chosen.random, g.solution_weights, chosen.queries, wire_count);
    let made = generate_rule(g, wire_count);
    let rule = RuleModel { queries: chosen.queries, solution: WireSolution::Index(0) };
    assert(rule.valid() == made.rule.valid());
}

/// The rules that the generator made, and the generator after them.
pub struct GeneratedRules {
    pub rules: Seq<RuleModel>,
    pub generator: Generator,
}

/// Makes rules until `rule_count` of them can hold, beginning with those in
/// `rules`. A rule that cannot hold is thrown away.
pub open spec fn fill_rules(g: Generator, wire_count: int, rule_count: int, rules: Seq<RuleModel>)
    -> GeneratedRules
    decreases rule_count - rules.len(), g.query_weights[11].bits(),
    when g.wf() && 3 <= wire_count <= 6
    via fill_rules_ends
{
    if rules.len() >= rule_count {
        GeneratedRules { rules, generator: g }
    } else {
        let made = generate_rule(g, wire_count);
        fill_rules(
            made.generator,
            wire_count,
            rule_count,
            if made.rule.valid() {
                rules.push(made.rule)
            } else {
                rules
            },
        )
    }
}

#[via_fn]
proof fn fill_rules_ends(g: Generator, wire_count: int, rule_count: int, rules: Seq<RuleModel>) {
    lemma_generate_rule(g, wire_count);
}

/// Those of `rules` that have two conditions, where `compound` is set, or
/// those that have not, where it is not.
pub open spec fn rules_of_arity(rules: Seq<RuleModel>, compound: bool) -> Seq<RuleModel>
    decreases rules.len(),
{
    if rules.len() == 0 {
        Seq::empty()
    } else {
        let rest = rules_of_arity(rules.drop_last(), compound);
        if (rules.last().queries.len() == 2) == compound {
            rest.push(rules.last())
        } else {
            rest
        }
    }
}

/// The rules with those of two conditions put before the others, each in the
/// order in which they were made.
pub open spec fn compound_first(rules: Seq<RuleModel>) -> Seq<RuleModel> {
    rules_of_arity(rules, true) + rules_of_arity(rules, false)
}

/// The places by which a wire of a module of `wire_count` wires can be cut,
/// in the order in which the generator weighs them.
pub open spec fn place_numbers(wire_count: int) -> Seq<u8> {
    if wire_count == 3 {
        seq![0u8, 1u8, 2u8]
    } else if wire_count == 4 {
        seq![0u8, 1u8, 3u8, 2u8]
    } else if wire_count == 5 {
        seq![0u8, 1u8, 4u8, 2u8, 3u8]
    } else {
        seq![0u8, 1u8, 5u8, 2u8, 3u8, 4u8]
    }
}

/// The numbers of `numbers` from the `i`th on that are not the place that
/// `solution` names, after `found`.
pub open spec fn other_places_from(numbers: Seq<u8>, solution: WireSolution, i: int, found: Seq<u8>)
    -> Seq<u8>
    decreases numbers.len() - i,
{
    if i < 0 || i >= numbers.len() {
        found
    } else {
        other_places_from(
            numbers,
            solution,
            i + 1,
            if solution == WireSolution::Index(numbers[i]) {
                found
            } else {
                found.push(numbers[i])
            },
        )
    }
}

/// A rule list that the generator made, and the random number generator
/// after it.
pub struct GeneratedList {
    pub list: RuleListModel,
    pub random: RandomState,
}

/// The weights at the start of a rule list: one for every kind.
pub open spec fn fresh_weights(slots: nat) -> Seq<Double> {
    Seq::new(slots, |i: int| one())
}

/// Makes the rule list for modules of `wire_count` wires. One draw decides
/// the number of rules: three where it is below six tenths, else four. The
/// rules of two conditions are put first. The solution where no rule holds
/// is a place, chosen among all but the one that the last rule names, by
/// the weights that the solutions of the rules left behind.
#[verifier::opaque]
pub open spec fn generate_list(random: RandomState, wire_count: int) -> GeneratedList {
    let rule_count: int = if random.double().units() < six_tenths().units() {
        3
    } else {
        4
    };
    let filled = fill_rules(
        Generator {
            random: random.step(),
            query_weights: fresh_weights(13),
            solution_weights: fresh_weights(9),
        },
        wire_count,
        rule_count,
        Seq::empty(),
    );
    let rules = compound_first(filled.rules);
    let candidates = other_places_from(
        place_numbers(wire_count),
        rules.last().solution,
        0,
        Seq::empty(),
    );
    let place = drawn_place(
        filled.generator.random,
        place_weights_of(candidates, filled.generator.solution_weights),
    );
    GeneratedList {
        list: RuleListModel { rules, otherwise: WireSolution::Index(candidates[place]) },
        random: filled.generator.random.step(),
    }
}

/// The weights of cutting by the places `numbers`.
pub open spec fn place_weights_of(numbers: Seq<u8>, table: Seq<Double>) -> Seq<Double> {
    Seq::new(numbers.len(), |i: int| table[numbers[i] as int])
}

/// The rule lists that the seed `seed` generates, for three, four, five and
/// six wires. One random number generator makes them in turn.
pub open spec fn generated(seed: u32) -> Seq<RuleListModel> {
    let three = generate_list(RandomState::seeded(seed), 3);
    let four = generate_list(three.random, 4);
    let five = generate_list(four.random, 5);
    let six = generate_list(five.random, 6);
    seq![three.list, four.list, five.list, six.list]
}

impl WireQueryType {
    /// Gives the kind a color: one drawn from `colors_available`, which it
    /// is taken out of.
    pub fn colorize(self, rng: &mut RuleseedRandom, colors_available: &mut Vec<WireColor>) -> (query:
        WireQuery)
        requires
            old(rng)@.wf(),
            0 < old(colors_available)@.len() <= u32::MAX,
        ensures
            query.query_type == self,
            query.color == old(colors_available)@[old(rng)@.below(
                old(colors_available)@.len() as u32,
            ) as int],
            final(colors_available)@ == old(colors_available)@.remove(
                old(rng)@.below(old(colors_available)@.len() as u32) as int,
            ),
            final(rng)@ == old(rng)@.after_below(old(colors_available)@.len() as u32),
            final(rng)@.wf(),
    {
        let index: usize = rng.next_below(colors_available.len() as u32) as usize;
        let color = colors_available.remove(index);
        WireQuery { query_type: self, color }
    }
}

impl QueryType {
    /// Makes a condition of the kind: a kind of condition on the wires gets
    /// a color drawn from `colors_available`, which it is taken out of.
    pub fn colorize(self, rng: &mut RuleseedRandom, colors_available: &mut Vec<WireColor>) -> (query:
        Query)
        requires
            old(rng)@.wf(),
            old(colors_available)@.len() <= u32::MAX,
            self is Wire ==> old(colors_available)@.len() > 0,
        ensures
            QueryType::of(query) == self,
            match self {
                QueryType::Edgework(_) => final(rng)@ == old(rng)@ && final(colors_available)@
                    == old(colors_available)@,
                QueryType::Wire(_) => {
                    &&& query matches Query::Wire(wire) && wire.color == old(
                        colors_available,
                    )@[old(rng)@.below(old(colors_available)@.len() as u32) as int]
                    &&& final(colors_available)@ == old(colors_available)@.remove(
                        old(rng)@.below(old(colors_available)@.len() as u32) as int,
                    )
                    &&& final(rng)@ == old(rng)@.after_below(old(colors_available)@.len() as u32)
                },
            },
            final(rng)@.wf(),
    {
        match self {
            QueryType::Edgework(query) => Query::Edgework(query),
            QueryType::Wire(query_type) => Query::Wire(query_type.colorize(rng, colors_available)),
        }
    }

    /// The kinds of the first condition of a rule.
    pub fn primary_queries() -> (kinds: Vec<QueryType>)
        ensures
            kinds@ == primary_queries(),
    {
        let mut kinds: Vec<QueryType> = Vec::new();
        kinds.push(QueryType::Wire(WireQueryType::ExactlyOne));
        kinds.push(QueryType::Wire(WireQueryType::NotPresent));
        kinds.push(QueryType::Wire(WireQueryType::LastWireIs));
        kinds.push(QueryType::Wire(WireQueryType::MoreThanOne));
        assert(kinds@ =~= primary_queries());
        kinds
    }

    /// The kinds of the second condition of a rule whose first condition
    /// leaves `uninvolved_wires` wires alone.
    pub fn secondary_queries(uninvolved_wires: usize) -> (kinds: Vec<QueryType>)
        ensures
            kinds@ == secondary_queries(uninvolved_wires as int),
    {
        let mut kinds: Vec<QueryType> = Vec::new();
        kinds.push(QueryType::Edgework(EdgeworkQuery::SerialStartsWithLetter));
        kinds.push(QueryType::Edgework(EdgeworkQuery::SerialOdd));
        if WireQueryType::ExactlyOne.wires_involved() < uninvolved_wires {
            kinds.push(QueryType::Wire(WireQueryType::ExactlyOne));
        }
        if WireQueryType::NotPresent.wires_involved() < uninvolved_wires {
            kinds.push(QueryType::Wire(WireQueryType::NotPresent));
        }
        if WireQueryType::LastWireIs.wires_involved() < uninvolved_wires {
            kinds.push(QueryType::Wire(WireQueryType::LastWireIs));
        }
        if WireQueryType::MoreThanOne.wires_involved() < uninvolved_wires {
            kinds.push(QueryType::Wire(WireQueryType::MoreThanOne));
        }
        kinds.push(QueryType::Edgework(EdgeworkQuery::PortPresent(PortType::DVI)));
        kinds.push(QueryType::Edgework(EdgeworkQuery::PortPresent(PortType::PS2)));
        kinds.push(QueryType::Edgework(EdgeworkQuery::PortPresent(PortType::RJ45)));
        kinds.push(QueryType::Edgework(EdgeworkQuery::PortPresent(PortType::StereoRCA)));
        kinds.push(QueryType::Edgework(EdgeworkQuery::PortPresent(PortType::Parallel)));
        kinds.push(QueryType::Edgework(EdgeworkQuery::PortPresent(PortType::Serial)));
        kinds.push(QueryType::Edgework(EdgeworkQuery::HasEmptyPortPlate));
        assert(kinds@ =~= secondary_queries(uninvolved_wires as int));
        kinds
    }
}

/// The places by which a wire of a module of `wire_count` wires can be cut.
fn place_list(wire_count: usize) -> (numbers: Vec<u8>)
    requires
        3 <= wire_count <= 6,
    ensures
        numbers@ == place_numbers(wire_count as int),
        places(wire_count as int) == Seq::new(
            numbers@.len(),
            |i: int| ColorlessSolution::Index(numbers@[i]),
        ),
{
    let mut numbers: Vec<u8> = Vec::new();
    numbers.push(0);
    numbers.push(1);
    numbers.push((wire_count - 1) as u8);
    let mut k: usize = 2;
    while k < wire_count - 1
        invariant
            2 <= k <= wire_count - 1,
            3 <= wire_count <= 6,
            numbers@.len() == k + 1,
            numbers@[0] == 0,
            numbers@[1] == 1,
            numbers@[2] == wire_count - 1,
            forall|i: int| 3 <= i < k + 1 ==> numbers@[i] == i - 1,
        decreases wire_count - k,
    {
        numbers.push(k as u8);
        k = k + 1;
    }
    assert(numbers@ =~= place_numbers(wire_count as int));
    assert(places(wire_count as int) =~= Seq::new(
        numbers@.len(),
        |i: int| ColorlessSolution::Index(numbers@[i]),
    ));
    numbers
}

impl ColorlessSolution {
    /// Makes a solution of the kind: a kind that takes a color gets one
    /// drawn from `colors_available`.
    pub fn colorize(self, rng: &mut RuleseedRandom, colors_available: &[WireColor]) -> (solution:
        WireSolution)
        requires
            old(rng)@.wf(),
            colors_available@.len() <= u32::MAX,
            self.takes_color() ==> colors_available@.len() > 0,
        ensures
            solution == self.with_color(
                colors_available@[old(rng)@.below(colors_available@.len() as u32) as int],
            ),
            final(rng)@ == old(rng)@.after_below(colors_available@.len() as u32),
            final(rng)@.wf(),
    {
        let color = rng.choice(colors_available);
        match self {
            ColorlessSolution::Index(n) => WireSolution::Index(n),
            ColorlessSolution::TheOneOfColor => WireSolution::TheOneOfColor(*color.unwrap()),
            ColorlessSolution::FirstOfColor => WireSolution::FirstOfColor(*color.unwrap()),
            ColorlessSolution::LastOfColor => WireSolution::LastOfColor(*color.unwrap()),
        }
    }

    /// The kinds of solution that a rule with the conditions `queries` can
    /// have on a module of `wire_count` wires.
    pub fn possible_solutions(queries: &[Query], wire_count: usize) -> (kinds: Vec<
        ColorlessSolution,
    >)
        requires
            3 <= wire_count <= 6,
        ensures
            kinds@ == possible_solutions(queries@, wire_count as int),
    {
        let numbers = place_list(wire_count);
        let mut kinds: Vec<ColorlessSolution> = Vec::new();
        let mut k: usize = 0;
        while k < numbers.len()
            invariant
                k <= numbers@.len(),
                kinds@ == Seq::new(k as nat, |i: int| ColorlessSolution::Index(numbers@[i])),
            decreases numbers.len() - k,
        {
            kinds.push(ColorlessSolution::Index(numbers[k]));
            assert(kinds@ =~= Seq::new(
                (k + 1) as nat,
                |i: int| ColorlessSolution::Index(numbers@[i]),
            ));
            k = k + 1;
        }
        assert(kinds@ =~= places(wire_count as int));
        let mut i: usize = 0;
        while i < queries.len()
            invariant
                i <= queries@.len(),
                additional_from(queries@, i as int, kinds@) == possible_solutions(
                    queries@,
                    wire_count as int,
                ),
            decreases queries.len() - i,
        {
            let ghost before = kinds@;
            match queries[i] {
                Query::Wire(WireQuery { query_type: WireQueryType::ExactlyOne, .. }) => {
                    kinds.push(ColorlessSolution::TheOneOfColor);
                },
                Query::Wire(WireQuery { query_type: WireQueryType::MoreThanOne, .. }) => {
                    kinds.push(ColorlessSolution::FirstOfColor);
                    kinds.push(ColorlessSolution::LastOfColor);
                },
                _ => {},
            }
            assert(kinds@ =~= before + additional_solutions(queries@[i as int]));
            i = i + 1;
        }
        kinds
    }
}

fn pair_of(first: Query, second: Query) -> (queries: Vec<Query>)
    ensures
        queries@ == seq![first, second],
{
    let mut queries: Vec<Query> = Vec::new();
    queries.push(first);
    queries.push(second);
    assert(queries@ =~= seq![first, second]);
    queries
}

impl WireColor {
    /// The five colors, in their order.
    pub fn all() -> (colors: Vec<WireColor>)
        ensures
            colors@ == all_colors(),
    {
        let mut colors: Vec<WireColor> = Vec::new();
        colors.push(WireColor::Black);
        colors.push(WireColor::Blue);
        colors.push(WireColor::Red);
        colors.push(WireColor::White);
        colors.push(WireColor::Yellow);
        assert(colors@ =~= all_colors());
        colors
    }
}

/// The colors that are sure to be there where the conditions hold.
fn solution_colors(queries: &[Query]) -> (colors: Vec<WireColor>)
    ensures
        colors@ == sure_colors(queries@),
{
    let mut colors: Vec<WireColor> = Vec::new();
    let mut i: usize = 0;
    while i < queries.len()
        invariant
            i <= queries@.len(),
            sure_colors_from(queries@, i as int, colors@) == sure_colors(queries@),
        decreases queries.len() - i,
    {
        match queries[i].solution_color() {
            None => {},
            Some(color) => {
                colors.push(color);
            },
        }
        i = i + 1;
    }
    colors
}

/// The weights of the kinds `kinds` of condition.
fn query_weights_for(kinds: &[QueryType], table: &Weights) -> (weights: Vec<Double>)
    requires
        table@.len() == 13,
    ensures
        weights@ == query_weights_of(kinds@, table@),
{
    let mut weights: Vec<Double> = Vec::new();
    let mut i: usize = 0;
    while i < kinds.len()
        invariant
            i <= kinds@.len(),
            table@.len() == 13,
            weights@ == Seq::new(i as nat, |k: int| table@[kinds@[k].slot()]),
        decreases kinds.len() - i,
    {
        weights.push(table.get(kinds[i].to_slot()));
        assert(weights@ =~= Seq::new((i + 1) as nat, |k: int| table@[kinds@[k].slot()]));
        i = i + 1;
    }
    weights
}

/// The weights of the kinds `kinds` of solution.
fn solution_weights_for(kinds: &[ColorlessSolution], table: &Weights) -> (weights: Vec<Double>)
    requires
        table@.len() == 9,
        forall|k: int| 0 <= k < kinds@.len() ==> 0 <= (#[trigger] kinds@[k]).slot() < 6 || kinds@[k].takes_color(),
    ensures
        weights@ == solution_weights_of(kinds@, table@),
{
    let mut weights: Vec<Double> = Vec::new();
    let mut i: usize = 0;
    while i < kinds.len()
        invariant
            i <= kinds@.len(),
            table@.len() == 9,
            forall|k: int| 0 <= k < kinds@.len() ==> 0 <= (#[trigger] kinds@[k]).slot() < 6 || kinds@[k].takes_color(),
            weights@ == Seq::new(i as nat, |k: int| table@[kinds@[k].slot()]),
        decreases kinds.len() - i,
    {
        assert(0 <= kinds@[i as int].slot() < 6 || kinds@[i as int].takes_color());
        weights.push(table.get(kinds[i].to_slot()));
        assert(weights@ =~= Seq::new((i + 1) as nat, |k: int| table@[kinds@[k].slot()]));
        i = i + 1;
    }
    weights
}

impl Rule {
    /// Chooses a condition among the kinds `available_queries`.
    pub fn choose_query(
        rng: &mut RuleseedRandom,
        available_queries: &[QueryType],
        query_weights: &mut Weights,
        colors_available: &mut Vec<WireColor>,
    ) -> (query: Query)
        requires
            old(rng)@.wf(),
            0 < available_queries@.len() <= u32::MAX,
            old(query_weights)@.len() == 13,
            weights_wf(old(query_weights)@),
            0 < old(colors_available)@.len() <= u32::MAX,
        ensures
            ({
                let chosen = choose_query(
                    old(rng)@,
                    old(query_weights)@,
                    available_queries@,
                    old(colors_available)@,
                );
                &&& query == chosen.query
                &&& final(rng)@ == chosen.random
                &&& final(query_weights)@ == chosen.query_weights
                &&& final(colors_available)@ == chosen.colors
            }),
            final(rng)@.wf(),
            final(query_weights)@.len() == 13,
            weights_wf(final(query_weights)@),
    {
        let weights = query_weights_for(available_queries, query_weights);
        proof {
            reveal(choose_query);
            assert forall|i: int| 0 <= i < weights@.len() implies (#[trigger] weights@[i]).wf()
                && weights@[i].exp() <= 900 by {
                assert(0 <= available_queries@[i].slot() < 13);
                assert(query_weights@[available_queries@[i].slot()].wf());
            }
        }
        let place: usize = rng.weighted_index(weights.as_slice());
        let kind = available_queries[place];
        proof {
            Double::lemma_from_parts((0x19_9999_9999_999A, -56));
        }
        query_weights.decay(kind.to_slot(), Double::tenth());
        kind.colorize(rng, colors_available)
    }

    /// Chooses the conditions of a rule for a module of `wire_count` wires.
    pub fn choose_queries(
        rng: &mut RuleseedRandom,
        query_weights: &mut Weights,
        wire_count: usize,
    ) -> (queries: Vec<Query>)
        requires
            old(rng)@.wf(),
            old(query_weights)@.len() == 13,
            weights_wf(old(query_weights)@),
            3 <= wire_count <= 6,
        ensures
            ({
                let chosen = choose_queries(
                    old(rng)@,
                    old(query_weights)@,
                    wire_count as int,
                );
                &&& queries@ == chosen.queries
                &&& final(rng)@ == chosen.random
                &&& final(query_weights)@ == chosen.query_weights
            }),
            1 <= queries@.len() <= 2,
            final(rng)@.wf(),
            final(query_weights)@.len() == 13,
            weights_wf(final(query_weights)@),
    {
        proof {
            lemma_choose_queries(rng@, query_weights@, wire_count as int);
            Double::lemma_from_parts((0x13_3333_3333_3333, -53));
        }
        let compound: bool = !rng.next_double().lt(Double::six_tenths());
        let mut colors = WireColor::all();
        let primary = QueryType::primary_queries();
        let main_query = Self::choose_query(rng, primary.as_slice(), query_weights, &mut colors);
        proof {
            lemma_choose_query(
                old(rng)@.step(),
                old(query_weights)@,
                primary_queries(),
                all_colors(),
            );
        }
        if compound {
            let auxiliary_query = Self::choose_second_query(
                rng,
                query_weights,
                &mut colors,
                wire_count - main_query.wires_involved(),
            );
            pair_of(main_query, auxiliary_query)
        } else {
            let mut queries: Vec<Query> = Vec::new();
            queries.push(main_query);
            assert(queries@ =~= seq![main_query]);
            queries
        }
    }

    /// Chooses the second condition of a rule whose first condition leaves
    /// `uninvolved_wires` wires alone.
    fn choose_second_query(
        rng: &mut RuleseedRandom,
        query_weights: &mut Weights,
        colors_available: &mut Vec<WireColor>,
        uninvolved_wires: usize,
    ) -> (query: Query)
        requires
            old(rng)@.wf(),
            old(query_weights)@.len() == 13,
            weights_wf(old(query_weights)@),
            0 < old(colors_available)@.len() <= u32::MAX,
        ensures
            ({
                let chosen = choose_query(
                    old(rng)@,
                    old(query_weights)@,
                    secondary_queries(uninvolved_wires as int),
                    old(colors_available)@,
                );
                &&& query == chosen.query
                &&& final(rng)@ == chosen.random
                &&& final(query_weights)@ == chosen.query_weights
                &&& final(colors_available)@ == chosen.colors
            }),
            final(rng)@.wf(),
            final(query_weights)@.len() == 13,
            weights_wf(final(query_weights)@),
    {
        let secondary = QueryType::secondary_queries(uninvolved_wires);
        assert(secondary@.len() >= 9 && secondary@.len() <= 13) by {
            assert(spare_wire_queries(uninvolved_wires as int).len() <= 4);
        }
        Self::choose_query(rng, secondary.as_slice(), query_weights, colors_available)
    }

    /// Chooses the solution of a rule with the conditions `queries`.
    pub fn choose_solution(
        rng: &mut RuleseedRandom,
        solution_weights: &mut Weights,
        queries: &[Query],
        wire_count: usize,
    ) -> (solution: WireSolution)
        requires
            old(rng)@.wf(),
            old(solution_weights)@.len() == 9,
            weights_wf(old(solution_weights)@),
            1 <= queries@.len() <= 2,
            3 <= wire_count <= 6,
        ensures
            ({
                let solved = choose_solution(
                    old(rng)@,
                    old(solution_weights)@,
                    queries@,
                    wire_count as int,
                );
                &&& solution == solved.solution
                &&& final(rng)@ == solved.random
                &&& final(solution_weights)@ == solved.solution_weights
            }),
            final(rng)@.wf(),
            final(solution_weights)@.len() == 9,
            weights_wf(final(solution_weights)@),
            (RuleModel { queries: queries@, solution }).licensed(wire_count as int),
    {
        proof {
            lemma_possible_solutions(queries@, wire_count as int);
            lemma_sure_colors_from(queries@, 0, Seq::empty());
            lemma_choose_solution(rng@, solution_weights@, queries@, wire_count as int);
        }
        let available_solutions = ColorlessSolution::possible_solutions(queries, wire_count);
        let weights = solution_weights_for(available_solutions.as_slice(), solution_weights);
        proof {
            assert forall|i: int| 0 <= i < weights@.len() implies (#[trigger] weights@[i]).wf()
                && weights@[i].exp() <= 900 by {
                assert(0 <= available_solutions@[i].slot() < 9);
                assert(solution_weights@[available_solutions@[i].slot()].wf());
            }
            lemma_additional_len(queries@, wire_count as int);
        }
        let place: usize = rng.weighted_index(weights.as_slice());
        let kind = available_solutions[place];
        proof {
            Double::lemma_from_parts((0x19_9999_9999_999A, -57));
            assert(0 <= kind.slot() < 9);
        }
        solution_weights.decay(kind.to_slot(), Double::twentieth());
        let sure = solution_colors(queries);
        kind.colorize(rng, sure.as_slice())
    }

    /// Makes a rule for a module of `wire_count` wires.
    pub fn generate(
        rng: &mut RuleseedRandom,
        query_weights: &mut Weights,
        solution_weights: &mut Weights,
        wire_count: usize,
    ) -> (rule: Rule)
        requires
            (Generator {
                random: old(rng)@,
                query_weights: old(query_weights)@,
                solution_weights: old(solution_weights)@,
            }).wf(),
            3 <= wire_count <= 6,
        ensures
            ({
                let made = generate_rule(
                    Generator {
                        random: old(rng)@,
                        query_weights: old(query_weights)@,
                        solution_weights: old(solution_weights)@,
                    },
                    wire_count as int,
                );
                &&& rule@ == made.rule
                &&& made.generator == (Generator {
                    random: final(rng)@,
                    query_weights: final(query_weights)@,
                    solution_weights: final(solution_weights)@,
                })
                &&& made.generator.wf()
                &&& rule@.licensed(wire_count as int)
            }),
    {
        let queries = Self::choose_queries(rng, query_weights, wire_count);
        let solution = Self::choose_solution(rng, solution_weights, queries.as_slice(), wire_count);
        Rule::new(queries.as_slice(), solution)
    }
}

/// A rule of one or two conditions can have no more than ten kinds of
/// solution.
proof fn lemma_additional_len(queries: Seq<Query>, wire_count: int)
    requires
        3 <= wire_count <= 6,
        queries.len() <= 2,
    ensures
        possible_solutions(queries, wire_count).len() <= 10,
{
    reveal_with_fuel(additional_from, 4);
}

/// What each of `rules` says.
pub open spec fn models(rules: Seq<Rule>) -> Seq<RuleModel> {
    Seq::new(rules.len(), |i: int| rules[i]@)
}

/// Whatever the last rule names, at least two places are left.
proof fn lemma_other_places(wire_count: int, solution: WireSolution)
    requires
        3 <= wire_count <= 6,
    ensures
        other_places_from(place_numbers(wire_count), solution, 0, Seq::empty()).len() >= 2,
{
    reveal_with_fuel(other_places_from, 8);
}

fn other_places(wire_count: usize, solution: WireSolution) -> (candidates: Vec<u8>)
    requires
        3 <= wire_count <= 6,
    ensures
        candidates@ == other_places_from(
            place_numbers(wire_count as int),
            solution,
            0,
            Seq::empty(),
        ),
        2 <= candidates@.len() <= 6,
        forall|k: int| 0 <= k < candidates@.len() ==> candidates@[k] < wire_count,
{
    let numbers = place_list(wire_count);
    let mut candidates: Vec<u8> = Vec::new();
    let mut i: usize = 0;
    proof {
        lemma_other_places(wire_count as int, solution);
    }
    while i < numbers.len()
        invariant
            i <= numbers@.len(),
            3 <= wire_count <= 6,
            numbers@ == place_numbers(wire_count as int),
            candidates@.len() <= i,
            forall|k: int| 0 <= k < candidates@.len() ==> candidates@[k] < wire_count,
            other_places_from(numbers@, solution, i as int, candidates@) == other_places_from(
                numbers@,
                solution,
                0,
                Seq::empty(),
            ),
        decreases numbers.len() - i,
    {
        let number: u8 = numbers[i];
        assert(number < wire_count);
        let named = match solution {
            WireSolution::Index(n) => n == number,
            _ => false,
        };
        if !named {
            candidates.push(number);
        }
        i = i + 1;
    }
    candidates
}

/// The weights of cutting by the places `numbers`.
fn place_weights_for(numbers: &[u8], table: &Weights) -> (weights: Vec<Double>)
    requires
        table@.len() == 9,
        weights_wf(table@),
        forall|k: int| 0 <= k < numbers@.len() ==> numbers@[k] < 9,
    ensures
        weights@ == place_weights_of(numbers@, table@),
        forall|k: int|
            0 <= k < weights@.len() ==> (#[trigger] weights@[k]).wf() && weights@[k].exp() <= 900,
{
    let mut weights: Vec<Double> = Vec::new();
    let mut i: usize = 0;
    while i < numbers.len()
        invariant
            i <= numbers@.len(),
            table@.len() == 9,
            weights_wf(table@),
            forall|k: int| 0 <= k < numbers@.len() ==> numbers@[k] < 9,
            weights@ == Seq::new(i as nat, |k: int| table@[numbers@[k] as int]),
            forall|k: int|
                0 <= k < weights@.len() ==> (#[trigger] weights@[k]).wf() && weights@[k].exp()
                    <= 900,
        decreases numbers.len() - i,
    {
        let weight = table.get(numbers[i] as usize);
        assert(table@[numbers@[i as int] as int].wf());
        weights.push(weight);
        assert(weights@ =~= Seq::new((i + 1) as nat, |k: int| table@[numbers@[k] as int]));
        i = i + 1;
    }
    weights
}

impl RuleList {
    /// Chooses the solution where no rule holds: a place other than the one
    /// that `last_solution` names, by the weights of the places.
    pub fn choose_otherwise(
        rng: &mut RuleseedRandom,
        solution_weights: &Weights,
        wire_count: usize,
        last_solution: WireSolution,
    ) -> (otherwise: WireSolution)
        requires
            old(rng)@.wf(),
            solution_weights@.len() == 9,
            weights_wf(solution_weights@),
            3 <= wire_count <= 6,
        ensures
            ({
                let candidates = other_places_from(
                    place_numbers(wire_count as int),
                    last_solution,
                    0,
                    Seq::empty(),
                );
                otherwise == WireSolution::Index(
                    candidates[drawn_place(
                        old(rng)@,
                        place_weights_of(candidates, solution_weights@),
                    )],
                )
            }),
            otherwise matches WireSolution::Index(n) && n < wire_count,
            final(rng)@ == old(rng)@.step(),
            final(rng)@.wf(),
    {
        let candidates = other_places(wire_count, last_solution);
        let weights = place_weights_for(candidates.as_slice(), solution_weights);
        let place: usize = rng.weighted_index(weights.as_slice());
        WireSolution::Index(candidates[place])
    }

    /// Makes the rule list for modules of `wire_count` wires.
    pub fn generate(rng: &mut RuleseedRandom, wire_count: usize) -> (list: RuleList)
        requires
            old(rng)@.wf(),
            3 <= wire_count <= 6,
        ensures
            list@ == generate_list(old(rng)@, wire_count as int).list,
            final(rng)@ == generate_list(old(rng)@, wire_count as int).random,
            final(rng)@.wf(),
            list@.sound(wire_count as int),
    {
        reveal(generate_list);
        let rule_count: usize = RuleSet::roll_rule_count(rng);
        let mut query_weights = Weights::new(QUERY_TYPE_COUNT);
        let mut solution_weights = Weights::new(SOLUTION_TYPE_COUNT);
        let mut compound: Vec<Rule> = Vec::new();
        let mut simple: Vec<Rule> = Vec::new();
        let ghost mut made: Seq<RuleModel> = Seq::empty();
        let ghost start = Generator {
            random: rng@,
            query_weights: query_weights@,
            solution_weights: solution_weights@,
        };
        assert(models(compound@) =~= rules_of_arity(made, true));
        assert(models(simple@) =~= rules_of_arity(made, false));
        while compound.len() + simple.len() < rule_count
            invariant
                3 <= wire_count <= 6,
                3 <= rule_count <= 4,
                start.wf(),
                (Generator {
                    random: rng@,
                    query_weights: query_weights@,
                    solution_weights: solution_weights@,
                }).wf(),
                compound@.len() + simple@.len() == made.len(),
                made.len() <= rule_count,
                models(compound@) == rules_of_arity(made, true),
                models(simple@) == rules_of_arity(made, false),
                forall|k: int|
                    0 <= k < made.len() ==> (#[trigger] made[k]).licensed(wire_count as int)
                        && made[k].valid(),
                fill_rules(
                    Generator {
                        random: rng@,
                        query_weights: query_weights@,
                        solution_weights: solution_weights@,
                    },
                    wire_count as int,
                    rule_count as int,
                    made,
                ) == fill_rules(start, wire_count as int, rule_count as int, Seq::empty()),
            decreases rule_count - made.len(), query_weights@[11].bits(),
        {
            proof {
                lemma_generate_rule(
                    Generator {
                        random: rng@,
                        query_weights: query_weights@,
                        solution_weights: solution_weights@,
                    },
                    wire_count as int,
                );
            }
            let rule = Rule::generate(rng, &mut query_weights, &mut solution_weights, wire_count);
            if rule.is_valid() {
                let ghost before = made;
                proof {
                    made = made.push(rule@);
                    assert(made.drop_last() =~= before);
                }
                if rule.queries.len() == 2 {
                    let ghost held = compound@;
                    compound.push(rule);
                    assert(models(compound@) =~= models(held).push(rule@));
                } else {
                    let ghost held = simple@;
                    simple.push(rule);
                    assert(models(simple@) =~= models(held).push(rule@));
                }
            }
        }
        let ghost first = compound@;
        let ghost second = simple@;
        compound.append(&mut simple);
        assert(models(compound@) =~= compound_first(made));
        let last_solution = compound[compound.len() - 1].solution;
        assert(compound_first(made).last().solution == last_solution);
        let otherwise = Self::choose_otherwise(rng, &solution_weights, wire_count, last_solution);
        let ghost sorted = models(compound@);
        assert forall|k: int| 0 <= k < sorted.len() implies (#[trigger] sorted[k]).licensed(
            wire_count as int,
        ) && sorted[k].valid() by {
            lemma_arity_members(made, true);
            lemma_arity_members(made, false);
            if k < rules_of_arity(made, true).len() {
                assert(sorted[k] == rules_of_arity(made, true)[k]);
                let j = choose|j: int|
                    0 <= j < made.len() && made[j] == rules_of_arity(made, true)[k];
                assert(made[j].licensed(wire_count as int));
            } else {
                let at = k - rules_of_arity(made, true).len();
                assert(sorted[k] == rules_of_arity(made, false)[at]);
                let j = choose|j: int|
                    0 <= j < made.len() && made[j] == rules_of_arity(made, false)[at];
                assert(made[j].licensed(wire_count as int));
            }
        }
        let list = RuleList::new(compound, otherwise);
        assert(list@.rules =~= sorted);
        list
    }
}

/// Every rule of one arity is one of the rules.
proof fn lemma_arity_members(rules: Seq<RuleModel>, compound: bool)
    ensures
        forall|k: int|
            0 <= k < rules_of_arity(rules, compound).len() ==> exists|j: int|
                0 <= j < rules.len() && rules[j] == #[trigger] rules_of_arity(rules, compound)[k],
    decreases rules.len(),
{
    if rules.len() > 0 {
        lemma_arity_members(rules.drop_last(), compound);
        let rest = rules_of_arity(rules.drop_last(), compound);
        assert forall|k: int| 0 <= k < rules_of_arity(rules, compound).len() implies exists|j: int|
            0 <= j < rules.len() && rules[j] == #[trigger] rules_of_arity(rules, compound)[k] by {
            if k < rest.len() {
                let j = choose|j: int|
                    0 <= j < rules.drop_last().len() && rules.drop_last()[j] == rest[k];
                assert(rules[j] == rest[k]);
            } else {
                assert(rules[rules.len() - 1] == rules_of_arity(rules, compound)[k]);
            }
        }
    }
}

/// A condition on the wires.
pub open spec fn wire(query_type: WireQueryType, color: WireColor) -> Query {
    Query::Wire(WireQuery { query_type, color })
}

/// The rule that gives `solution` where `query` holds.
pub open spec fn simple_rule(query: Query, solution: WireSolution) -> RuleModel {
    RuleModel { queries: seq![query], solution }
}

/// The rule that gives `solution` where `first` and `second` hold.
pub open spec fn compound_rule(first: Query, second: Query, solution: WireSolution) -> RuleModel {
    RuleModel { queries: seq![first, second], solution }
}

/// The rules of the manual that the game ships with, for three wires.
pub open spec fn vanilla_three() -> RuleListModel {
    RuleListModel {
        rules: seq![
            simple_rule(wire(WireQueryType::NotPresent, WireColor::Red), WireSolution::Index(1)),
            simple_rule(wire(WireQueryType::LastWireIs, WireColor::White), WireSolution::Index(2)),
            simple_rule(
                wire(WireQueryType::MoreThanOne, WireColor::Blue),
                WireSolution::LastOfColor(WireColor::Blue),
            ),
        ],
        otherwise: WireSolution::Index(2),
    }
}

/// The rules of the manual that the game ships with, for four wires.
pub open spec fn vanilla_four() -> RuleListModel {
    RuleListModel {
        rules: seq![
            compound_rule(
                wire(WireQueryType::MoreThanOne, WireColor::Red),
                Query::Edgework(EdgeworkQuery::SerialOdd),
                WireSolution::LastOfColor(WireColor::Red),
            ),
            compound_rule(
                wire(WireQueryType::LastWireIs, WireColor::Yellow),
                wire(WireQueryType::NotPresent, WireColor::Red),
                WireSolution::Index(0),
            ),
            simple_rule(wire(WireQueryType::ExactlyOne, WireColor::Blue), WireSolution::Index(0)),
            simple_rule(
                wire(WireQueryType::MoreThanOne, WireColor::Yellow),
                WireSolution::Index(3),
            ),
        ],
        otherwise: WireSolution::Index(1),
    }
}

/// The rules of the manual that the game ships with, for five wires.
pub open spec fn vanilla_five() -> RuleListModel {
    RuleListModel {
        rules: seq![
            compound_rule(
                wire(WireQueryType::LastWireIs, WireColor::Black),
                Query::Edgework(EdgeworkQuery::SerialOdd),
                WireSolution::Index(3),
            ),
            compound_rule(
                wire(WireQueryType::ExactlyOne, WireColor::Red),
                wire(WireQueryType::MoreThanOne, WireColor::Yellow),
                WireSolution::Index(0),
            ),
            simple_rule(wire(WireQueryType::NotPresent, WireColor::Black), WireSolution::Index(1)),
        ],
        otherwise: WireSolution::Index(0),
    }
}

/// The rules of the manual that the game ships with, for six wires.
pub open spec fn vanilla_six() -> RuleListModel {
    RuleListModel {
        rules: seq![
            compound_rule(
                wire(WireQueryType::NotPresent, WireColor::Yellow),
                Query::Edgework(EdgeworkQuery::SerialOdd),
                WireSolution::Index(2),
            ),
            compound_rule(
                wire(WireQueryType::ExactlyOne, WireColor::Yellow),
                wire(WireQueryType::MoreThanOne, WireColor::White),
                WireSolution::Index(3),
            ),
            simple_rule(wire(WireQueryType::NotPresent, WireColor::Red), WireSolution::Index(5)),
        ],
        otherwise: WireSolution::Index(3),
    }
}

/// The rules of the manual that the game ships with.
pub open spec fn vanilla() -> Seq<RuleListModel> {
    seq![vanilla_three(), vanilla_four(), vanilla_five(), vanilla_six()]
}

/// The rules of the rule seed `seed`: those of the manual that the game
/// ships with for the seed of that manual, generated ones for any other.
pub open spec fn rule_set(seed: u32) -> Seq<RuleListModel> {
    if seed == VANILLA_SEED {
        vanilla()
    } else {
        generated(seed)
    }
}

fn wire_query(query_type: WireQueryType, color: WireColor) -> (query: Query)
    ensures
        query == wire(query_type, color),
{
    Query::Wire(WireQuery { query_type, color })
}

fn one_query(query: Query, solution: WireSolution) -> (rule: Rule)
    ensures
        rule@ == simple_rule(query, solution),
{
    let queries = [query];
    assert(queries@ =~= seq![query]);
    Rule::new(queries.as_slice(), solution)
}

fn two_queries(first: Query, second: Query, solution: WireSolution) -> (rule: Rule)
    ensures
        rule@ == compound_rule(first, second, solution),
{
    let queries = [first, second];
    assert(queries@ =~= seq![first, second]);
    Rule::new(queries.as_slice(), solution)
}

impl RuleSet {
    /// Draws the number of rules of a rule list: three where the draw is
    /// below six tenths, else four.
    pub fn roll_rule_count(rng: &mut RuleseedRandom) -> (count: usize)
        requires
            old(rng)@.wf(),
        ensures
            count == if old(rng)@.double().units() < six_tenths().units() {
                3int
            } else {
                4int
            },
            final(rng)@ == old(rng)@.step(),
            final(rng)@.wf(),
    {
        proof {
            Double::lemma_from_parts((0x13_3333_3333_3333, -53));
        }
        if rng.next_double().lt(Double::six_tenths()) {
            3
        } else {
            4
        }
    }

    /// The rules of the manual that the game ships with.
    pub fn vanilla() -> (set: RuleSet)
        ensures
            set@ == vanilla(),
    {
        let mut three: Vec<Rule> = Vec::new();
        three.push(one_query(wire_query(WireQueryType::NotPresent, WireColor::Red), WireSolution::Index(1)));
        three.push(one_query(wire_query(WireQueryType::LastWireIs, WireColor::White), WireSolution::Index(2)));
        three.push(
            one_query(
                wire_query(WireQueryType::MoreThanOne, WireColor::Blue),
                WireSolution::LastOfColor(WireColor::Blue),
            ),
        );
        let three = RuleList::new(three, WireSolution::Index(2));
        assert(three@.rules =~= vanilla_three().rules);
        let mut four: Vec<Rule> = Vec::new();
        four.push(
            two_queries(
                wire_query(WireQueryType::MoreThanOne, WireColor::Red),
                Query::Edgework(EdgeworkQuery::SerialOdd),
                WireSolution::LastOfColor(WireColor::Red),
            ),
        );
        four.push(
            two_queries(
                wire_query(WireQueryType::LastWireIs, WireColor::Yellow),
                wire_query(WireQueryType::NotPresent, WireColor::Red),
                WireSolution::Index(0),
            ),
        );
        four.push(one_query(wire_query(WireQueryType::ExactlyOne, WireColor::Blue), WireSolution::Index(0)));
        four.push(one_query(wire_query(WireQueryType::MoreThanOne, WireColor::Yellow), WireSolution::Index(3)));
        let four = RuleList::new(four, WireSolution::Index(1));
        assert(four@.rules =~= vanilla_four().rules);
        let mut five: Vec<Rule> = Vec::new();
        five.push(
            two_queries(
                wire_query(WireQueryType::LastWireIs, WireColor::Black),
                Query::Edgework(EdgeworkQuery::SerialOdd),
                WireSolution::Index(3),
            ),
        );
        five.push(
            two_queries(
                wire_query(WireQueryType::ExactlyOne, WireColor::Red),
                wire_query(WireQueryType::MoreThanOne, WireColor::Yellow),
                WireSolution::Index(0),
            ),
        );
        five.push(one_query(wire_query(WireQueryType::NotPresent, WireColor::Black), WireSolution::Index(1)));
        let five = RuleList::new(five, WireSolution::Index(0));
        assert(five@.rules =~= vanilla_five().rules);
        let mut six: Vec<Rule> = Vec::new();
        six.push(
            two_queries(
                wire_query(WireQueryType::NotPresent, WireColor::Yellow),
                Query::Edgework(EdgeworkQuery::SerialOdd),
                WireSolution::Index(2),
            ),
        );
        six.push(
            two_queries(
                wire_query(WireQueryType::ExactlyOne, WireColor::Yellow),
                wire_query(WireQueryType::MoreThanOne, WireColor::White),
                WireSolution::Index(3),
            ),
        );
        six.push(one_query(wire_query(WireQueryType::NotPresent, WireColor::Red), WireSolution::Index(5)));
        let six = RuleList::new(six, WireSolution::Index(3));
        assert(six@.rules =~= vanilla_six().rules);
        let set = RuleSet([three, four, five, six]);
        assert(set@ =~= vanilla());
        set
    }

    /// Makes the rule set of the rule seed `seed`.
    pub fn new(seed: u32) -> (set: RuleSet)
        requires
            seed <= MAX_VALUE,
        ensures
            set@ == rule_set(seed),
            forall|wire_count: int| 3 <= wire_count <= 6 ==> (#[trigger] set@[wire_count - 3]).sound(wire_count),
    {
        if seed == VANILLA_SEED {
            let set = RuleSet::vanilla();
            proof {
                lemma_vanilla_sound();
            }
            set
        } else {
            Self::generate(seed)
        }
    }

    /// Generates the rule lists for three, four, five and six wires in
    /// turn, with one random number generator made from `seed`.
    pub fn generate(seed: u32) -> (set: RuleSet)
        requires
            seed <= MAX_VALUE,
        ensures
            set@ == generated(seed),
            set@[0].sound(3),
            set@[1].sound(4),
            set@[2].sound(5),
            set@[3].sound(6),
    {
        let mut rng = RuleseedRandom::new(seed);
        let three = RuleList::generate(&mut rng, 3);
        let four = RuleList::generate(&mut rng, 4);
        let five = RuleList::generate(&mut rng, 5);
        let six = RuleList::generate(&mut rng, 6);
        let set = RuleSet([three, four, five, six]);
        assert(set@ =~= generated(seed));
        set
    }
}

/// The rules of the manual that the game ships with can hold, and have
/// solutions that can be carried out where they do.
pub proof fn lemma_vanilla_sound()
    ensures
        forall|wire_count: int| 3 <= wire_count <= 6 ==> (#[trigger] vanilla()[wire_count - 3]).sound(wire_count),
{
    assert(vanilla_three().sound(3)) by {
        let list = vanilla_three();
        assert forall|i: int| 0 <= i < list.rules.len() implies (#[trigger] list.rules[i]).licensed(
            3,
        ) && list.rules[i].valid() by {
            assert(list.rules[i].queries[0].sure_color() == list.rules[i].queries[0].sure_color());
        }
    }
    assert(vanilla_four().sound(4)) by {
        let list = vanilla_four();
        assert forall|i: int| 0 <= i < list.rules.len() implies (#[trigger] list.rules[i]).licensed(
            4,
        ) && list.rules[i].valid() by {
            assert(list.rules[i].queries[0].sure_color() == list.rules[i].queries[0].sure_color());
            if i == 1 {
                assert(!list.rules[i].queries[1].asks_last_wire());
            }
            if i == 0 {
                assert(!list.rules[i].queries[0].asks_last_wire());
            }
        }
    }
    assert(vanilla_five().sound(5)) by {
        let list = vanilla_five();
        assert forall|i: int| 0 <= i < list.rules.len() implies (#[trigger] list.rules[i]).licensed(
            5,
        ) && list.rules[i].valid() by {
            assert(!list.rules[i].queries[list.rules[i].queries.len() - 1].asks_last_wire());
        }
    }
    assert(vanilla_six().sound(6)) by {
        let list = vanilla_six();
        assert forall|i: int| 0 <= i < list.rules.len() implies (#[trigger] list.rules[i]).licensed(
            6,
        ) && list.rules[i].valid() by {
            assert(!list.rules[i].queries[0].asks_last_wire());
        }
    }
    assert forall|wire_count: int| 3 <= wire_count <= 6 implies (#[trigger] vanilla()[wire_count
        - 3]).sound(wire_count) by {
        if wire_count == 3 {
        } else if wire_count == 4 {
        } else if wire_count == 5 {
        } else {
        }
    }
}

} // verus!
