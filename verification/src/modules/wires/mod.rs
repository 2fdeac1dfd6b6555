//! The Wires module: its rule sets, and how a rule set decides which wire to
//! cut.

pub mod display;
pub mod generate;
pub mod kinds;
pub mod query;
pub mod solution;
pub mod wiring;

pub use crate::modules::wires::query::{EdgeworkQuery, Query, WireQuery, WireQueryType};
pub use crate::modules::wires::solution::{Solution, WireSolution};
pub use crate::modules::wires::wiring::generate;

use crate::edgework::{Edgework, EdgeworkModel};
use crate::modules::wires::solution::{lemma_first_of, lemma_last_of};
use vstd::prelude::*;

verus! {

/// The least number of wires on a module.
pub const MIN_WIRES: usize = 3;

/// The greatest number of wires on a module.
pub const MAX_WIRES: usize = 6;

/// The colors a wire can have.
#[derive(Debug, Copy, Clone, PartialEq, Eq, Structural)]
pub enum WireColor {
    Black,
    Blue,
    Red,
    White,
    Yellow,
}

/// The color of a wire, for short.
pub type Color = WireColor;

/// The conditions of a rule, kept in a `smallvec::SmallVec` with room for
/// two.
#[verifier::external_body]
#[derive(Debug, PartialEq, Eq)]
pub struct Queries {
    inner: smallvec::SmallVec<[Query; 2]>,
}

/// The conditions that a [`Queries`] holds, in their order.
pub uninterp spec fn queries_held(queries: Queries) -> Seq<Query>;

/// The rules of a rule list, kept in a `smallvec::SmallVec` with room for
/// four.
#[verifier::external_body]
#[derive(Debug, PartialEq, Eq)]
pub struct Rules {
    inner: smallvec::SmallVec<[Rule; 4]>,
}

/// The rules that a [`Rules`] holds, in their order.
pub uninterp spec fn rules_held(rules: Rules) -> Seq<Rule>;

/// A single sentence of the manual. Where all of `queries` hold, the
/// `solution` applies, unless an earlier rule does.
#[derive(Debug, PartialEq, Eq)]
pub struct Rule {
    pub queries: Queries,
    pub solution: WireSolution,
}

/// The rules for one number of wires.
#[derive(Debug, PartialEq, Eq)]
pub struct RuleList {
    pub rules: Rules,
    /// The solution where none of the rules applies.
    pub otherwise: WireSolution,
}

/// The rules of the Wires module: a rule list for each number of wires from
/// three to six.
#[derive(Debug, PartialEq, Eq)]
pub struct RuleSet(pub [RuleList; 4]);

impl View for Queries {
    type V = Seq<Query>;

    open spec fn view(&self) -> Seq<Query> {
        queries_held(*self)
    }
}

impl View for Rules {
    type V = Seq<Rule>;

    open spec fn view(&self) -> Seq<Rule> {
        rules_held(*self)
    }
}

/// `SmallVec::from_slice` copies the items of a slice into a new vector, in
/// their order.
#[verifier::external_body]
fn queries_from_slice(queries: &[Query]) -> (held: Queries)
    ensures
        queries_held(held) == queries@,
{
    Queries { inner: smallvec::SmallVec::from_slice(queries) }
}

/// `SmallVec::len` is the number of items in the vector.
#[verifier::external_body]
pub(crate) fn queries_len(queries: &Queries) -> (len: usize)
    ensures
        len == queries_held(*queries).len(),
{
    queries.inner.len()
}

/// Indexing a `SmallVec` gives the item in that place of the vector. It
/// panics where there is no such place.
#[verifier::external_body]
pub(crate) fn queries_at(queries: &Queries, i: usize) -> (query: Query)
    requires
        i < queries_held(*queries).len(),
    ensures
        query == queries_held(*queries)[i as int],
{
    queries.inner[i]
}

/// `SmallVec::from_vec` moves the items of a `Vec` into a new vector, in
/// their order.
#[verifier::external_body]
fn rules_from_vec(rules: Vec<Rule>) -> (held: Rules)
    ensures
        rules_held(held) == rules@,
{
    Rules { inner: smallvec::SmallVec::from_vec(rules) }
}

/// `SmallVec::len` is the number of items in the vector.
#[verifier::external_body]
pub(crate) fn rules_len(rules: &Rules) -> (len: usize)
    ensures
        len == rules_held(*rules).len(),
{
    rules.inner.len()
}

/// Indexing a `SmallVec` gives the item in that place of the vector. It
/// panics where there is no such place.
#[verifier::external_body]
pub(crate) fn rules_at(rules: &Rules, i: usize) -> (rule: &Rule)
    requires
        i < rules_held(*rules).len(),
    ensures
        *rule == rules_held(*rules)[i as int],
{
    &rules.inner[i]
}

impl Clone for Queries {
    /// A copy that holds the same conditions.
    fn clone(&self) -> (copy: Queries)
        ensures
            copy@ == self@,
    {
        let queries = self.to_vec();
        queries_from_slice(queries.as_slice())
    }
}

impl Clone for Rule {
    /// A copy that says the same.
    fn clone(&self) -> (copy: Rule)
        ensures
            copy@ == self@,
    {
        Rule { queries: self.queries.clone(), solution: self.solution }
    }
}

impl Clone for Rules {
    /// A copy that holds rules that say the same, in the same order.
    fn clone(&self) -> (copy: Rules)
        ensures
            copy@.len() == self@.len(),
            forall|i: int| 0 <= i < self@.len() ==> (#[trigger] copy@[i])@ == self@[i]@,
    {
        let len: usize = rules_len(self);
        let mut rules: Vec<Rule> = Vec::new();
        let mut i: usize = 0;
        while i < len
            invariant
                i <= len,
                len == self@.len(),
                rules@.len() == i,
                forall|k: int| 0 <= k < i ==> (#[trigger] rules@[k])@ == self@[k]@,
            decreases len - i,
        {
            rules.push(rules_at(self, i).clone());
            i = i + 1;
        }
        rules_from_vec(rules)
    }
}

impl Clone for RuleList {
    /// A copy that says the same.
    fn clone(&self) -> (copy: RuleList)
        ensures
            copy@ == self@,
    {
        let copy = RuleList { rules: self.rules.clone(), otherwise: self.otherwise };
        assert(copy@.rules =~= self@.rules);
        copy
    }
}

impl Clone for RuleSet {
    /// A copy that says the same.
    fn clone(&self) -> (copy: RuleSet)
        ensures
            copy@ == self@,
    {
        let copy = RuleSet(
            [self.0[0].clone(), self.0[1].clone(), self.0[2].clone(), self.0[3].clone()],
        );
        assert(copy@ =~= self@);
        copy
    }
}

impl Queries {
    /// Keeps the conditions of `queries`, in their order.
    pub fn from_slice(queries: &[Query]) -> (held: Queries)
        ensures
            held@ == queries@,
    {
        queries_from_slice(queries)
    }

    /// The number of conditions.
    pub fn len(&self) -> (len: usize)
        ensures
            len == self@.len(),
    {
        queries_len(self)
    }

    /// The condition in place `i`, if there is one.
    pub fn get(&self, i: usize) -> (query: Option<Query>)
        ensures
            query == if i < self@.len() {
                Some(self@[i as int])
            } else {
                None
            },
    {
        if i < queries_len(self) {
            Some(queries_at(self, i))
        } else {
            None
        }
    }

    /// The conditions, in their order.
    pub fn to_vec(&self) -> (queries: Vec<Query>)
        ensures
            queries@ == self@,
    {
        let mut queries: Vec<Query> = Vec::new();
        let len: usize = queries_len(self);
        let mut i: usize = 0;
        while i < len
            invariant
                i <= len,
                len == self@.len(),
                queries@ == self@.take(i as int),
            decreases len - i,
        {
            queries.push(queries_at(self, i));
            assert(queries@ =~= self@.take(i + 1));
            i = i + 1;
        }
        assert(self@.take(len as int) =~= self@);
        queries
    }
}

impl Rules {
    /// Keeps the rules of `rules`, in their order.
    pub fn from_vec(rules: Vec<Rule>) -> (held: Rules)
        ensures
            held@ == rules@,
    {
        rules_from_vec(rules)
    }

    /// The number of rules.
    pub fn len(&self) -> (len: usize)
        ensures
            len == self@.len(),
    {
        rules_len(self)
    }

    /// The rule in place `i`, if there is one.
    pub fn get(&self, i: usize) -> (rule: Option<&Rule>)
        ensures
            rule == if i < self@.len() {
                Some(&self@[i as int])
            } else {
                None
            },
    {
        if i < rules_len(self) {
            Some(rules_at(self, i))
        } else {
            None
        }
    }
}

/// What a [`Rule`] says.
pub struct RuleModel {
    pub queries: Seq<Query>,
    pub solution: WireSolution,
}

/// What a [`RuleList`] says.
pub struct RuleListModel {
    pub rules: Seq<RuleModel>,
    pub otherwise: WireSolution,
}

impl View for Rule {
    type V = RuleModel;

    open spec fn view(&self) -> RuleModel {
        RuleModel { queries: self.queries@, solution: self.solution }
    }
}

impl View for RuleList {
    type V = RuleListModel;

    open spec fn view(&self) -> RuleListModel {
        RuleListModel {
            rules: Seq::new(self.rules@.len(), |i: int| self.rules@[i]@),
            otherwise: self.otherwise,
        }
    }
}

impl View for RuleSet {
    type V = Seq<RuleListModel>;

    open spec fn view(&self) -> Seq<RuleListModel> {
        Seq::new(4, |i: int| self.0@[i]@)
    }
}

impl RuleModel {
    /// Whether all the conditions of the rule hold.
    pub open spec fn holds(self, edgework: EdgeworkModel, wires: Seq<WireColor>) -> bool {
        forall|i: int| 0 <= i < self.queries.len() ==> (#[trigger] self.queries[i]).holds(
            edgework,
            wires,
        )
    }

    /// Whether a condition of the rule is about the last wire.
    pub open spec fn asks_last_wire(self) -> bool {
        exists|i: int| 0 <= i < self.queries.len() && (#[trigger] self.queries[i]).asks_last_wire()
    }

    /// Whether the rule has one or two conditions, and a solution that can
    /// be carried out wherever they hold on a module of `wire_count` wires:
    /// a place that such a module has, or a color that one of the conditions
    /// makes sure of.
    pub open spec fn licensed(self, wire_count: int) -> bool {
        &&& 1 <= self.queries.len() <= 2
        &&& match self.solution {
            WireSolution::Index(n) => n < wire_count,
            _ => exists|i: int|
                0 <= i < self.queries.len() && (#[trigger] self.queries[i]).sure_color()
                    == self.solution.color(),
        }
    }

    /// Whether the rule can hold at all: it has one condition, or one of
    /// its conditions is not about the last wire, which has one color only.
    pub open spec fn valid(self) -> bool {
        self.queries.len() == 1 || exists|i: int|
            0 <= i < self.queries.len() && !(#[trigger] self.queries[i]).asks_last_wire()
    }
}

impl RuleListModel {
    /// The solution of the first of the rules from the `i`th on that holds,
    /// or `otherwise` where none does.
    pub open spec fn first_match(self, edgework: EdgeworkModel, wires: Seq<WireColor>, i: int)
        -> WireSolution
        decreases self.rules.len() - i,
    {
        if i < 0 || i >= self.rules.len() {
            self.otherwise
        } else if self.rules[i].holds(edgework, wires) {
            self.rules[i].solution
        } else {
            self.first_match(edgework, wires, i + 1)
        }
    }

    /// The solution that the rule list gives.
    pub open spec fn answer(self, edgework: EdgeworkModel, wires: Seq<WireColor>) -> WireSolution {
        self.first_match(edgework, wires, 0)
    }

    /// Whether a condition of a rule is about the last wire.
    pub open spec fn asks_last_wire(self) -> bool {
        exists|i: int| 0 <= i < self.rules.len() && (#[trigger] self.rules[i]).asks_last_wire()
    }

    /// Whether the list is one for modules of `wire_count` wires: every rule
    /// can hold and has a solution that can be carried out where it does,
    /// and the solution where none holds is a place that the module has.
    pub open spec fn sound(self, wire_count: int) -> bool {
        &&& forall|i: int|
            0 <= i < self.rules.len() ==> (#[trigger] self.rules[i]).licensed(wire_count)
                && self.rules[i].valid()
        &&& self.otherwise matches WireSolution::Index(n) && n < wire_count
    }
}

impl Rule {
    /// Makes a rule of conditions and a solution.
    pub fn new(queries: &[Query], solution: WireSolution) -> (rule: Rule)
        ensures
            rule@ == (RuleModel { queries: queries@, solution }),
    {
        Rule { queries: Queries::from_slice(queries), solution }
    }

    /// Tells whether all the conditions of the rule hold.
    pub fn evaluate(&self, edgework: &Edgework, wires: &[WireColor]) -> (r: bool)
        requires
            edgework.wf(),
            self@.asks_last_wire() ==> wires@.len() > 0,
        ensures
            r == self@.holds(edgework@, wires@),
    {
        let len: usize = queries_len(&self.queries);
        let mut i: usize = 0;
        while i < len
            invariant
                i <= len,
                len == self.queries@.len(),
                edgework.wf(),
                self@.asks_last_wire() ==> wires@.len() > 0,
                forall|k: int| 0 <= k < i ==> (#[trigger] self.queries@[k]).holds(edgework@, wires@),
            decreases len - i,
        {
            let query = queries_at(&self.queries, i);
            if !query.evaluate(edgework, wires) {
                return false;
            }
            i = i + 1;
        }
        true
    }

    /// Tells whether the rule can hold at all. A rule of one condition can;
    /// a rule of two cannot where both are about the last wire, which has
    /// one color only.
    pub fn is_valid(&self) -> (r: bool)
        ensures
            r == self@.valid(),
    {
        let len: usize = queries_len(&self.queries);
        if len == 1 {
            return true;
        }
        let mut i: usize = 0;
        while i < len
            invariant
                i <= len,
                len == self.queries@.len(),
                forall|k: int| 0 <= k < i ==> (#[trigger] self.queries@[k]).asks_last_wire(),
            decreases len - i,
        {
            let query = queries_at(&self.queries, i);
            if !query.is_about_last_wire() {
                return true;
            }
            i = i + 1;
        }
        false
    }
}

impl RuleList {
    /// Makes a rule list of rules and the solution where none applies.
    pub fn new(rules: Vec<Rule>, otherwise: WireSolution) -> (list: RuleList)
        ensures
            list.rules@ == rules@,
            list.otherwise == otherwise,
            list@.rules.len() == rules@.len(),
            forall|i: int| 0 <= i < rules@.len() ==> list@.rules[i] == rules@[i]@,
    {
        RuleList { rules: Rules::from_vec(rules), otherwise }
    }

    /// Finds the solution for a module: that of the first rule that holds,
    /// or `otherwise`.
    pub fn evaluate(&self, edgework: &Edgework, wires: &[WireColor]) -> (solution: WireSolution)
        requires
            edgework.wf(),
            self@.asks_last_wire() ==> wires@.len() > 0,
        ensures
            solution == self@.answer(edgework@, wires@),
    {
        let len: usize = rules_len(&self.rules);
        let mut i: usize = 0;
        while i < len
            invariant
                i <= len,
                len == self.rules@.len(),
                edgework.wf(),
                self@.asks_last_wire() ==> wires@.len() > 0,
                self@.first_match(edgework@, wires@, i as int) == self@.answer(edgework@, wires@),
            decreases len - i,
        {
            let rule = rules_at(&self.rules, i);
            assert(self@.rules[i as int] == rule@);
            assert(rule@.asks_last_wire() ==> self@.asks_last_wire());
            if rule.evaluate(edgework, wires) {
                return rule.solution;
            }
            i = i + 1;
        }
        self.otherwise
    }
}

impl RuleSet {
    /// If a module can have `wire_count` wires, returns the rules for that
    /// many.
    pub fn get(&self, wire_count: usize) -> (list: Option<&RuleList>)
        ensures
            list is Some <==> 3 <= wire_count <= 6,
            list matches Some(rules) ==> rules@ == self@[wire_count - 3],
    {
        if MIN_WIRES <= wire_count && wire_count <= MAX_WIRES {
            Some(&self.0[wire_count - MIN_WIRES])
        } else {
            None
        }
    }

    /// If a module can have `wire_count` wires, returns the rules for that
    /// many, to be changed.
    pub fn get_mut(&mut self, wire_count: usize) -> (list: Option<&mut RuleList>)
        ensures
            list is Some <==> 3 <= wire_count <= 6,
            list matches Some(rules) ==> *rules == old(self).0@[wire_count - 3] && final(self).0@
                == old(self).0@.update(wire_count - 3, *final(rules)),
            list is None ==> *final(self) == *old(self),
    {
        if MIN_WIRES <= wire_count && wire_count <= MAX_WIRES {
            Some(&mut self.0[wire_count - MIN_WIRES])
        } else {
            None
        }
    }

    /// The rules for `wire_count` wires.
    pub fn index(&self, wire_count: usize) -> (list: &RuleList)
        requires
            3 <= wire_count <= 6,
        ensures
            list@ == self@[wire_count - 3],
    {
        &self.0[wire_count - MIN_WIRES]
    }

    /// Finds the solution for a module.
    pub fn evaluate(&self, edgework: &Edgework, wires: &[WireColor]) -> (solution: WireSolution)
        requires
            edgework.wf(),
            3 <= wires@.len() <= 6,
        ensures
            solution == self@[wires@.len() - 3].answer(edgework@, wires@),
    {
        self.index(wires.len()).evaluate(edgework, wires)
    }
}

/// No rule of a sound rule list has two conditions on the last wire.
pub proof fn lemma_last_wire_asked_once(list: RuleListModel, wire_count: int, i: int)
    requires
        list.sound(wire_count),
        0 <= i < list.rules.len(),
    ensures
        forall|j: int, k: int|
            0 <= j < k < list.rules[i].queries.len() ==> !(list.rules[i].queries[j].asks_last_wire()
                && list.rules[i].queries[k].asks_last_wire()),
{
    let rule = list.rules[i];
    assert(rule.licensed(wire_count) && rule.valid());
}

/// The solution of a rule that can be carried out wherever the rule holds
/// names a wire of the module, where the rule holds.
pub proof fn lemma_solution_is_a_wire(
    rule: RuleModel,
    edgework: EdgeworkModel,
    wires: Seq<WireColor>,
)
    requires
        rule.licensed(wires.len() as int),
        rule.holds(edgework, wires),
        wires.len() <= 256,
    ensures
        rule.solution.fits(wires),
        0 <= rule.solution.index_in(wires) < wires.len(),
{
    if let Some(color) = rule.solution.color() {
        let i = choose|i: int|
            0 <= i < rule.queries.len() && (#[trigger] rule.queries[i]).sure_color() == Some(color);
        assert(rule.queries[i].holds(edgework, wires));
        rule.queries[i].lemma_sure_color(edgework, wires);
        let at = choose|at: int| 0 <= at < wires.len() && wires[at] == color;
        lemma_first_of(wires, color, 0);
        lemma_last_of(wires, color, wires.len() as int);
    }
}

/// Whatever the edgework and the wires are, the solution that a sound rule
/// list gives for a module of its number of wires can be carried out, and
/// names a wire of the module.
pub proof fn lemma_answer_is_a_wire(
    list: RuleListModel,
    edgework: EdgeworkModel,
    wires: Seq<WireColor>,
)
    requires
        list.sound(wires.len() as int),
        wires.len() <= 256,
    ensures
        list.answer(edgework, wires).fits(wires),
        0 <= list.answer(edgework, wires).index_in(wires) < wires.len(),
{
    lemma_first_match_is_a_wire(list, edgework, wires, 0);
}

proof fn lemma_first_match_is_a_wire(
    list: RuleListModel,
    edgework: EdgeworkModel,
    wires: Seq<WireColor>,
    i: int,
)
    requires
        list.sound(wires.len() as int),
        wires.len() <= 256,
        0 <= i,
    ensures
        list.first_match(edgework, wires, i).fits(wires),
        0 <= list.first_match(edgework, wires, i).index_in(wires) < wires.len(),
    decreases list.rules.len() - i,
{
    if i < list.rules.len() {
        if list.rules[i].holds(edgework, wires) {
            lemma_solution_is_a_wire(list.rules[i], edgework, wires);
        } else {
            lemma_first_match_is_a_wire(list, edgework, wires, i + 1);
        }
    }
}

} // verus!
