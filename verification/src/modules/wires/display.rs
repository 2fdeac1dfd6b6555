//! The rules of the Wires module in the words of the manual.

use crate::edgework::PortType;
use crate::modules::wires::query::{EdgeworkQuery, Query, WireQuery, WireQueryType};
use crate::modules::wires::solution::WireSolution;
use crate::modules::wires::{
    queries_at, queries_len, rules_at, rules_len, Queries, Rule, RuleList, RuleListModel,
    RuleModel, RuleSet, WireColor,
};
use vstd::prelude::*;
use vstd::string::StringExecFns;

verus! {

/// The decimal digit `d` as a character.
pub open spec fn digit_char(d: nat) -> char {
    if d == 0 {
        '0'
    } else if d == 1 {
        '1'
    } else if d == 2 {
        '2'
    } else if d == 3 {
        '3'
    } else if d == 4 {
        '4'
    } else if d == 5 {
        '5'
    } else if d == 6 {
        '6'
    } else if d == 7 {
        '7'
    } else if d == 8 {
        '8'
    } else {
        '9'
    }
}

/// The number `n` in decimal digits.
pub open spec fn decimal_text(n: nat) -> Seq<char>
    decreases n,
{
    if n < 10 {
        seq![digit_char(n)]
    } else {
        decimal_text(n / 10).push(digit_char(n % 10))
    }
}

/// The ending that makes an ordinal of the number `n`: `th` for numbers
/// that end in 11, 12 or 13, else `st`, `nd` and `rd` for those that end in
/// 1, 2 and 3, and `th` for all others.
pub open spec fn ordinal_suffix(n: nat) -> Seq<char> {
    if 11 <= n % 100 <= 13 {
        "th"@
    } else if n % 10 == 1 {
        "st"@
    } else if n % 10 == 2 {
        "nd"@
    } else if n % 10 == 3 {
        "rd"@
    } else {
        "th"@
    }
}

/// The ordinal of the number `n`, such as `1st` or `12th`.
pub open spec fn ordinal_text(n: nat) -> Seq<char> {
    decimal_text(n) + ordinal_suffix(n)
}

/// `ordinal::ToOrdinal::to_ordinal_string` writes a number in decimal
/// digits, followed by the ending that makes an ordinal of it.
#[verifier::external_body]
fn ordinal_string(n: u16) -> (text: String)
    ensures
        text@ == ordinal_text(n as nat),
{
    ordinal::ToOrdinal::to_ordinal_string(n)
}

impl WireColor {
    /// The name of the color.
    pub open spec fn name_text(self) -> Seq<char> {
        match self {
            WireColor::Black => "black"@,
            WireColor::Blue => "blue"@,
            WireColor::Red => "red"@,
            WireColor::White => "white"@,
            WireColor::Yellow => "yellow"@,
        }
    }

    /// The name of the color.
    pub fn name(self) -> (name: &'static str)
        ensures
            name@ == self.name_text(),
    {
        match self {
            WireColor::Black => "black",
            WireColor::Blue => "blue",
            WireColor::Red => "red",
            WireColor::White => "white",
            WireColor::Yellow => "yellow",
        }
    }

    /// The name of the color.
    pub fn to_string(&self) -> (text: String)
        ensures
            text@ == self.name_text(),
    {
        String::from_str(self.name())
    }
}

impl PortType {
    /// The name of the port as the manual writes it.
    pub open spec fn name_text(self) -> Seq<char> {
        match self {
            PortType::DVI => "DVI-D"@,
            PortType::PS2 => "PS/2"@,
            PortType::RJ45 => "RJ-45"@,
            PortType::StereoRCA => "Stereo RCA"@,
            PortType::Parallel => "parallel"@,
            PortType::Serial => "serial"@,
        }
    }

    /// The name of the port as the manual writes it.
    pub fn name(self) -> (name: &'static str)
        ensures
            name@ == self.name_text(),
    {
        match self {
            PortType::DVI => "DVI-D",
            PortType::PS2 => "PS/2",
            PortType::RJ45 => "RJ-45",
            PortType::StereoRCA => "Stereo RCA",
            PortType::Parallel => "parallel",
            PortType::Serial => "serial",
        }
    }

    /// The name of the port as the manual writes it.
    pub fn to_string(&self) -> (text: String)
        ensures
            text@ == self.name_text(),
    {
        String::from_str(self.name())
    }
}

impl EdgeworkQuery {
    /// The condition in words.
    pub open spec fn text(self) -> Seq<char> {
        match self {
            EdgeworkQuery::SerialStartsWithLetter => "the serial number starts with a letter"@,
            EdgeworkQuery::SerialOdd => "the last digit of the serial number is odd"@,
            EdgeworkQuery::HasEmptyPortPlate => "there is an empty port plate present on the bomb"@,
            EdgeworkQuery::PortPresent(port) => (if port == PortType::RJ45 {
                "there is an "@
            } else {
                "there is a "@
            }) + port.name_text() + " port present on the bomb"@,
        }
    }

    /// The condition in words.
    pub fn to_string(&self) -> (text: String)
        ensures
            text@ == self.text(),
    {
        match self {
            EdgeworkQuery::SerialStartsWithLetter => String::from_str(
                "the serial number starts with a letter",
            ),
            EdgeworkQuery::SerialOdd => String::from_str(
                "the last digit of the serial number is odd",
            ),
            EdgeworkQuery::HasEmptyPortPlate => String::from_str(
                "there is an empty port plate present on the bomb",
            ),
            EdgeworkQuery::PortPresent(port) => {
                let mut text = match port {
                    PortType::RJ45 => String::from_str("there is an "),
                    _ => String::from_str("there is a "),
                };
                text.append(port.name());
                text.append(" port present on the bomb");
                text
            },
        }
    }
}

impl WireQuery {
    /// The condition in words.
    pub open spec fn text(self) -> Seq<char> {
        match self.query_type {
            WireQueryType::ExactlyOne => "there is exactly one "@ + self.color.name_text()
                + " wire"@,
            WireQueryType::MoreThanOne => "there is more than one "@ + self.color.name_text()
                + " wire"@,
            WireQueryType::NotPresent => "there are no "@ + self.color.name_text() + " wires"@,
            WireQueryType::LastWireIs => "the last wire is "@ + self.color.name_text(),
        }
    }

    /// The condition in words.
    pub fn to_string(&self) -> (text: String)
        ensures
            text@ == self.text(),
    {
        match self.query_type {
            WireQueryType::ExactlyOne => {
                let mut text = String::from_str("there is exactly one ");
                text.append(self.color.name());
                text.append(" wire");
                text
            },
            WireQueryType::MoreThanOne => {
                let mut text = String::from_str("there is more than one ");
                text.append(self.color.name());
                text.append(" wire");
                text
            },
            WireQueryType::NotPresent => {
                let mut text = String::from_str("there are no ");
                text.append(self.color.name());
                text.append(" wires");
                text
            },
            WireQueryType::LastWireIs => {
                let mut text = String::from_str("the last wire is ");
                text.append(self.color.name());
                text
            },
        }
    }
}

impl Query {
    /// The condition in words.
    pub open spec fn text(self) -> Seq<char> {
        match self {
            Query::Edgework(query) => query.text(),
            Query::Wire(query) => query.text(),
        }
    }

    /// The condition in words.
    pub fn to_string(&self) -> (text: String)
        ensures
            text@ == self.text(),
    {
        match self {
            Query::Edgework(query) => query.to_string(),
            Query::Wire(query) => query.to_string(),
        }
    }
}

impl WireSolution {
    /// The solution in words. Places are counted from one.
    pub open spec fn text(self) -> Seq<char> {
        match self {
            WireSolution::Index(n) => "cut the "@ + ordinal_text((n + 1) as nat) + " wire"@,
            WireSolution::TheOneOfColor(color) => "cut the "@ + color.name_text() + " wire"@,
            WireSolution::FirstOfColor(color) => "cut the first "@ + color.name_text() + " wire"@,
            WireSolution::LastOfColor(color) => "cut the last "@ + color.name_text() + " wire"@,
        }
    }

    /// The solution in words.
    pub fn to_string(&self) -> (text: String)
        ensures
            text@ == self.text(),
    {
        match self {
            WireSolution::Index(n) => {
                let mut text = String::from_str("cut the ");
                let place = ordinal_string(*n as u16 + 1);
                text.append(place.as_str());
                text.append(" wire");
                text
            },
            WireSolution::TheOneOfColor(color) => {
                let mut text = String::from_str("cut the ");
                text.append(color.name());
                text.append(" wire");
                text
            },
            WireSolution::FirstOfColor(color) => {
                let mut text = String::from_str("cut the first ");
                text.append(color.name());
                text.append(" wire");
                text
            },
            WireSolution::LastOfColor(color) => {
                let mut text = String::from_str("cut the last ");
                text.append(color.name());
                text.append(" wire");
                text
            },
        }
    }
}

/// The first `n` of `queries` in words, with `and` between them.
pub open spec fn queries_text(queries: Seq<Query>, n: int) -> Seq<char>
    decreases n,
{
    if n <= 0 {
        Seq::empty()
    } else if n == 1 {
        queries[0].text()
    } else {
        queries_text(queries, n - 1) + " and "@ + queries[n - 1].text()
    }
}

impl RuleModel {
    /// The sentence of the manual that states the rule, with the line feed
    /// after it: `If` its conditions, a comma and its solution. A rule that
    /// is not the first of its list begins with `Otherwise, if`.
    pub open spec fn text(self, first: bool) -> Seq<char> {
        (if first {
            "If "@
        } else {
            "Otherwise, if "@
        }) + queries_text(self.queries, self.queries.len() as int) + ", "@ + self.solution.text()
            + ".\n"@
    }
}

/// The sentences of the first `n` of `rules`.
pub open spec fn rules_text(rules: Seq<RuleModel>, n: int) -> Seq<char>
    decreases n,
{
    if n <= 0 {
        Seq::empty()
    } else {
        rules_text(rules, n - 1) + rules[n - 1].text(n == 1)
    }
}

impl RuleListModel {
    /// The rule list in the sentences of the manual: a line for each rule,
    /// and a last one for the solution where no rule holds.
    pub open spec fn text(self) -> Seq<char> {
        rules_text(self.rules, self.rules.len() as int) + "Otherwise, "@ + self.otherwise.text()
            + "."@
    }
}

/// The rule lists from the `i`th on, each under a heading with its number of
/// wires, which is three for the first, and with an empty line after it.
pub open spec fn lists_text(lists: Seq<RuleListModel>, n: int) -> Seq<char>
    decreases n,
{
    if n <= 0 {
        Seq::empty()
    } else {
        lists_text(lists, n - 1) + decimal_text((n + 2) as nat) + " wires:\n"@ + lists[n - 1].text()
            + "\n\n"@
    }
}

impl Queries {
    /// The conditions in words, with `and` between them.
    pub fn to_string(&self) -> (text: String)
        ensures
            text@ == queries_text(self@, self@.len() as int),
    {
        let len: usize = queries_len(self);
        let mut text = String::new();
        let mut i: usize = 0;
        while i < len
            invariant
                i <= len,
                len == self@.len(),
                text@ == queries_text(self@, i as int),
            decreases len - i,
        {
            if i > 0 {
                text.append(" and ");
            }
            let query = queries_at(self, i);
            let words = query.to_string();
            text.append(words.as_str());
            assert(text@ =~= queries_text(self@, i + 1));
            i = i + 1;
        }
        text
    }
}

impl Rule {
    /// The sentence of the manual that states the rule, with the line feed
    /// after it. A rule that is not the first of its list begins with
    /// `Otherwise, if`.
    pub fn to_string(&self, first: bool) -> (text: String)
        ensures
            text@ == self@.text(first),
    {
        let mut text = if first {
            String::from_str("If ")
        } else {
            String::from_str("Otherwise, if ")
        };
        let queries = self.queries.to_string();
        text.append(queries.as_str());
        text.append(", ");
        let solution = self.solution.to_string();
        text.append(solution.as_str());
        text.append(".\n");
        text
    }
}

impl RuleList {
    /// The rule list in the sentences of the manual.
    pub fn to_string(&self) -> (text: String)
        ensures
            text@ == self@.text(),
    {
        let len: usize = rules_len(&self.rules);
        let mut text = String::new();
        let mut i: usize = 0;
        while i < len
            invariant
                i <= len,
                len == self.rules@.len(),
                text@ == rules_text(self@.rules, i as int),
            decreases len - i,
        {
            let rule = rules_at(&self.rules, i);
            assert(self@.rules[i as int] == rule@);
            let line = rule.to_string(i == 0);
            text.append(line.as_str());
            assert(text@ =~= rules_text(self@.rules, i + 1));
            i = i + 1;
        }
        text.append("Otherwise, ");
        let solution = self.otherwise.to_string();
        text.append(solution.as_str());
        text.append(".");
        text
    }
}

impl RuleSet {
    /// The rule lists, each under a heading with its number of wires.
    pub fn to_string(&self) -> (text: String)
        ensures
            text@ == lists_text(self@, 4),
    {
        let mut text = String::new();
        let mut i: usize = 0;
        while i < 4
            invariant
                i <= 4,
                text@ == lists_text(self@, i as int),
            decreases 4 - i,
        {
            let heading = match i {
                0 => "3",
                1 => "4",
                2 => "5",
                _ => "6",
            };
            proof {
                reveal_strlit("3");
                reveal_strlit("4");
                reveal_strlit("5");
                reveal_strlit("6");
                assert(heading@ =~= decimal_text((i + 3) as nat));
            }
            text.append(heading);
            text.append(" wires:\n");
            let list = self.0[i].to_string();
            text.append(list.as_str());
            text.append("\n\n");
            assert(text@ =~= lists_text(self@, i + 1));
            i = i + 1;
        }
        text
    }
}

} // verus!
