use ktane_utils::edgework::{Edgework, PortType};
use ktane_utils::modules::wires::query::EdgeworkQuery::{
    HasEmptyPortPlate, PortPresent, SerialOdd, SerialStartsWithLetter,
};
use ktane_utils::modules::wires::query::WireQueryType::{
    ExactlyOne, LastWireIs, MoreThanOne, NotPresent,
};
use ktane_utils::modules::wires::query::{EdgeworkQuery, Query, WireQuery, WireQueryType};
use ktane_utils::modules::wires::solution::Solution;
use ktane_utils::modules::wires::solution::WireSolution::{
    FirstOfColor, Index, LastOfColor, TheOneOfColor,
};
use ktane_utils::modules::wires::Color;
use ktane_utils::modules::wires::WireColor::{Black, Blue, Red, White, Yellow};
use ktane_utils::modules::wires::{Rule, RuleList, RuleSet};
use ktane_utils::random::{MAX_VALUE, VANILLA_SEED};

fn wire(query_type: WireQueryType, color: Color) -> Query {
    Query::Wire(WireQuery { query_type, color })
}

fn edgework(query: EdgeworkQuery) -> Query {
    Query::Edgework(query)
}

fn rules_of(rules: Vec<(Vec<Query>, Solution)>, otherwise: Solution) -> RuleList {
    RuleList::new(
        rules
            .into_iter()
            .map(|(queries, solution)| Rule::new(&queries, solution))
            .collect(),
        otherwise,
    )
}

#[test]
fn wires_wire_query_evaluate() {
    const TESTS: &[(&[Color], WireQueryType, Color, bool)] = &[
        (&[Red, Black, Blue], LastWireIs, Red, false),
        (&[Red, Black, Blue], LastWireIs, Blue, true),
        (&[Red, Black, Blue, Yellow], LastWireIs, Yellow, true),
        (&[Red, Black, Yellow, Blue], LastWireIs, Yellow, false),
        (&[Red, Black, Red, Blue], ExactlyOne, Red, false),
        (&[Red, Black, Blue, Yellow], ExactlyOne, Black, true),
        (&[Red, Black, Yellow, Blue, Yellow], MoreThanOne, Yellow, true),
        (&[Red, Black, Yellow, Blue, Red], MoreThanOne, Yellow, false),
        (&[Red, Black, Yellow, Black], NotPresent, Yellow, false),
        (&[Red, Black, Blue, Black], NotPresent, Yellow, true),
    ];

    for &(colors, query_type, color, expected) in TESTS {
        let query = WireQuery { query_type, color };
        assert_eq!(query.evaluate(colors), expected);
    }
}

#[test]
fn tests_wire_query_evaluate() {
    const TESTS: &[(&[Color], WireQueryType, Color, bool)] = &[
        (&[Red, Black, Blue], LastWireIs, Red, false),
        (&[Red, Black, Blue], LastWireIs, Blue, true),
        (&[Red, Black, Blue, Yellow], LastWireIs, Yellow, true),
        (&[Red, Black, Yellow, Blue], LastWireIs, Yellow, false),
        (&[Red, Black, Red, Blue], ExactlyOne, Red, false),
        (&[Red, Black, Blue, Yellow], ExactlyOne, Black, true),
        (&[Red, Black, Yellow, Blue, Yellow], MoreThanOne, Yellow, true),
        (&[Red, Black, Yellow, Blue, Red], MoreThanOne, Yellow, false),
        (&[Red, Black, Yellow, Black], NotPresent, Yellow, false),
        (&[Red, Black, Blue, Black], NotPresent, Yellow, true),
    ];

    for &(colors, query_type, color, expected) in TESTS {
        let query = Query::Wire(WireQuery { query_type, color });
        let edgework = Edgework::from_str("0B 0H // KT4NE8").unwrap();
        assert_eq!(query.evaluate(&edgework, colors), expected);
    }
}

#[test]
fn edgework_query_evaluate() {
    const TESTS: &[(&str, EdgeworkQuery, bool)] = &[
        ("0B 0H // KT4NE8", SerialStartsWithLetter, true),
        ("0B 0H // 123AB4", SerialStartsWithLetter, false),
        ("0B 0H // KT4NE8", SerialOdd, false),
        ("0B 0H // KT4NE7", SerialOdd, true),
        ("0B 0H // [Empty] // KT4NE8", HasEmptyPortPlate, true),
        ("0B 0H // [Serial] [Empty] // KT4NE8", HasEmptyPortPlate, true),
        ("0B 0H // KT4NE8", HasEmptyPortPlate, false),
        ("0B 0H // [Serial] [RCA] // KT4NE8", HasEmptyPortPlate, false),
        ("0B 0H // [Serial] // KT4NE8", PortPresent(PortType::Serial), true),
        ("0B 0H // [Serial, Parallel] // KT4NE8", PortPresent(PortType::Serial), true),
        ("0B 0H // [Serial, Parallel] // KT4NE8", PortPresent(PortType::Parallel), true),
        ("0B 0H // [Parallel] [Empty] // KT4NE8", PortPresent(PortType::Serial), false),
        ("0B 0H // [Parallel] [Serial] // KT4NE8", PortPresent(PortType::Serial), true),
        ("0B 0H // [Serial] [Parallel] // KT4NE8", PortPresent(PortType::Serial), true),
        ("0B 0H // KT4NE8", PortPresent(PortType::Serial), false),
    ];

    for &(edgework, query, expected) in TESTS {
        let edgework = Edgework::from_str(edgework).unwrap();
        assert_eq!(query.evaluate(&edgework), expected);
    }
}

fn expected_for_42() -> RuleSet {
    RuleSet([
        rules_of(
            vec![
                (vec![wire(LastWireIs, Yellow), edgework(PortPresent(PortType::Serial))], Index(2)),
                (vec![wire(MoreThanOne, White), edgework(SerialStartsWithLetter)], Index(1)),
                (vec![wire(ExactlyOne, Red)], Index(0)),
                (vec![wire(NotPresent, Black)], Index(2)),
            ],
            Index(0),
        ),
        rules_of(
            vec![
                (vec![wire(MoreThanOne, Red), edgework(HasEmptyPortPlate)], Index(2)),
                (vec![wire(NotPresent, Yellow)], Index(0)),
                (vec![wire(LastWireIs, Yellow)], Index(1)),
                (vec![wire(MoreThanOne, Black)], FirstOfColor(Black)),
            ],
            Index(3),
        ),
        rules_of(
            vec![
                (vec![wire(MoreThanOne, Red), edgework(PortPresent(PortType::PS2))], Index(3)),
                (vec![wire(NotPresent, Black), edgework(SerialOdd)], Index(2)),
                (vec![wire(LastWireIs, Red)], Index(1)),
                (vec![wire(ExactlyOne, White)], TheOneOfColor(White)),
            ],
            Index(0),
        ),
        rules_of(
            vec![
                (vec![wire(ExactlyOne, Blue), edgework(PortPresent(PortType::Parallel))], Index(4)),
                (vec![wire(NotPresent, Blue)], Index(1)),
                (vec![wire(LastWireIs, Black)], Index(2)),
            ],
            Index(0),
        ),
    ])
}

#[test]
fn wires_generated_rules() {
    let rules = RuleSet::new(42);
    assert_eq!(rules, expected_for_42());
}

#[test]
fn tests_generated_rules() {
    let rules = RuleSet::new(42);
    let expected = expected_for_42();
    for wire_count in 3..=6 {
        assert_eq!(rules.get(wire_count), expected.get(wire_count));
        assert_eq!(rules.index(wire_count), expected.index(wire_count));
    }
    assert_eq!(rules.get(2), None);
    assert_eq!(rules.get(7), None);
}

#[test]
fn wires_vanilla_rules() {
    let rules = RuleSet::new(VANILLA_SEED);

    for &(edgework, colors, expected) in VANILLA_RULE_TESTS {
        let edgework = Edgework::from_str(edgework).unwrap();
        let solution = rules.evaluate(&edgework, colors).as_index(colors);
        assert_eq!(expected, solution);
    }
}

#[test]
fn tests_vanilla_rules() {
    let rules = RuleSet::vanilla();

    for &(edgework, colors, expected) in VANILLA_RULE_TESTS {
        let edgework = Edgework::from_str(edgework).unwrap();
        let solution = rules.index(colors.len()).evaluate(&edgework, colors);
        assert_eq!(expected, solution.as_index(colors));
        assert!(solution.check(colors, expected));
    }
}

#[test]
fn vanilla_rules_are_those_of_the_manual() {
    let expected = RuleSet([
        rules_of(
            vec![
                (vec![wire(NotPresent, Red)], Index(1)),
                (vec![wire(LastWireIs, White)], Index(2)),
                (vec![wire(MoreThanOne, Blue)], LastOfColor(Blue)),
            ],
            Index(2),
        ),
        rules_of(
            vec![
                (vec![wire(MoreThanOne, Red), edgework(SerialOdd)], LastOfColor(Red)),
                (vec![wire(LastWireIs, Yellow), wire(NotPresent, Red)], Index(0)),
                (vec![wire(ExactlyOne, Blue)], Index(0)),
                (vec![wire(MoreThanOne, Yellow)], Index(3)),
            ],
            Index(1),
        ),
        rules_of(
            vec![
                (vec![wire(LastWireIs, Black), edgework(SerialOdd)], Index(3)),
                (vec![wire(ExactlyOne, Red), wire(MoreThanOne, Yellow)], Index(0)),
                (vec![wire(NotPresent, Black)], Index(1)),
            ],
            Index(0),
        ),
        rules_of(
            vec![
                (vec![wire(NotPresent, Yellow), edgework(SerialOdd)], Index(2)),
                (vec![wire(ExactlyOne, Yellow), wire(MoreThanOne, White)], Index(3)),
                (vec![wire(NotPresent, Red)], Index(5)),
            ],
            Index(3),
        ),
    ]);
    assert_eq!(RuleSet::new(VANILLA_SEED), expected);
    assert_eq!(RuleSet::vanilla(), expected);
}

#[test]
fn generated_rules_hold_and_name_wires_that_are_there() {
    let all = [Black, Blue, Red, White, Yellow];
    let texts = [
        "0B 0H // KT4NE8",
        "0B 0H // [Empty] // 123AB7",
        "3B 2H // *FRK // [Serial, Parallel] [DVI, PS2, RJ45, StereoRCA] // AB1CD3",
    ];
    for seed in [0, 2, 3, 15, 42, 1000, 123456, MAX_VALUE] {
        let rules = RuleSet::new(seed);
        for wire_count in 3..=6usize {
            let list = rules.get(wire_count).unwrap();
            assert!(list.rules.len() == 3 || list.rules.len() == 4);
            let mut seen_simple = false;
            for i in 0..list.rules.len() {
                let rule = list.rules.get(i).unwrap();
                assert!(rule.is_valid());
                let queries = rule.queries.to_vec();
                assert!(queries.len() == 1 || queries.len() == 2);
                assert!(!queries.iter().all(|query| matches!(
                    query,
                    Query::Wire(WireQuery { query_type: LastWireIs, .. })
                )) || queries.len() == 1);
                if queries.len() == 1 {
                    seen_simple = true;
                } else {
                    assert!(!seen_simple);
                }
            }
            assert!(matches!(list.otherwise, Index(n) if (n as usize) < wire_count));
            let mut wires = vec![Black; wire_count];
            let combinations = 5usize.pow(wire_count as u32);
            for code in 0..combinations {
                let mut rest = code;
                for wire in wires.iter_mut() {
                    *wire = all[rest % 5];
                    rest /= 5;
                }
                for text in texts.iter() {
                    let edgework = Edgework::from_str(text).unwrap();
                    let solution = rules.evaluate(&edgework, &wires);
                    let index = solution.as_index(&wires);
                    assert!((index as usize) < wire_count);
                    assert!(solution.check(&wires, index));
                }
            }
        }
    }
}

#[test]
fn the_one_wire_of_a_color_may_be_one_of_several() {
    let rules = RuleSet::new(15);
    let six = rules.get(6).unwrap();
    let expected = rules_of(
        vec![
            (vec![wire(MoreThanOne, Blue), wire(ExactlyOne, Black)], TheOneOfColor(Blue)),
            (vec![wire(ExactlyOne, White), edgework(PortPresent(PortType::RJ45))], Index(0)),
            (vec![wire(LastWireIs, Yellow)], Index(2)),
            (vec![wire(NotPresent, White)], Index(5)),
        ],
        Index(4),
    );
    assert_eq!(six, &expected);
    let bomb = Edgework::from_str("0B 0H // KT4NE8").unwrap();
    let wires = [Red, Blue, Black, Blue, Red, Yellow];
    let solution = six.evaluate(&bomb, &wires);
    assert_eq!(solution, TheOneOfColor(Blue));
    assert_eq!(solution.as_index(&wires), 1);
    assert!(solution.check(&wires, 1));
    assert!(solution.check(&wires, 3));
    assert!(!solution.check(&wires, 0));
}

#[test]
fn copies_say_the_same() {
    let rules = RuleSet::new(42);
    let copy = rules.clone();
    assert_eq!(copy, rules);
    let list = rules.get(4).unwrap();
    assert_eq!(&list.clone(), list);
    assert_eq!(list.rules.clone(), list.rules);
    let rule = list.rules.get(0).unwrap();
    assert_eq!(&rule.clone(), rule);
    assert_eq!(rule.queries.clone(), rule.queries);
    assert_eq!(rule.queries.clone().to_vec(), rule.queries.to_vec());
}

#[test]
fn rule_lists_can_be_changed() {
    let mut rules = RuleSet::new(VANILLA_SEED);
    assert!(rules.get_mut(2).is_none());
    assert!(rules.get_mut(7).is_none());
    *rules.get_mut(5).unwrap() = rules_of(vec![(vec![wire(NotPresent, Red)], Index(4))], Index(0));
    let bomb = Edgework::from_str("0B 0H // KT4NE8").unwrap();
    assert_eq!(rules.evaluate(&bomb, &[Blue, Blue, Blue, Blue, Blue]), Index(4));
    assert_eq!(rules.evaluate(&bomb, &[Blue, Red, Blue, Blue, Blue]), Index(0));
    assert_eq!(rules.get(4), RuleSet::vanilla().get(4));
    assert_eq!(rules.get(6), RuleSet::vanilla().get(6));
}

#[test]
fn rules_hold_where_all_their_queries_do() {
    let rule = Rule::new(
        &[wire(LastWireIs, Red), edgework(SerialOdd)],
        Index(0),
    );
    let odd = Edgework::from_str("0B 0H // KT4NE7").unwrap();
    let even = Edgework::from_str("0B 0H // KT4NE8").unwrap();
    assert!(rule.evaluate(&odd, &[Blue, Red]));
    assert!(!rule.evaluate(&even, &[Blue, Red]));
    assert!(!rule.evaluate(&odd, &[Red, Blue]));
    assert!(rule.is_valid());
    assert!(!Rule::new(&[wire(LastWireIs, Red), wire(LastWireIs, Blue)], Index(0)).is_valid());
    assert!(Rule::new(&[wire(LastWireIs, Red)], Index(0)).is_valid());
    assert_eq!(rule.queries.len(), 2);
    assert_eq!(rule.queries.get(1), Some(edgework(SerialOdd)));
    assert_eq!(rule.queries.get(2), None);
    assert_eq!(wire(MoreThanOne, Red).wires_involved(), 2);
    assert_eq!(wire(NotPresent, Red).wires_involved(), 0);
    assert_eq!(wire(ExactlyOne, Red).wires_involved(), 1);
    assert_eq!(wire(LastWireIs, Red).wires_involved(), 1);
    assert_eq!(edgework(SerialOdd).wires_involved(), 0);
    assert_eq!(wire(LastWireIs, Red).solution_color(), Some(Red));
    assert_eq!(wire(NotPresent, Red).solution_color(), None);
    assert_eq!(edgework(SerialOdd).solution_color(), None);
}

#[test]
fn solution_names_the_wire_to_cut() {
    let wires = [Red, Blue, Red, Yellow, Blue];
    assert_eq!(Index(4).as_index(&wires), 4);
    assert_eq!(FirstOfColor(Blue).as_index(&wires), 1);
    assert_eq!(LastOfColor(Blue).as_index(&wires), 4);
    assert_eq!(TheOneOfColor(Yellow).as_index(&wires), 3);
    assert_eq!(TheOneOfColor(Red).as_index(&wires), 0);
    assert!(TheOneOfColor(Red).check(&wires, 0));
    assert!(TheOneOfColor(Red).check(&wires, 2));
    assert!(!TheOneOfColor(Red).check(&wires, 1));
    assert!(FirstOfColor(Red).check(&wires, 0));
    assert!(!FirstOfColor(Red).check(&wires, 2));
    assert!(LastOfColor(Red).check(&wires, 2));
    assert!(!LastOfColor(Red).check(&wires, 0));
    assert!(Index(3).check(&wires, 3));
    assert!(!Index(3).check(&wires, 2));
    assert!(!TheOneOfColor(Red).check(&[Blue, Blue, Blue], 1));
    assert!(TheOneOfColor(Red).check(&[Red, Blue, Red], 2));
    assert!(!FirstOfColor(Red).check(&[Red, Blue, Red], 2));
}

const VANILLA_RULE_TESTS: &[(&str, &[Color], u8)] = &[
        ("0B 0H // *SIG *BOB *CLR // [DVI, PS2, RJ45, StereoRCA] [Parallel] // GU4XA6",
         &[Red, Blue, Yellow], 2),
        ("0B 0H // *SIG *BOB *CLR // [DVI, PS2, RJ45, StereoRCA] [Parallel] // GU4XA6",
         &[White, Black, Yellow], 1),
        ("0B 0H // *SIG *BOB *CLR // [DVI, PS2, RJ45, StereoRCA] [Parallel] // GU4XA6",
         &[White, Red, Blue, Blue, Yellow], 1),
        ("0B 0H // *IND *MSA *NSA // [PS2, RJ45] [RJ45] // 9G2ZU9",
         &[Red, Red, White, Black, Black, Blue], 2),
        ("0B 0H // *IND *MSA *NSA // [PS2, RJ45] [RJ45] // 9G2ZU9",
         &[Yellow, Black, Red], 2),
        ("0B 0H // *IND *MSA *NSA // [PS2, RJ45] [RJ45] // 9G2ZU9",
         &[Blue, Black, White, White, Black, Blue], 2),
        ("3B 2H // FRK // [Parallel] [Parallel] // EC3WT3",
         &[White, Black, White], 1),
        ("3B 2H // FRK // [Parallel] [Parallel] // EC3WT3",
         &[Black, Yellow, Blue, Red, Black, Yellow], 3),
        ("3B 2H // FRK // [Parallel] [Parallel] // EC3WT3",
         &[White, Black, Red, Black, Blue, Black], 2),
        ("2B 2H // FRQ // [DVI, PS2, StereoRCA] [Serial] // LM8RR8",
         &[White, Black, Black], 1),
        ("5B 3H // [Serial] [Parallel] // G57WZ8",
         &[Blue, White, Black], 1),
        ("5B 3H // *SIG *BOB // LK8VF9",
         &[Black, Yellow, Yellow, Blue], 0),
        ("8B 4H // [Empty] // R23ED6",
         &[Red, White, Yellow, Red, Black], 0),
        ("1B 1H // TRN CAR // [Empty] [Parallel] // J00UG9",
         &[Yellow, Red, Blue, Black, Black, Yellow], 3),
        ("2B 1H // *SIG // [Serial, Parallel] [Empty] [DVI, StereoRCA] // RE3SE6",
         &[Blue, White, Blue], 1),
        ("0B 0H // *TRN *SND *FRQ *CLR // [Serial, Parallel] // 469AV3",
         &[Blue, Red, Blue], 2),
        ("3B 2H // CLR SND // [DVI, StereoRCA] // ME9PR9",
         &[Black, Yellow, Blue, Red, Black, White], 3),
        ("4B 3H // CLR TRN // RL3XC5",
         &[Blue, Black, White, Blue], 1),
        ("1B 1H // BOB *SIG // [Empty] [Parallel] // EH0II3",
         &[White, Red, White, Blue, Blue, Red], 2),
        ("2B 2H // *FRQ // [Serial, Parallel] [DVI, RJ45] // TS9FR8",
         &[Black, Blue, White], 1),
        ("1B 1H // NSA // [Serial] [Serial] [DVI, PS2] // 4A2SC5",
         &[White, Blue, Black, Red, Blue, White], 2),
        ("1B 1H // *BOB // [Serial, Parallel] [DVI, PS2, RJ45, StereoRCA] [Serial, Parallel] // DF3VJ8",
         &[Blue, Black, Red], 2),
        ("4B 2H // *CAR // [Parallel] [DVI, RJ45, StereoRCA] // VC2GK8",
         &[Blue, Red, Black, White, Black, White], 3),
        ("3B 2H // *FRK // [DVI, StereoRCA] [Parallel] // DC5LE2",
         &[Yellow, Yellow, White, Yellow, Black], 0),
        ("2B 2H // *IND *NSA // [DVI, PS2, RJ45, StereoRCA] // 394AG8",
         &[Black, Red, Red, Yellow, Yellow, Blue], 3),
        ("2B 1H // CAR SND IND // [Serial] // BX6RF2",
         &[Blue, Yellow, Black, Blue, Black], 0),
        ("1B 1H // FRK // [DVI] [Serial, Parallel] [DVI, PS2, RJ45, StereoRCA] // ZA3PU2",
         &[Blue, Blue, White, White, Yellow, Yellow], 5),
        ("6B 3H // [Serial, Parallel] [DVI, PS2, RJ45, StereoRCA] // 4W8ND9",
         &[Blue, Black, Black, Black], 0),
        ("3B 2H // *IND // [Serial] [DVI, PS2, RJ45] // 404BP2",
         &[Blue, Yellow, Yellow, Red, Black], 0),
        ("4B 2H // [RJ45, StereoRCA] [Parallel] [Serial, Parallel] // HQ9LP2",
         &[Black, Blue, White, Red, Black, White], 3),
        ("1B 1H // *SND *MSA *FRK // [DVI, StereoRCA] // RI1VB9",
         &[Red, Black, Black, Red], 3),
        ("2B 1H // *MSA // [Empty] [Parallel] [DVI, PS2, RJ45] // SJ6FF2",
         &[Blue, Yellow, Blue, Red, Black, White], 3),
        ("2B 1H // *BOB // [PS2] [Serial, Parallel] [DVI] // 5B3LP2",
         &[Red, Black, Red, Red, White, Red], 3),
        ("2B 1H // *NSA TRN MSA // [Empty] // Z76EN3",
         &[Blue, White, White, Black], 0),
        ("3B 2H // *SIG // [Serial] [DVI, RJ45, StereoRCA] // RE3XA5",
         &[Yellow, Black, White, Red, White, Red], 3),
        ("2B 1H // *BOB MSA // [PS2, StereoRCA] [Empty] // 1Z9PW1",
         &[Yellow, Black, White], 1),
        ("6B 3H // [Empty] [PS2] // J98ZX8",
         &[Yellow, Blue, Red], 2),
        ("5B 3H // *SIG // [Empty] // AE4CU1",
         &[White, Yellow, Yellow, Yellow, Red, Yellow], 3),
        ("0B 0H // *CAR // [DVI, PS2, RJ45] [PS2, StereoRCA] [RJ45] [Serial] // DP1CJ0",
         &[Black, Blue, White], 1),
        ("2B 2H // *SND *IND // [Parallel] // TN6JH5",
         &[Blue, Black, Red, Blue, White, Red], 2),
        ("1B 1H // *MSA *FRQ // [Empty] [PS2, RJ45] // JC6SV2",
         &[Red, Red, White, Blue], 0),
        ("0B 0H // *BOB *CAR SIG // [DVI, PS2, RJ45, StereoRCA] [Empty] // LU9IJ8",
         &[Red, Yellow, White, Red, Blue], 1),
        ("2B 1H // CLR *FRQ // [DVI] [RJ45] // T96EX7",
         &[Blue, Blue, Yellow, Yellow, Blue, White], 5),
        ("3B 2H // *MSA // [DVI, PS2, StereoRCA] [RJ45] // X31EK8",
         &[White, White, Red, Blue, Black, Blue], 3),
        ("3B 3H // [Serial] [Serial] // SH8XZ5",
         &[Red, Red, Yellow, Red, White], 1),
        ("2B 2H // [DVI, PS2, RJ45] [Serial, Parallel] [DVI, PS2, StereoRCA] // CB5CG7",
         &[White, Blue, Blue, Blue, Red, Blue], 2),
        ("7B 4H // [PS2] // UZ7JK9",
         &[White, White, Black, Black, Yellow, Red], 3),
        ("3B 2H // *FRQ *TRN // [DVI, RJ45, StereoRCA] // 170SB0",
         &[White, Yellow, Yellow], 1),
        ("1B 1H // *FRQ *CAR *MSA // [Serial, Parallel] // K90LT4",
         &[Yellow, Black, Black, Yellow, Yellow], 0),
        ("1B 1H // *FRQ *TRN // [DVI, StereoRCA] [Serial, Parallel] // 8C2NB2",
         &[Black, Blue, Blue, Blue, Blue, Red], 3),
        ("6B 4H // [DVI, RJ45] // PD2TE1",
         &[White, Black, Black, White, Blue], 0),
        ("5B 3H // [Parallel] [Serial, Parallel] // LS4HS0",
         &[White, Black, Blue, White, White, White], 5),
        ("2B 1H // CAR *IND FRQ // [PS2] // JJ5QE8",
         &[Yellow, Black, Red, Red, Blue, Black], 3),
        ("2B 2H // BOB // [Serial, Parallel] [PS2, StereoRCA] // BM0AT7",
         &[Blue, Red, Black, Black, Red, Blue], 2),
        ("1B 1H // CLR *TRN *SIG // [Serial, Parallel] // MP0CP0",
         &[Red, Red, Red, Yellow, Red, Yellow], 3),
        ("3B 3H // *MSA TRN // 3A2UI9",
         &[Yellow, Blue, Yellow, White, Blue, Red], 3),
        ("2B 2H // *MSA CAR *TRN // AF9FS2",
         &[Black, Yellow, White, Yellow, Red, White], 3),
        ("0B 0H // *FRK MSA // [DVI] [StereoRCA] [PS2, StereoRCA] // PH8MS8",
         &[Blue, Black, White, Blue, Black], 0),
        ("0B 0H // MSA *CAR // [DVI, StereoRCA] [PS2, RJ45, StereoRCA] [DVI, PS2, StereoRCA] // 285SX0",
         &[Red, Yellow, Red, Yellow, Yellow, Blue], 3),
    ];
