use ktane_utils::edgework::PortType;
use ktane_utils::modules::wires::query::{EdgeworkQuery, Query, WireQuery, WireQueryType};
use ktane_utils::modules::wires::solution::WireSolution::{
    FirstOfColor, Index, LastOfColor, TheOneOfColor,
};
use ktane_utils::modules::wires::solution::{Solution, WireSolution};
use ktane_utils::modules::wires::WireColor::{Black, Blue, Red, White, Yellow};
use ktane_utils::modules::wires::{Color, Rule, RuleList, RuleSet, WireColor};
use ktane_utils::random::VANILLA_SEED;

#[test]
fn display_wire_query() {
    for &(test, expected) in &[
        (
            Query::Edgework(EdgeworkQuery::SerialOdd),
            "the last digit of the serial number is odd",
        ),
        (
            Query::Wire(WireQuery {
                query_type: WireQueryType::ExactlyOne,
                color: WireColor::Yellow,
            }),
            "there is exactly one yellow wire",
        ),
    ] {
        assert_eq!(test.to_string(), expected);
    }
}

#[test]
fn display_wire_solution() {
    for &(test, expected) in &[
        (WireSolution::Index(3), "cut the 4th wire"),
        (WireSolution::Index(1), "cut the 2nd wire"),
        (WireSolution::TheOneOfColor(WireColor::Red), "cut the red wire"),
    ] {
        assert_eq!(test.to_string(), expected);
    }
}

#[test]
fn display_wire_color() {
    assert_eq!(WireColor::Black.to_string(), "black");
}

#[test]
fn wires_display_query() {
    for &(test, expected) in &[
        (
            Query::Edgework(EdgeworkQuery::SerialOdd),
            "the last digit of the serial number is odd",
        ),
        (
            Query::Wire(WireQuery {
                query_type: WireQueryType::ExactlyOne,
                color: Yellow,
            }),
            "there is exactly one yellow wire",
        ),
    ] {
        assert_eq!(test.to_string(), expected);
    }
}

#[test]
fn wires_display_solution() {
    for &(test, expected) in &[
        (Index(3), "cut the 4th wire"),
        (Index(1), "cut the 2nd wire"),
        (TheOneOfColor(Red), "cut the red wire"),
    ] {
        assert_eq!(test.to_string(), expected);
    }
}

#[test]
fn wires_display_color() {
    assert_eq!(Black.to_string(), "black");
}

#[test]
fn tests_display_query() {
    for &(test, expected) in &[
        (
            Query::Edgework(EdgeworkQuery::SerialOdd),
            "the last digit of the serial number is odd",
        ),
        (
            Query::Wire(WireQuery {
                query_type: WireQueryType::ExactlyOne,
                color: Yellow,
            }),
            "there is exactly one yellow wire",
        ),
    ] {
        assert_eq!(test.to_string(), expected);
    }
}

#[test]
fn tests_display_solution() {
    for &(test, expected) in &[
        (Index(3), "cut the 4th wire"),
        (Index(1), "cut the 2nd wire"),
        (TheOneOfColor(Red), "cut the red wire"),
    ] {
        assert_eq!(test.to_string(), expected);
    }
}

#[test]
fn tests_display_color() {
    assert_eq!(Black.to_string(), "black");
}

#[test]
fn every_color_has_its_name() {
    let names: Vec<String> = [Black, Blue, Red, White, Yellow]
        .iter()
        .map(|color: &Color| color.to_string())
        .collect();
    assert_eq!(names, ["black", "blue", "red", "white", "yellow"]);
    assert_eq!(Yellow.name(), "yellow");
}

#[test]
fn every_query_has_its_words() {
    let wire = |query_type, color| WireQuery { query_type, color };
    assert_eq!(
        wire(WireQueryType::ExactlyOne, Blue).to_string(),
        "there is exactly one blue wire"
    );
    assert_eq!(
        wire(WireQueryType::MoreThanOne, Red).to_string(),
        "there is more than one red wire"
    );
    assert_eq!(wire(WireQueryType::NotPresent, White).to_string(), "there are no white wires");
    assert_eq!(wire(WireQueryType::LastWireIs, Black).to_string(), "the last wire is black");
    assert_eq!(
        EdgeworkQuery::SerialStartsWithLetter.to_string(),
        "the serial number starts with a letter"
    );
    assert_eq!(
        EdgeworkQuery::HasEmptyPortPlate.to_string(),
        "there is an empty port plate present on the bomb"
    );
    for &(port, expected) in &[
        (PortType::DVI, "there is a DVI-D port present on the bomb"),
        (PortType::PS2, "there is a PS/2 port present on the bomb"),
        (PortType::RJ45, "there is an RJ-45 port present on the bomb"),
        (PortType::StereoRCA, "there is a Stereo RCA port present on the bomb"),
        (PortType::Parallel, "there is a parallel port present on the bomb"),
        (PortType::Serial, "there is a serial port present on the bomb"),
    ] {
        assert_eq!(EdgeworkQuery::PortPresent(port).to_string(), expected);
        assert_eq!(Query::Edgework(EdgeworkQuery::PortPresent(port)).to_string(), expected);
    }
}

#[test]
fn every_place_has_its_ordinal() {
    for &(index, expected) in &[
        (0, "cut the 1st wire"),
        (1, "cut the 2nd wire"),
        (2, "cut the 3rd wire"),
        (3, "cut the 4th wire"),
        (9, "cut the 10th wire"),
        (10, "cut the 11th wire"),
        (11, "cut the 12th wire"),
        (12, "cut the 13th wire"),
        (20, "cut the 21st wire"),
        (21, "cut the 22nd wire"),
        (22, "cut the 23rd wire"),
        (100, "cut the 101st wire"),
        (110, "cut the 111th wire"),
        (111, "cut the 112th wire"),
        (112, "cut the 113th wire"),
        (254, "cut the 255th wire"),
        (255, "cut the 256th wire"),
    ] {
        assert_eq!(Solution::Index(index).to_string(), expected);
    }
    assert_eq!(FirstOfColor(Blue).to_string(), "cut the first blue wire");
    assert_eq!(LastOfColor(White).to_string(), "cut the last white wire");
}

#[test]
fn rule_list_reads_like_the_manual() {
    let rules = RuleSet::new(VANILLA_SEED);
    assert_eq!(
        rules.get(3).unwrap().to_string(),
        "If there are no red wires, cut the 2nd wire.\n\
         Otherwise, if the last wire is white, cut the 3rd wire.\n\
         Otherwise, if there is more than one blue wire, cut the last blue wire.\n\
         Otherwise, cut the 3rd wire."
    );
    assert_eq!(
        rules.get(4).unwrap().to_string(),
        "If there is more than one red wire and the last digit of the serial number is odd, \
         cut the last red wire.\n\
         Otherwise, if the last wire is yellow and there are no red wires, cut the 1st wire.\n\
         Otherwise, if there is exactly one blue wire, cut the 1st wire.\n\
         Otherwise, if there is more than one yellow wire, cut the 4th wire.\n\
         Otherwise, cut the 2nd wire."
    );
    let lone = RuleList::new(Vec::new(), Index(0));
    assert_eq!(lone.to_string(), "Otherwise, cut the 1st wire.");
    let rule = Rule::new(
        &[Query::Edgework(EdgeworkQuery::SerialOdd)],
        TheOneOfColor(Red),
    );
    assert_eq!(
        rule.to_string(true),
        "If the last digit of the serial number is odd, cut the red wire.\n"
    );
    assert_eq!(
        rule.to_string(false),
        "Otherwise, if the last digit of the serial number is odd, cut the red wire.\n"
    );
}

#[test]
fn rule_set_reads_like_the_manual() {
    let text = RuleSet::new(42).to_string();
    assert_eq!(
        text,
        "3 wires:\n\
         If the last wire is yellow and there is a serial port present on the bomb, \
         cut the 3rd wire.\n\
         Otherwise, if there is more than one white wire and the serial number starts with a \
         letter, cut the 2nd wire.\n\
         Otherwise, if there is exactly one red wire, cut the 1st wire.\n\
         Otherwise, if there are no black wires, cut the 3rd wire.\n\
         Otherwise, cut the 1st wire.\n\n\
         4 wires:\n\
         If there is more than one red wire and there is an empty port plate present on the \
         bomb, cut the 3rd wire.\n\
         Otherwise, if there are no yellow wires, cut the 1st wire.\n\
         Otherwise, if the last wire is yellow, cut the 2nd wire.\n\
         Otherwise, if there is more than one black wire, cut the first black wire.\n\
         Otherwise, cut the 4th wire.\n\n\
         5 wires:\n\
         If there is more than one red wire and there is a PS/2 port present on the bomb, \
         cut the 4th wire.\n\
         Otherwise, if there are no black wires and the last digit of the serial number is \
         odd, cut the 3rd wire.\n\
         Otherwise, if the last wire is red, cut the 2nd wire.\n\
         Otherwise, if there is exactly one white wire, cut the white wire.\n\
         Otherwise, cut the 1st wire.\n\n\
         6 wires:\n\
         If there is exactly one blue wire and there is a parallel port present on the bomb, \
         cut the 5th wire.\n\
         Otherwise, if there are no blue wires, cut the 2nd wire.\n\
         Otherwise, if the last wire is black, cut the 3rd wire.\n\
         Otherwise, cut the 1st wire.\n\n"
    );
}
