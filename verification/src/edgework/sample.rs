//! Edgework that may be any: a serial number, and five widgets, each of
//! which is a battery holder, a port plate or an indicator.

use crate::chance::{
    draw_between, draw_bool, draw_ratio, lemma_shuffled, numbers_below, partial_shuffle,
};
use crate::edgework::text::digit_byte;
use crate::edgework::{
    is_serial, letter_byte, port_group, Edgework, EdgeworkModel, IndicatorCode, IndicatorState,
    Indicators, PortFlags, PortPlate, PortType, SerialNumber,
};
use rand::rngs::StdRng;
use vstd::prelude::*;
use vstd::string::{StrSliceExecFns, StringExecFns};
use vstd::utf8::{encode_utf8, is_ascii_chars, is_ascii_chars_encode_utf8};

verus! {

/// The number of indicators in `states` that are on the bomb.
pub open spec fn present(states: Seq<IndicatorState>) -> nat
    decreases states.len(),
{
    if states.len() == 0 {
        0
    } else {
        present(states.drop_last()) + if states.last() == IndicatorState::NotPresent {
            0nat
        } else {
            1nat
        }
    }
}

/// An indicator that is put on the bomb is one more.
pub proof fn lemma_present_update(states: Seq<IndicatorState>, i: int, state: IndicatorState)
    requires
        0 <= i < states.len(),
        states[i] == IndicatorState::NotPresent,
        state != IndicatorState::NotPresent,
    ensures
        present(states.update(i, state)) == present(states) + 1,
    decreases states.len(),
{
    let updated = states.update(i, state);
    if i == states.len() - 1 {
        assert(updated.drop_last() =~= states.drop_last());
    } else {
        assert(updated.drop_last() =~= states.drop_last().update(i, state));
        lemma_present_update(states.drop_last(), i, state);
    }
}

/// A bomb without indicators has none that is present.
pub proof fn lemma_present_none(n: nat)
    ensures
        present(Seq::new(n, |i: int| IndicatorState::NotPresent)) == 0,
    decreases n,
{
    if n > 0 {
        assert(Seq::new(n, |i: int| IndicatorState::NotPresent).drop_last() =~= Seq::new(
            (n - 1) as nat,
            |i: int| IndicatorState::NotPresent,
        ));
        lemma_present_none((n - 1) as nat);
    }
}

impl SerialNumber {
    /// The characters that a serial number is drawn from: the letters, then
    /// the digits. There is no `O` among the letters, which looks too much
    /// like a zero, and an `E` stands in its place; there is no `Y`, which
    /// some languages take for a vowel and some do not.
    pub const CHARSET: &'static str = "ABCDEFGHIJKLMNEPQRSTUVWXZ0123456789";

    /// Draws a serial number: a letter or digit, another, a digit, two
    /// letters and a digit.
    pub fn sample(rng: &mut StdRng) -> (serial: SerialNumber)
        ensures
            serial.wf(),
            exists|places: Seq<u32>| serial_places(places) && serial.text() == drawn_serial(places),
    {
        let mut places: Vec<u32> = Vec::new();
        places.push(draw_between(rng, 0, 35));
        places.push(draw_between(rng, 0, 35));
        places.push(draw_between(rng, 0, 10));
        places.push(draw_between(rng, 0, 25));
        places.push(draw_between(rng, 0, 25));
        places.push(draw_between(rng, 0, 10));
        let serial = Self::from_draws(places.as_slice());
        assert(serial_places(places@) && serial.text() == drawn_serial(places@));
        serial
    }

    /// The serial number that draws make. The first two say where in
    /// [`SerialNumber::CHARSET`] its first two characters stand; the third
    /// and the last say which digits its digits are; the fourth and fifth
    /// say where among the letters its letters stand.
    pub fn from_draws(places: &[u32]) -> (serial: SerialNumber)
        requires
            serial_places(places@),
        ensures
            serial.text() == drawn_serial(places@),
            serial.wf(),
    {
        let charset = Self::CHARSET;
        proof {
            reveal_strlit("ABCDEFGHIJKLMNEPQRSTUVWXZ0123456789");
            assert(is_ascii_chars(charset@));
            assert forall|i: int| 0 <= i < 25 implies letter_byte(#[trigger] charset@[i] as u8) by {}
            assert forall|i: int| 25 <= i < 35 implies digit_byte(#[trigger] charset@[i] as u8) by {}
        }
        let first: usize = places[0] as usize;
        let second: usize = places[1] as usize;
        let third: usize = places[2] as usize + 25;
        let fourth: usize = places[3] as usize;
        let fifth: usize = places[4] as usize;
        let sixth: usize = places[5] as usize + 25;
        let mut text = String::from_str(charset.substring_ascii(first, first + 1));
        text.append(charset.substring_ascii(second, second + 1));
        text.append(charset.substring_ascii(third, third + 1));
        text.append(charset.substring_ascii(fourth, fourth + 1));
        text.append(charset.substring_ascii(fifth, fifth + 1));
        text.append(charset.substring_ascii(sixth, sixth + 1));
        proof {
            assert(text@ =~= drawn_serial(places@));
            assert(is_ascii_chars(text@));
            is_ascii_chars_encode_utf8(text@);
            let bytes = encode_utf8(text@);
            assert(bytes[0] == charset@[first as int] as u8);
            assert(bytes[1] == charset@[second as int] as u8);
            assert(bytes[2] == charset@[third as int] as u8);
            assert(bytes[3] == charset@[fourth as int] as u8);
            assert(bytes[4] == charset@[fifth as int] as u8);
            assert(bytes[5] == charset@[sixth as int] as u8);
            assert(is_serial(bytes));
        }
        SerialNumber { text }
    }
}

/// Whether `places` are the six draws that make a serial number: two places
/// among all 35 characters, a digit, two places among the 25 letters, and a
/// digit.
pub open spec fn serial_places(places: Seq<u32>) -> bool {
    &&& places.len() == 6
    &&& places[0] < 35
    &&& places[1] < 35
    &&& places[2] < 10
    &&& places[3] < 25
    &&& places[4] < 25
    &&& places[5] < 10
}

/// The text of the serial number that the draws `places` make.
pub open spec fn drawn_serial(places: Seq<u32>) -> Seq<char> {
    let charset = SerialNumber::CHARSET@;
    seq![
        charset[places[0] as int],
        charset[places[1] as int],
        charset[25 + places[2]],
        charset[places[3] as int],
        charset[places[4] as int],
        charset[25 + places[5]],
    ]
}

impl PortPlate {
    /// Draws a port plate: one of the two groups of ports, and of each port
    /// of the group whether it is on the plate.
    pub fn sample(rng: &mut StdRng) -> (plate: PortPlate)
        ensures
            plate.wf(),
            exists|group: u32, choices: Seq<bool>|
                group < 2 && choices.len() == group_size(group) && plate.ports() == drawn_ports(
                    group,
                    choices,
                ),
    {
        let group: u32 = draw_between(rng, 0, 2);
        let size: usize = if group == 0 {
            2
        } else {
            4
        };
        let mut choices: Vec<bool> = Vec::new();
        while choices.len() < size
            invariant
                choices@.len() <= size,
            decreases size - choices@.len(),
        {
            let choice = draw_bool(rng);
            choices.push(choice);
        }
        Self::from_draws(group, choices.as_slice())
    }

    /// The port plate that draws make: `group` says which group its ports
    /// come from, the first where it is zero, and each of `choices` whether
    /// a port of that group is on the plate, in the order parallel, serial
    /// or DVI-D, PS/2, RJ-45, Stereo RCA.
    pub fn from_draws(group: u32, choices: &[bool]) -> (plate: PortPlate)
        requires
            choices@.len() >= group_size(group),
        ensures
            plate.ports() == drawn_ports(group, choices@),
            plate.wf(),
    {
        let mut ports = PortFlags::empty();
        if group == 0 {
            if choices[0] {
                ports = ports.with(PortType::Parallel);
            }
            if choices[1] {
                ports = ports.with(PortType::Serial);
            }
            assert(ports.within(port_group(0)));
        } else {
            if choices[0] {
                ports = ports.with(PortType::DVI);
            }
            if choices[1] {
                ports = ports.with(PortType::PS2);
            }
            if choices[2] {
                ports = ports.with(PortType::RJ45);
            }
            if choices[3] {
                ports = ports.with(PortType::StereoRCA);
            }
            assert(ports.within(port_group(1)));
        }
        PortPlate::new(ports).unwrap()
    }
}

/// The number of ports in a group: two in the first, four in the other.
pub open spec fn group_size(group: u32) -> nat {
    if group == 0 {
        2
    } else {
        4
    }
}

/// The ports that draws put on a plate: those ports of the group for which
/// the choice in their place is set.
pub open spec fn drawn_ports(group: u32, choices: Seq<bool>) -> PortFlags {
    if group == 0 {
        PortFlags {
            dvi: false,
            ps2: false,
            rj45: false,
            stereo_rca: false,
            parallel: choices[0],
            serial: choices[1],
        }
    } else {
        PortFlags {
            dvi: choices[0],
            ps2: choices[1],
            rj45: choices[2],
            stereo_rca: choices[3],
            parallel: false,
            serial: false,
        }
    }
}

impl Edgework {
    /// The number of widgets: battery holders, port plates and indicators.
    pub open spec fn widgets(self) -> nat {
        self@.aa_battery_pairs + self@.dcell_batteries + self@.plates.len() + present(
            self@.indicators,
        )
    }

    /// Draws the edgework of a bomb: a serial number and five widgets. Each
    /// widget is a battery holder, with a D battery or a pair of AA
    /// batteries, a port plate, or an indicator, which is lit three times in
    /// five. No two indicators have the same label.
    pub fn sample(rng: &mut StdRng) -> (edgework: Edgework)
        ensures
            edgework.wf(),
            edgework.widgets() == 5,
            exists|labels: Seq<u8>, widgets: Seq<Widget>|
                widgets.len() == 5 && labels.to_multiset() == Seq::new(11, |i: int| i as u8).to_multiset()
                    && edgework@ == drawn_edgework(
                    edgework.serial_number.bytes(),
                    labels,
                    widgets,
                ),
    {
        let serial_number = SerialNumber::sample(rng);
        let mut labels = numbers_below(11);
        let ghost unshuffled = labels@;
        partial_shuffle(rng, &mut labels, 5);
        proof {
            lemma_shuffled(unshuffled, labels@);
            assert forall|k: int| 0 <= k < 11 implies (#[trigger] labels@[k]) < 11 by {
                let at = choose|at: int| 0 <= at < 11 && unshuffled[at] == labels@[k];
                assert(unshuffled[at] == at);
            }
        }
        let mut widgets: Vec<Widget> = Vec::new();
        while widgets.len() < 5
            invariant
                widgets@.len() <= 5,
                forall|k: int|
                    0 <= k < widgets@.len() ==> (#[trigger] widgets@[k] matches Widget::Plate(
                        plate,
                    ) ==> plate.wf()),
            decreases 5 - widgets@.len(),
        {
            let kind: u32 = draw_between(rng, 0, 3);
            let widget = if kind == 0 {
                if draw_bool(rng) {
                    Widget::DCell
                } else {
                    Widget::AaPair
                }
            } else if kind == 1 {
                Widget::Plate(PortPlate::sample(rng))
            } else {
                Widget::Indicator(draw_ratio(rng, 3, 5))
            };
            widgets.push(widget);
        }
        let edgework = Self::from_draws(serial_number, labels.as_slice(), widgets.as_slice());
        assert(widgets@.len() == 5 && labels@.to_multiset() == Seq::new(
            11,
            |i: int| i as u8,
        ).to_multiset() && edgework@ == drawn_edgework(
            edgework.serial_number.bytes(),
            labels@,
            widgets@,
        ));
        edgework
    }

    /// The edgework that draws make: the serial number, and the widgets in
    /// the order in which they were drawn. The first indicator gets the
    /// label in place 6 of `labels`, the next the one after it, and so on.
    pub fn from_draws(serial_number: SerialNumber, labels: &[u8], widgets: &[Widget]) -> (edgework:
        Edgework)
        requires
            serial_number.wf(),
            labels@.len() == 11,
            labels@.no_duplicates(),
            forall|i: int| 0 <= i < 11 ==> labels@[i] < 11,
            widgets@.len() == 5,
            forall|k: int|
                0 <= k < widgets@.len() ==> (#[trigger] widgets@[k] matches Widget::Plate(plate)
                    ==> plate.wf()),
        ensures
            edgework.serial_number == serial_number,
            edgework@ == drawn_edgework(serial_number.bytes(), labels@, widgets@),
            edgework.wf(),
            edgework.widgets() == 5,
    {
        let mut dcell_batteries: u32 = 0;
        let mut aa_battery_pairs: u32 = 0;
        let mut port_plates: Vec<PortPlate> = Vec::new();
        let mut indicators = Indicators::new();
        let mut next: usize = 6;
        let mut trial: usize = 0;
        proof {
            lemma_present_none(11);
            assert(plates_of(port_plates@) =~= Seq::<PortFlags>::empty());
        }
        while trial < 5
            invariant
                trial <= 5,
                6 <= next <= 6 + trial,
                labels@.len() == 11,
                labels@.no_duplicates(),
                forall|k: int| 0 <= k < 11 ==> (#[trigger] labels@[k]) < 11,
                widgets@.len() == 5,
                forall|k: int|
                    0 <= k < widgets@.len() ==> (#[trigger] widgets@[k] matches Widget::Plate(
                        plate,
                    ) ==> plate.wf()),
                indicators@.len() == 11,
                forall|k: int|
                    next <= k < 11 ==> indicators@[(#[trigger] labels@[k]) as int]
                        == IndicatorState::NotPresent,
                forall|k: int| 0 <= k < port_plates@.len() ==> port_plates@[k].wf(),
                aa_battery_pairs + dcell_batteries + port_plates@.len() + present(indicators@)
                    == trial,
                after_widgets(labels@, widgets@, trial as int) == (Drawn {
                    plates: plates_of(port_plates@),
                    indicators: indicators@,
                    aa_battery_pairs: aa_battery_pairs as nat,
                    dcell_batteries: dcell_batteries as nat,
                    labels_used: next - 6,
                }),
            decreases 5 - trial,
        {
            match widgets[trial] {
                Widget::DCell => {
                    dcell_batteries = dcell_batteries + 1;
                },
                Widget::AaPair => {
                    aa_battery_pairs = aa_battery_pairs + 1;
                },
                Widget::Plate(plate) => {
                    let ghost before = port_plates@;
                    port_plates.push(plate);
                    assert(plates_of(port_plates@) =~= plates_of(before).push(plate.ports()));
                },
                Widget::Indicator(lit) => {
                    let label: usize = labels[next] as usize;
                    let state = if lit {
                        IndicatorState::Lit
                    } else {
                        IndicatorState::Unlit
                    };
                    let code = IndicatorCode::from_index(label).unwrap();
                    proof {
                        lemma_present_update(indicators@, label as int, state);
                    }
                    indicators.set(code, state);
                    next = next + 1;
                },
            }
            trial = trial + 1;
        }
        let edgework = Edgework {
            serial_number,
            port_plates,
            indicators,
            aa_battery_pairs,
            dcell_batteries,
        };
        assert(edgework@.plates =~= plates_of(edgework.port_plates@));
        edgework
    }
}

/// A widget as it is drawn: a holder with a D battery, a holder with a pair
/// of AA batteries, a port plate, or an indicator that is lit or not and has
/// no label yet.
#[derive(Debug, Copy, Clone, PartialEq, Eq)]
pub enum Widget {
    DCell,
    AaPair,
    Plate(PortPlate),
    Indicator(bool),
}

/// The widgets of a bomb while they are put on it, and the number of labels
/// that its indicators have taken.
pub struct Drawn {
    pub plates: Seq<PortFlags>,
    pub indicators: Seq<IndicatorState>,
    pub aa_battery_pairs: nat,
    pub dcell_batteries: nat,
    pub labels_used: int,
}

/// The ports of each of `plates`.
pub open spec fn plates_of(plates: Seq<PortPlate>) -> Seq<PortFlags> {
    Seq::new(plates.len(), |i: int| plates[i].ports())
}

/// The bomb after the first `n` of `widgets` have been put on it. A battery
/// holder adds its battery or pair, a port plate comes after the plates that
/// are there, and an indicator takes the next label of `labels` from place 6
/// on.
pub open spec fn after_widgets(labels: Seq<u8>, widgets: Seq<Widget>, n: int) -> Drawn
    decreases n,
{
    if n <= 0 {
        Drawn {
            plates: Seq::empty(),
            indicators: Seq::new(11, |i: int| IndicatorState::NotPresent),
            aa_battery_pairs: 0,
            dcell_batteries: 0,
            labels_used: 0,
        }
    } else {
        let before = after_widgets(labels, widgets, n - 1);
        match widgets[n - 1] {
            Widget::DCell => Drawn { dcell_batteries: before.dcell_batteries + 1, ..before },
            Widget::AaPair => Drawn { aa_battery_pairs: before.aa_battery_pairs + 1, ..before },
            Widget::Plate(plate) => Drawn { plates: before.plates.push(plate.ports()), ..before },
            Widget::Indicator(lit) => Drawn {
                indicators: before.indicators.update(
                    labels[6 + before.labels_used] as int,
                    if lit {
                        IndicatorState::Lit
                    } else {
                        IndicatorState::Unlit
                    },
                ),
                labels_used: before.labels_used + 1,
                ..before
            },
        }
    }
}

/// The edgework with the serial number `serial` and the widgets `widgets`,
/// whose indicators take their labels from `labels`.
pub open spec fn drawn_edgework(serial: Seq<u8>, labels: Seq<u8>, widgets: Seq<Widget>)
    -> EdgeworkModel {
    let drawn = after_widgets(labels, widgets, widgets.len() as int);
    EdgeworkModel {
        serial,
        plates: drawn.plates,
        indicators: drawn.indicators,
        aa_battery_pairs: drawn.aa_battery_pairs,
        dcell_batteries: drawn.dcell_batteries,
    }
}

} // verus!
