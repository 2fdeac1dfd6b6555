//! Reading the edgework of a bomb from its text form,
//! `<batteries>B <holders>H // <widgets> // <serial number>`.
//!
//! The widgets are sections with ` // ` between them, and are left out
//! together with their separator where there are none. A section in square
//! brackets lists port plates, `[Serial] [DVI, RJ45] [Empty]`; any other
//! lists indicators, `*FRK CAR`, where a star marks a lit one.

use crate::edgework::text::{
    bytes_of, copy_range, decimal_value, digit_byte, digits_end, matches_at, occurs_at,
    read_decimal, same_bytes, scan_digits, split, split_bytes, views,
};
use crate::edgework::{
    is_serial, no_ports, Edgework, EdgeworkModel, EdgeworkParseError, IndicatorCode,
    IndicatorState, Indicators, PortFlags, PortPlate, PortType, SerialNumber,
};
use vstd::prelude::*;
use vstd::utf8::{
    encode_utf8, encode_utf8_valid_utf8, is_char_boundary_iff_not_is_continuation_byte,
};

verus! {

/// The port that `token` names.
pub open spec fn port_named(token: Seq<u8>) -> Option<PortType> {
    if token == bytes_of("DVI-D") || token == bytes_of("DVI") {
        Some(PortType::DVI)
    } else if token == bytes_of("PS/2") || token == bytes_of("PS2") {
        Some(PortType::PS2)
    } else if token == bytes_of("RJ-45") || token == bytes_of("RJ45") || token == bytes_of("RJ") {
        Some(PortType::RJ45)
    } else if token == bytes_of("Stereo RCA") || token == bytes_of("StereoRCA") || token
        == bytes_of("RCA") {
        Some(PortType::StereoRCA)
    } else if token == bytes_of("parallel") || token == bytes_of("Parallel") {
        Some(PortType::Parallel)
    } else if token == bytes_of("serial") || token == bytes_of("Serial") {
        Some(PortType::Serial)
    } else {
        None
    }
}

/// The indicator label that `token` spells.
pub open spec fn indicator_named(token: Seq<u8>) -> Option<IndicatorCode> {
    if token == bytes_of("SND") {
        Some(IndicatorCode::SND)
    } else if token == bytes_of("CLR") {
        Some(IndicatorCode::CLR)
    } else if token == bytes_of("CAR") {
        Some(IndicatorCode::CAR)
    } else if token == bytes_of("IND") {
        Some(IndicatorCode::IND)
    } else if token == bytes_of("FRQ") {
        Some(IndicatorCode::FRQ)
    } else if token == bytes_of("SIG") {
        Some(IndicatorCode::SIG)
    } else if token == bytes_of("NSA") {
        Some(IndicatorCode::NSA)
    } else if token == bytes_of("MSA") {
        Some(IndicatorCode::MSA)
    } else if token == bytes_of("TRN") {
        Some(IndicatorCode::TRN)
    } else if token == bytes_of("BOB") {
        Some(IndicatorCode::BOB)
    } else if token == bytes_of("FRK") {
        Some(IndicatorCode::FRK)
    } else {
        None
    }
}

/// The ports that the tokens from the `i`th on name, added to `found`; none
/// where a token names no port.
pub open spec fn ports_from(tokens: Seq<Seq<u8>>, i: int, found: PortFlags) -> Option<PortFlags>
    decreases tokens.len() - i,
{
    if i < 0 || i >= tokens.len() {
        Some(found)
    } else {
        match port_named(tokens[i]) {
            None => None,
            Some(port) => ports_from(tokens, i + 1, found.added(port)),
        }
    }
}

/// The ports of the plate that `text`, the text between two brackets,
/// describes.
pub open spec fn plate_written(text: Seq<u8>) -> Result<PortFlags, EdgeworkParseError> {
    if text == bytes_of("Empty") {
        Ok(no_ports())
    } else {
        match ports_from(split(text, bytes_of(", ")), 0, no_ports()) {
            None => Err(EdgeworkParseError::NotAPort),
            Some(ports) => if ports.fits_one_group() {
                Ok(ports)
            } else {
                Err(EdgeworkParseError::ImpossiblePortPlate)
            },
        }
    }
}

/// The plates that the texts from the `i`th on describe, after `found`; the
/// error of the first text that describes none.
pub open spec fn plates_from(texts: Seq<Seq<u8>>, i: int, found: Seq<PortFlags>) -> Result<
    Seq<PortFlags>,
    EdgeworkParseError,
>
    decreases texts.len() - i,
{
    if i < 0 || i >= texts.len() {
        Ok(found)
    } else {
        match plate_written(texts[i]) {
            Err(error) => Err(error),
            Ok(ports) => plates_from(texts, i + 1, found.push(ports)),
        }
    }
}

/// The label and the state of the indicator that `token` describes: a star
/// before the label says that it is lit.
pub open spec fn indicator_written(token: Seq<u8>) -> Option<(IndicatorCode, IndicatorState)> {
    if token.len() > 0 && token[0] == 0x2A {
        match indicator_named(token.subrange(1, token.len() as int)) {
            None => None,
            Some(code) => Some((code, IndicatorState::Lit)),
        }
    } else {
        match indicator_named(token) {
            None => None,
            Some(code) => Some((code, IndicatorState::Unlit)),
        }
    }
}

/// The states of the indicators after those that the tokens from the `i`th
/// on describe have been set in `states`; none where a token describes no
/// indicator.
pub open spec fn indicators_from(
    tokens: Seq<Seq<u8>>,
    i: int,
    states: Seq<IndicatorState>,
) -> Option<Seq<IndicatorState>>
    decreases tokens.len() - i,
{
    if i < 0 || i >= tokens.len() {
        Some(states)
    } else {
        match indicator_written(tokens[i]) {
            None => None,
            Some((code, state)) => indicators_from(
                tokens,
                i + 1,
                states.update(code.index(), state),
            ),
        }
    }
}

/// The port plates and the indicators of a bomb.
pub struct Widgets {
    pub plates: Seq<PortFlags>,
    pub indicators: Seq<IndicatorState>,
}

/// Whether a section lists port plates: it starts and ends with a bracket.
pub open spec fn lists_plates(section: Seq<u8>) -> bool {
    section.len() >= 2 && section[0] == 0x5B && section[section.len() - 1] == 0x5D
}

/// The widgets after those of `section` have been added to `found`.
pub open spec fn section_written(section: Seq<u8>, found: Widgets) -> Result<
    Widgets,
    EdgeworkParseError,
> {
    if lists_plates(section) {
        let texts = split(section.subrange(1, section.len() - 1), bytes_of("] ["));
        match plates_from(texts, 0, found.plates) {
            Err(error) => Err(error),
            Ok(plates) => Ok(Widgets { plates, indicators: found.indicators }),
        }
    } else {
        match indicators_from(split(section, bytes_of(" ")), 0, found.indicators) {
            None => Err(EdgeworkParseError::NotAnIndicator),
            Some(indicators) => Ok(Widgets { plates: found.plates, indicators }),
        }
    }
}

/// The widgets after those of the sections from the `i`th on have been
/// added to `found`; the error of the first section that has one.
pub open spec fn sections_from(sections: Seq<Seq<u8>>, i: int, found: Widgets) -> Result<
    Widgets,
    EdgeworkParseError,
>
    decreases sections.len() - i,
{
    if i < 0 || i >= sections.len() {
        Ok(found)
    } else {
        match section_written(sections[i], found) {
            Err(error) => Err(error),
            Ok(widgets) => sections_from(sections, i + 1, widgets),
        }
    }
}

/// A bomb without port plates and without indicators.
pub open spec fn no_widgets() -> Widgets {
    Widgets { plates: Seq::empty(), indicators: Seq::new(11, |i: int| IndicatorState::NotPresent) }
}

/// The widgets that `middle`, the text between the holders and the serial
/// number, describes.
pub open spec fn widgets_written(middle: Seq<u8>) -> Result<Widgets, EdgeworkParseError> {
    sections_from(split(middle, bytes_of(" // ")), 0, no_widgets())
}

/// Whether `bytes` are six capital letters or digits.
pub open spec fn serial_shaped(bytes: Seq<u8>) -> bool {
    &&& bytes.len() == 6
    &&& forall|i: int| 0 <= i < 6 ==> digit_byte(#[trigger] bytes[i]) || 0x41 <= bytes[i] <= 0x5A
}

/// Whether there is no line feed in `bytes`.
pub open spec fn one_line(bytes: Seq<u8>) -> bool {
    forall|i: int| 0 <= i < bytes.len() ==> #[trigger] bytes[i] != 0x0A
}

/// The parts of an edgework description.
pub struct Frame {
    pub batteries: Seq<u8>,
    pub holders: Seq<u8>,
    pub middle: Option<Seq<u8>>,
    pub serial: Seq<u8>,
}

/// The parts of `s`, where it has the form of an edgework description:
/// digits, `B `, digits, `H // `, then either six capital letters or digits,
/// or one line of anything, ` // ` and six capital letters or digits.
pub open spec fn frame(s: Seq<u8>) -> Option<Frame> {
    let b_end = digits_end(s, 0);
    let h_start = b_end + bytes_of("B ").len();
    let h_end = digits_end(s, h_start);
    let rest = h_end + bytes_of("H // ").len();
    let tail = s.len() - 6;
    let middle_end = tail - bytes_of(" // ").len();
    if b_end > 0 && occurs_at(s, bytes_of("B "), b_end) && h_end > h_start && occurs_at(
        s,
        bytes_of("H // "),
        h_end,
    ) && rest <= tail && serial_shaped(s.subrange(tail, s.len() as int)) {
        if rest == tail {
            Some(
                Frame {
                    batteries: s.subrange(0, b_end),
                    holders: s.subrange(h_start, h_end),
                    middle: None,
                    serial: s.subrange(tail, s.len() as int),
                },
            )
        } else if rest <= middle_end && occurs_at(s, bytes_of(" // "), middle_end) && one_line(
            s.subrange(rest, middle_end),
        ) {
            Some(
                Frame {
                    batteries: s.subrange(0, b_end),
                    holders: s.subrange(h_start, h_end),
                    middle: Some(s.subrange(rest, middle_end)),
                    serial: s.subrange(tail, s.len() as int),
                },
            )
        } else {
            None
        }
    } else {
        None
    }
}

/// The pairs of AA batteries and the D batteries of a bomb with `batteries`
/// batteries in `holders` holders, where a holder takes one D battery or two
/// AA batteries; none where the numbers do not go together, or do not fit 32
/// bits.
pub open spec fn batteries_held(batteries: nat, holders: nat) -> Option<(nat, nat)> {
    if batteries > u32::MAX || holders > u32::MAX || batteries < holders || batteries > 2
        * holders {
        None
    } else {
        Some(((batteries - holders) as nat, (2 * holders - batteries) as nat))
    }
}

/// The edgework that `s` describes, or what is wrong with `s`. Of several
/// faults the form comes first, then the batteries, the serial number, and
/// the widgets from left to right.
pub open spec fn edgework_written(s: Seq<u8>) -> Result<EdgeworkModel, EdgeworkParseError> {
    match frame(s) {
        None => Err(EdgeworkParseError::FormatError),
        Some(parts) => match batteries_held(
            decimal_value(parts.batteries),
            decimal_value(parts.holders),
        ) {
            None => Err(EdgeworkParseError::ImpossibleBatteries),
            Some((pairs, dcells)) => if !is_serial(parts.serial) {
                Err(EdgeworkParseError::MalformedSerial)
            } else {
                let written = match parts.middle {
                    None => Ok(no_widgets()),
                    Some(middle) => widgets_written(middle),
                };
                match written {
                    Err(error) => Err(error),
                    Ok(widgets) => Ok(
                        EdgeworkModel {
                            serial: parts.serial,
                            plates: widgets.plates,
                            indicators: widgets.indicators,
                            aa_battery_pairs: pairs,
                            dcell_batteries: dcells,
                        },
                    ),
                }
            },
        },
    }
}

/// The ports of each of `plates`.
pub open spec fn ports_of(plates: Seq<PortPlate>) -> Seq<PortFlags> {
    Seq::new(plates.len(), |i: int| plates[i].ports())
}

impl PortType {
    /// The port that `name` names, under any of its names.
    pub fn from_name(name: &[u8]) -> (port: Option<PortType>)
        ensures
            port == port_named(name@),
    {
        if same_bytes(name, "DVI-D".as_bytes()) || same_bytes(name, "DVI".as_bytes()) {
            Some(PortType::DVI)
        } else if same_bytes(name, "PS/2".as_bytes()) || same_bytes(name, "PS2".as_bytes()) {
            Some(PortType::PS2)
        } else if same_bytes(name, "RJ-45".as_bytes()) || same_bytes(name, "RJ45".as_bytes())
            || same_bytes(name, "RJ".as_bytes()) {
            Some(PortType::RJ45)
        } else if same_bytes(name, "Stereo RCA".as_bytes()) || same_bytes(
            name,
            "StereoRCA".as_bytes(),
        ) || same_bytes(name, "RCA".as_bytes()) {
            Some(PortType::StereoRCA)
        } else if same_bytes(name, "parallel".as_bytes()) || same_bytes(
            name,
            "Parallel".as_bytes(),
        ) {
            Some(PortType::Parallel)
        } else if same_bytes(name, "serial".as_bytes()) || same_bytes(name, "Serial".as_bytes()) {
            Some(PortType::Serial)
        } else {
            None
        }
    }
}

impl IndicatorCode {
    /// The label that `name` spells.
    pub fn from_name(name: &[u8]) -> (code: Option<IndicatorCode>)
        ensures
            code == indicator_named(name@),
    {
        if same_bytes(name, "SND".as_bytes()) {
            Some(IndicatorCode::SND)
        } else if same_bytes(name, "CLR".as_bytes()) {
            Some(IndicatorCode::CLR)
        } else if same_bytes(name, "CAR".as_bytes()) {
            Some(IndicatorCode::CAR)
        } else if same_bytes(name, "IND".as_bytes()) {
            Some(IndicatorCode::IND)
        } else if same_bytes(name, "FRQ".as_bytes()) {
            Some(IndicatorCode::FRQ)
        } else if same_bytes(name, "SIG".as_bytes()) {
            Some(IndicatorCode::SIG)
        } else if same_bytes(name, "NSA".as_bytes()) {
            Some(IndicatorCode::NSA)
        } else if same_bytes(name, "MSA".as_bytes()) {
            Some(IndicatorCode::MSA)
        } else if same_bytes(name, "TRN".as_bytes()) {
            Some(IndicatorCode::TRN)
        } else if same_bytes(name, "BOB".as_bytes()) {
            Some(IndicatorCode::BOB)
        } else if same_bytes(name, "FRK".as_bytes()) {
            Some(IndicatorCode::FRK)
        } else {
            None
        }
    }
}

/// Reads the plate that the text between two brackets describes.
#[verifier::loop_isolation(false)]
fn read_plate(text: &[u8]) -> (r: Result<PortPlate, EdgeworkParseError>)
    ensures
        match r {
            Ok(plate) => plate_written(text@) == Ok::<PortFlags, EdgeworkParseError>(
                plate.ports(),
            ) && plate.wf(),
            Err(error) => plate_written(text@) == Err::<PortFlags, EdgeworkParseError>(error),
        },
{
    if same_bytes(text, "Empty".as_bytes()) {
        return Ok(PortPlate::empty());
    }
    let tokens = split_bytes(text, ", ".as_bytes());
    let mut ports = PortFlags::empty();
    let mut i: usize = 0;
    while i < tokens.len()
        invariant
            i <= tokens@.len(),
            ports_from(views(tokens@), i as int, ports) == ports_from(
                views(tokens@),
                0,
                no_ports(),
            ),
        decreases tokens.len() - i,
    {
        assert(views(tokens@)[i as int] == tokens@[i as int]@);
        match PortType::from_name(tokens[i].as_slice()) {
            None => {
                assert(ports_from(views(tokens@), i as int, ports) is None);
                return Err(EdgeworkParseError::NotAPort);
            },
            Some(port) => {
                ports = ports.with(port);
            },
        }
        i = i + 1;
    }
    match PortPlate::new(ports) {
        None => Err(EdgeworkParseError::ImpossiblePortPlate),
        Some(plate) => Ok(plate),
    }
}

/// Reads the plates of a section, without its outer brackets, and puts them
/// after `plates`.
#[verifier::loop_isolation(false)]
fn read_plates(inner: &[u8], plates: &mut Vec<PortPlate>) -> (r: Result<(), EdgeworkParseError>)
    requires
        forall|k: int| 0 <= k < old(plates)@.len() ==> old(plates)@[k].wf(),
    ensures
        match r {
            Ok(()) => plates_from(split(inner@, bytes_of("] [")), 0, ports_of(old(plates)@))
                == Ok::<Seq<PortFlags>, EdgeworkParseError>(ports_of(final(plates)@)),
            Err(error) => plates_from(split(inner@, bytes_of("] [")), 0, ports_of(old(plates)@))
                == Err::<Seq<PortFlags>, EdgeworkParseError>(error),
        },
        forall|k: int| 0 <= k < final(plates)@.len() ==> final(plates)@[k].wf(),
{
    let texts = split_bytes(inner, "] [".as_bytes());
    let mut i: usize = 0;
    while i < texts.len()
        invariant
            i <= texts@.len(),
            forall|k: int| 0 <= k < plates@.len() ==> plates@[k].wf(),
            plates_from(views(texts@), i as int, ports_of(plates@)) == plates_from(
                views(texts@),
                0,
                ports_of(old(plates)@),
            ),
        decreases texts.len() - i,
    {
        assert(views(texts@)[i as int] == texts@[i as int]@);
        match read_plate(texts[i].as_slice()) {
            Err(error) => {
                assert(plates_from(views(texts@), i as int, ports_of(plates@)) == Err::<
                    Seq<PortFlags>,
                    EdgeworkParseError,
                >(error));
                return Err(error);
            },
            Ok(plate) => {
                let ghost before = plates@;
                plates.push(plate);
                assert(ports_of(plates@) =~= ports_of(before).push(plate.ports()));
            },
        }
        i = i + 1;
    }
    Ok(())
}

/// Reads the indicators of a section and sets their states.
#[verifier::loop_isolation(false)]
fn read_indicators(section: &[u8], indicators: &mut Indicators) -> (r: Result<
    (),
    EdgeworkParseError,
>)
    ensures
        match r {
            Ok(()) => indicators_from(split(section@, bytes_of(" ")), 0, old(indicators)@) == Some(
                final(indicators)@,
            ),
            Err(error) => indicators_from(split(section@, bytes_of(" ")), 0, old(indicators)@)
                is None && error == EdgeworkParseError::NotAnIndicator,
        },
{
    let tokens = split_bytes(section, " ".as_bytes());
    let mut i: usize = 0;
    while i < tokens.len()
        invariant
            i <= tokens@.len(),
            indicators_from(views(tokens@), i as int, indicators@) == indicators_from(
                views(tokens@),
                0,
                old(indicators)@,
            ),
        decreases tokens.len() - i,
    {
        let token = tokens[i].as_slice();
        assert(views(tokens@)[i as int] == token@);
        let lit: bool = token.len() > 0 && token[0] == 0x2A;
        let code = if lit {
            let label = copy_range(token, 1, token.len());
            IndicatorCode::from_name(label.as_slice())
        } else {
            IndicatorCode::from_name(token)
        };
        assert(code matches Some(c) ==> indicator_written(token@) == Some(
            (
                c,
                if lit {
                    IndicatorState::Lit
                } else {
                    IndicatorState::Unlit
                },
            ),
        ));
        assert(code is None ==> indicator_written(token@) is None);
        match code {
            None => {
                assert(indicators_from(views(tokens@), i as int, indicators@) is None);
                return Err(EdgeworkParseError::NotAnIndicator);
            },
            Some(code) => {
                indicators.set(
                    code,
                    if lit {
                        IndicatorState::Lit
                    } else {
                        IndicatorState::Unlit
                    },
                );
            },
        }
        i = i + 1;
    }
    Ok(())
}

/// Where the parts of an edgework description stand in it.
struct FrameAt {
    b_end: usize,
    h_start: usize,
    h_end: usize,
    rest: usize,
    middle_end: Option<usize>,
    tail: usize,
}

fn six_capitals_or_digits(s: &[u8], tail: usize) -> (r: bool)
    requires
        tail + 6 == s@.len(),
    ensures
        r == serial_shaped(s@.subrange(tail as int, s@.len() as int)),
{
    let mut i: usize = 0;
    let n: usize = s.len();
    let ghost last = s@.subrange(tail as int, s@.len() as int);
    while i < 6
        invariant
            i <= 6,
            n == s@.len(),
            tail + 6 == s@.len(),
            last == s@.subrange(tail as int, s@.len() as int),
            forall|k: int| 0 <= k < i ==> digit_byte(#[trigger] last[k]) || 0x41 <= last[k] <= 0x5A,
        decreases 6 - i,
    {
        let b: u8 = s[tail + i];
        assert(b == last[i as int]);
        if !((0x30 <= b && b <= 0x39) || (0x41 <= b && b <= 0x5A)) {
            return false;
        }
        i = i + 1;
    }
    true
}

fn is_one_line(s: &[u8], from: usize, to: usize) -> (r: bool)
    requires
        from <= to <= s@.len(),
    ensures
        r == one_line(s@.subrange(from as int, to as int)),
{
    let mut i: usize = from;
    let ghost part = s@.subrange(from as int, to as int);
    while i < to
        invariant
            from <= i <= to <= s@.len(),
            part == s@.subrange(from as int, to as int),
            forall|k: int| 0 <= k < i - from ==> #[trigger] part[k] != 0x0A,
        decreases to - i,
    {
        assert(s@[i as int] == part[i - from]);
        if s[i] == 0x0A {
            return false;
        }
        i = i + 1;
    }
    true
}

/// Finds the parts of an edgework description.
fn read_frame(s: &[u8]) -> (r: Option<FrameAt>)
    ensures
        r is Some <==> frame(s@) is Some,
        r matches Some(at) ==> {
            &&& at.b_end <= at.h_start <= at.h_end <= at.rest <= at.tail
            &&& at.tail + 6 == s@.len()
            &&& forall|k: int| 0 <= k < at.b_end ==> digit_byte(s@[k])
            &&& forall|k: int| at.h_start <= k < at.h_end ==> digit_byte(s@[k])
            &&& frame(s@)->0.batteries == s@.subrange(0, at.b_end as int)
            &&& frame(s@)->0.holders == s@.subrange(at.h_start as int, at.h_end as int)
            &&& frame(s@)->0.serial == s@.subrange(at.tail as int, s@.len() as int)
            &&& serial_shaped(frame(s@)->0.serial)
            &&& match at.middle_end {
                None => frame(s@)->0.middle is None,
                Some(end) => at.rest <= end <= at.tail && frame(s@)->0.middle == Some(
                    s@.subrange(at.rest as int, end as int),
                ),
            }
        },
{
    let after_b = "B ".as_bytes();
    let after_h = "H // ".as_bytes();
    let sep = " // ".as_bytes();
    let n: usize = s.len();
    let b_end: usize = scan_digits(s, 0);
    if b_end == 0 || !matches_at(s, after_b, b_end) {
        return None;
    }
    let h_start: usize = b_end + after_b.len();
    let h_end: usize = scan_digits(s, h_start);
    if h_end == h_start || !matches_at(s, after_h, h_end) {
        return None;
    }
    let rest: usize = h_end + after_h.len();
    if n < 6 || rest > n - 6 {
        return None;
    }
    let tail: usize = n - 6;
    if !six_capitals_or_digits(s, tail) {
        return None;
    }
    if rest == tail {
        return Some(FrameAt { b_end, h_start, h_end, rest, middle_end: None, tail });
    }
    if sep.len() > tail || rest > tail - sep.len() {
        return None;
    }
    let middle_end: usize = tail - sep.len();
    if !matches_at(s, sep, middle_end) || !is_one_line(s, rest, middle_end) {
        return None;
    }
    Some(FrameAt { b_end, h_start, h_end, rest, middle_end: Some(middle_end), tail })
}

/// Reads the widgets between the holders and the serial number.
#[verifier::loop_isolation(false)]
fn read_widgets(middle: &[u8]) -> (r: Result<(Vec<PortPlate>, Indicators), EdgeworkParseError>)
    ensures
        match r {
            Ok((plates, indicators)) => widgets_written(middle@) == Ok::<
                Widgets,
                EdgeworkParseError,
            >(Widgets { plates: ports_of(plates@), indicators: indicators@ }) && forall|k: int|
                0 <= k < plates@.len() ==> plates@[k].wf(),
            Err(error) => widgets_written(middle@) == Err::<Widgets, EdgeworkParseError>(error),
        },
{
    let sections = split_bytes(middle, " // ".as_bytes());
    let mut plates: Vec<PortPlate> = Vec::new();
    let mut indicators = Indicators::new();
    assert(ports_of(plates@) =~= Seq::<PortFlags>::empty());
    let mut i: usize = 0;
    while i < sections.len()
        invariant
            i <= sections@.len(),
            forall|k: int| 0 <= k < plates@.len() ==> plates@[k].wf(),
            sections_from(
                views(sections@),
                i as int,
                Widgets { plates: ports_of(plates@), indicators: indicators@ },
            ) == sections_from(views(sections@), 0, no_widgets()),
        decreases sections.len() - i,
    {
        let section = sections[i].as_slice();
        assert(views(sections@)[i as int] == section@);
        let n: usize = section.len();
        let ghost found = Widgets { plates: ports_of(plates@), indicators: indicators@ };
        if n >= 2 && section[0] == 0x5B && section[n - 1] == 0x5D {
            assert(lists_plates(section@));
            let inner = copy_range(section, 1, n - 1);
            match read_plates(inner.as_slice(), &mut plates) {
                Err(error) => {
                    assert(section_written(section@, found) == Err::<Widgets, EdgeworkParseError>(
                        error,
                    ));
                    return Err(error);
                },
                Ok(()) => {},
            }
        } else {
            assert(!lists_plates(section@));
            match read_indicators(section, &mut indicators) {
                Err(error) => {
                    assert(section_written(section@, found) == Err::<Widgets, EdgeworkParseError>(
                        error,
                    ));
                    return Err(error);
                },
                Ok(()) => {},
            }
        }
        assert(section_written(section@, found) == Ok::<Widgets, EdgeworkParseError>(
            Widgets { plates: ports_of(plates@), indicators: indicators@ },
        ));
        i = i + 1;
    }
    Ok((plates, indicators))
}

/// Counts the pairs of AA batteries and the D batteries.
fn read_batteries(s: &[u8], b_end: usize, h_start: usize, h_end: usize) -> (r: Option<(u32, u32)>)
    requires
        b_end <= h_start <= h_end <= s@.len(),
        forall|k: int| 0 <= k < b_end ==> digit_byte(s@[k]),
        forall|k: int| h_start <= k < h_end ==> digit_byte(s@[k]),
    ensures
        match r {
            None => batteries_held(
                decimal_value(s@.subrange(0, b_end as int)),
                decimal_value(s@.subrange(h_start as int, h_end as int)),
            ) is None,
            Some((pairs, dcells)) => batteries_held(
                decimal_value(s@.subrange(0, b_end as int)),
                decimal_value(s@.subrange(h_start as int, h_end as int)),
            ) == Some((pairs as nat, dcells as nat)),
        },
{
    let batteries = read_decimal(s, 0, b_end);
    let holders = read_decimal(s, h_start, h_end);
    let (battery_count, holder_count) = match (batteries, holders) {
        (Some(b), Some(h)) => (b, h),
        _ => {
            return None;
        },
    };
    if battery_count < holder_count {
        return None;
    }
    let aa_battery_pairs: u32 = battery_count - holder_count;
    if holder_count < aa_battery_pairs {
        return None;
    }
    Some((aa_battery_pairs, holder_count - aa_battery_pairs))
}

impl Edgework {
    /// Reads the edgework of a bomb from its text form, such as
    /// `2B 1H // *FRK CAR // [Serial] [DVI, RJ45] [Empty] // PG3NL1`.
    pub fn from_str(input: &str) -> (r: Result<Edgework, EdgeworkParseError>)
        ensures
            match r {
                Ok(edgework) => edgework_written(encode_utf8(input@)) == Ok::<
                    EdgeworkModel,
                    EdgeworkParseError,
                >(edgework@) && edgework.wf(),
                Err(error) => edgework_written(encode_utf8(input@)) == Err::<
                    EdgeworkModel,
                    EdgeworkParseError,
                >(error),
            },
    {
        let bytes = input.as_bytes();
        let at = match read_frame(bytes) {
            None => {
                return Err(EdgeworkParseError::FormatError);
            },
            Some(at) => at,
        };
        let ghost parts = frame(bytes@)->0;
        let (aa_battery_pairs, dcell_batteries) = match read_batteries(
            bytes,
            at.b_end,
            at.h_start,
            at.h_end,
        ) {
            None => {
                return Err(EdgeworkParseError::ImpossibleBatteries);
            },
            Some(counts) => counts,
        };
        proof {
            encode_utf8_valid_utf8(input@);
            let last = bytes@.subrange(at.tail as int, bytes@.len() as int);
            assert(last[0] == bytes@[at.tail as int]);
            is_char_boundary_iff_not_is_continuation_byte(bytes@, at.tail as int);
        }
        let (_, serial_text) = input.split_at(at.tail);
        let serial_number = match SerialNumber::from_str(serial_text) {
            Err(_) => {
                return Err(EdgeworkParseError::MalformedSerial);
            },
            Ok(serial_number) => serial_number,
        };
        let (port_plates, indicators) = match at.middle_end {
            None => {
                let plates: Vec<PortPlate> = Vec::new();
                assert(ports_of(plates@) =~= Seq::<PortFlags>::empty());
                (plates, Indicators::new())
            },
            Some(end) => {
                let middle = copy_range(bytes, at.rest, end);
                match read_widgets(middle.as_slice()) {
                    Err(error) => {
                        return Err(error);
                    },
                    Ok(widgets) => widgets,
                }
            },
        };
        let edgework = Edgework {
            serial_number,
            port_plates,
            indicators,
            aa_battery_pairs,
            dcell_batteries,
        };
        proof {
            assert(edgework@.plates =~= ports_of(edgework.port_plates@));
        }
        Ok(edgework)
    }
}

} // verus!
