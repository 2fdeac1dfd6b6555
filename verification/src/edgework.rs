//! The widgets on the edges of a bomb: the serial number, the port plates,
//! the indicators and the batteries.

pub mod parse;
pub mod sample;
pub mod text;

use crate::edgework::text::digit_byte;
use vstd::prelude::*;
use vstd::string::StringExecFns;
use vstd::utf8::encode_utf8;

verus! {

/// Whether `b` is a capital letter that serial numbers use: any but `O` and
/// `Y`.
pub open spec fn letter_byte(b: u8) -> bool {
    0x41 <= b <= 0x5A && b != 0x4F && b != 0x59
}

/// Whether `bytes` spell a serial number: six characters, of which the third
/// and the last are digits, the fourth and fifth letters, and the first two
/// either.
pub open spec fn is_serial(bytes: Seq<u8>) -> bool {
    &&& bytes.len() == 6
    &&& (letter_byte(bytes[0]) || digit_byte(bytes[0]))
    &&& (letter_byte(bytes[1]) || digit_byte(bytes[1]))
    &&& digit_byte(bytes[2])
    &&& letter_byte(bytes[3])
    &&& letter_byte(bytes[4])
    &&& digit_byte(bytes[5])
}

/// The serial number of a bomb.
#[derive(Debug, Clone, PartialEq, Eq)]
pub struct SerialNumber {
    text: String,
}

impl SerialNumber {
    /// The serial number as it is written.
    pub closed spec fn text(self) -> Seq<char> {
        self.text@
    }

    /// The bytes of the serial number.
    pub open spec fn bytes(self) -> Seq<u8> {
        encode_utf8(self.text())
    }

    /// The text is that of a serial number.
    pub open spec fn wf(self) -> bool {
        is_serial(self.bytes())
    }

    /// Checks whether a character can appear in a serial number.
    pub fn is_valid_character(c: char) -> (r: bool)
        ensures
            r <==> c as u32 <= 0x7F && (letter_byte(c as u8) || digit_byte(c as u8)),
    {
        Self::is_valid_letter(c) || Self::is_valid_digit(c)
    }

    /// Checks whether a character can appear in a serial number at a place
    /// that takes a digit.
    pub fn is_valid_digit(c: char) -> (r: bool)
        ensures
            r <==> c as u32 <= 0x7F && digit_byte(c as u8),
    {
        '0' <= c && c <= '9'
    }

    /// Checks whether a character can appear in a serial number at a place
    /// that takes a letter.
    pub fn is_valid_letter(c: char) -> (r: bool)
        ensures
            r <==> c as u32 <= 0x7F && letter_byte(c as u8),
    {
        'A' <= c && c <= 'Z' && c != 'O' && c != 'Y'
    }

    /// Makes a serial number of `serial`, if it spells one.
    pub fn from_str(serial: &str) -> (r: Result<SerialNumber, ()>)
        ensures
            r is Ok <==> is_serial(encode_utf8(serial@)),
            r matches Ok(number) ==> number.text() == serial@ && number.wf(),
    {
        let bytes = serial.as_bytes();
        if bytes.len() != 6 {
            return Err(());
        }
        if !(is_letter(bytes[0]) || is_digit(bytes[0])) {
            return Err(());
        }
        if !(is_letter(bytes[1]) || is_digit(bytes[1])) {
            return Err(());
        }
        if !is_digit(bytes[2]) || !is_letter(bytes[3]) || !is_letter(bytes[4]) || !is_digit(
            bytes[5],
        ) {
            return Err(());
        }
        Ok(SerialNumber { text: String::from_str(serial) })
    }

    /// The serial number as text.
    pub fn as_str(&self) -> (text: &str)
        ensures
            text@ == self.text(),
    {
        self.text.as_str()
    }

    /// The bytes that spell the serial number.
    pub fn as_bytes(&self) -> (bytes: &[u8])
        ensures
            bytes@ == self.bytes(),
    {
        self.text.as_str().as_bytes()
    }

    /// The third character of the serial number, which is a digit, as a
    /// number.
    pub fn middle_digit(&self) -> (digit: u8)
        requires
            self.wf(),
        ensures
            digit == self.bytes()[2] - 0x30,
            digit <= 9,
    {
        self.as_bytes()[2] - 0x30
    }

    /// The last character of the serial number, which is a digit, as a
    /// number.
    pub fn last_digit(&self) -> (digit: u8)
        requires
            self.wf(),
        ensures
            digit == self.bytes()[5] - 0x30,
            digit <= 9,
    {
        self.as_bytes()[5] - 0x30
    }
}

fn is_digit(b: u8) -> (r: bool)
    ensures
        r == digit_byte(b),
{
    0x30 <= b && b <= 0x39
}

fn is_letter(b: u8) -> (r: bool)
    ensures
        r == letter_byte(b),
{
    0x41 <= b && b <= 0x5A && b != 0x4F && b != 0x59
}

/// The kinds of port that a bomb can have.
#[derive(Copy, Clone, Debug, PartialEq, Eq, Hash, Structural)]
pub enum PortType {
    DVI,
    PS2,
    RJ45,
    StereoRCA,
    Parallel,
    Serial,
}

/// A set of kinds of port.
#[derive(Copy, Clone, Debug, PartialEq, Eq, Hash, Structural)]
pub struct PortFlags {
    pub dvi: bool,
    pub ps2: bool,
    pub rj45: bool,
    pub stereo_rca: bool,
    pub parallel: bool,
    pub serial: bool,
}

impl PortType {
    /// The bit that stands for the port in a set of ports written as a
    /// number.
    pub fn bit(self) -> (bit: u8)
        ensures
            bit == match self {
                PortType::DVI => 0x01u8,
                PortType::PS2 => 0x02u8,
                PortType::RJ45 => 0x04u8,
                PortType::StereoRCA => 0x08u8,
                PortType::Parallel => 0x10u8,
                PortType::Serial => 0x20u8,
            },
    {
        match self {
            PortType::DVI => 0x01,
            PortType::PS2 => 0x02,
            PortType::RJ45 => 0x04,
            PortType::StereoRCA => 0x08,
            PortType::Parallel => 0x10,
            PortType::Serial => 0x20,
        }
    }
}

impl PortFlags {
    /// Whether `port` is in the set.
    pub open spec fn has(self, port: PortType) -> bool {
        match port {
            PortType::DVI => self.dvi,
            PortType::PS2 => self.ps2,
            PortType::RJ45 => self.rj45,
            PortType::StereoRCA => self.stereo_rca,
            PortType::Parallel => self.parallel,
            PortType::Serial => self.serial,
        }
    }

    /// Whether no port is in the set.
    pub open spec fn none(self) -> bool {
        forall|port: PortType| !self.has(port)
    }

    /// Whether every port of the set is in `other`.
    pub open spec fn within(self, other: PortFlags) -> bool {
        forall|port: PortType| self.has(port) ==> other.has(port)
    }

    /// Whether all the ports of the set fit on one plate: they are all
    /// among parallel and serial, or all among the other four.
    pub open spec fn fits_one_group(self) -> bool {
        self.within(port_group(0)) || self.within(port_group(1))
    }

    /// The set with `port` added to it.
    pub open spec fn added(self, port: PortType) -> PortFlags {
        match port {
            PortType::DVI => PortFlags { dvi: true, ..self },
            PortType::PS2 => PortFlags { ps2: true, ..self },
            PortType::RJ45 => PortFlags { rj45: true, ..self },
            PortType::StereoRCA => PortFlags { stereo_rca: true, ..self },
            PortType::Parallel => PortFlags { parallel: true, ..self },
            PortType::Serial => PortFlags { serial: true, ..self },
        }
    }

    /// The set without a port.
    pub fn empty() -> (flags: PortFlags)
        ensures
            flags == no_ports(),
            flags.none(),
    {
        PortFlags {
            dvi: false,
            ps2: false,
            rj45: false,
            stereo_rca: false,
            parallel: false,
            serial: false,
        }
    }

    /// The set with `port` added to it.
    pub fn with(self, port: PortType) -> (flags: PortFlags)
        ensures
            flags == self.added(port),
            forall|other: PortType| flags.has(other) == (other == port || self.has(other)),
    {
        let mut flags = self;
        match port {
            PortType::DVI => {
                flags.dvi = true;
            },
            PortType::PS2 => {
                flags.ps2 = true;
            },
            PortType::RJ45 => {
                flags.rj45 = true;
            },
            PortType::StereoRCA => {
                flags.stereo_rca = true;
            },
            PortType::Parallel => {
                flags.parallel = true;
            },
            PortType::Serial => {
                flags.serial = true;
            },
        }
        flags
    }

    /// The set of one port.
    pub fn from(port: PortType) -> (flags: PortFlags)
        ensures
            forall|other: PortType| flags.has(other) == (other == port),
    {
        Self::empty().with(port)
    }

    /// Whether `port` is in the set.
    pub fn contains(self, port: PortType) -> (r: bool)
        ensures
            r == self.has(port),
    {
        match port {
            PortType::DVI => self.dvi,
            PortType::PS2 => self.ps2,
            PortType::RJ45 => self.rj45,
            PortType::StereoRCA => self.stereo_rca,
            PortType::Parallel => self.parallel,
            PortType::Serial => self.serial,
        }
    }

    /// Whether every port of the set is in `other`.
    pub fn is_within(self, other: PortFlags) -> (r: bool)
        ensures
            r == self.within(other),
    {
        let r = (!self.dvi || other.dvi) && (!self.ps2 || other.ps2) && (!self.rj45 || other.rj45)
            && (!self.stereo_rca || other.stereo_rca) && (!self.parallel || other.parallel) && (
        !self.serial || other.serial);
        proof {
            if r {
                assert forall|port: PortType| self.has(port) implies other.has(port) by {}
            } else {
                let witness = if self.dvi && !other.dvi {
                    PortType::DVI
                } else if self.ps2 && !other.ps2 {
                    PortType::PS2
                } else if self.rj45 && !other.rj45 {
                    PortType::RJ45
                } else if self.stereo_rca && !other.stereo_rca {
                    PortType::StereoRCA
                } else if self.parallel && !other.parallel {
                    PortType::Parallel
                } else {
                    PortType::Serial
                };
                assert(self.has(witness) && !other.has(witness));
            }
        }
        r
    }

    /// Whether no port is in the set.
    pub fn is_empty(self) -> (r: bool)
        ensures
            r == self.none(),
    {
        let r = !self.dvi && !self.ps2 && !self.rj45 && !self.stereo_rca && !self.parallel
            && !self.serial;
        proof {
            if !r {
                let witness = if self.dvi {
                    PortType::DVI
                } else if self.ps2 {
                    PortType::PS2
                } else if self.rj45 {
                    PortType::RJ45
                } else if self.stereo_rca {
                    PortType::StereoRCA
                } else if self.parallel {
                    PortType::Parallel
                } else {
                    PortType::Serial
                };
                assert(self.has(witness));
            }
        }
        r
    }

    /// The set written as a number, a bit for each port in it.
    pub open spec fn mask(self) -> int {
        (if self.dvi {
            0x01int
        } else {
            0
        }) + (if self.ps2 {
            0x02int
        } else {
            0
        }) + (if self.rj45 {
            0x04int
        } else {
            0
        }) + (if self.stereo_rca {
            0x08int
        } else {
            0
        }) + (if self.parallel {
            0x10int
        } else {
            0
        }) + (if self.serial {
            0x20int
        } else {
            0
        })
    }

    /// The set written as a number, a bit for each port in it.
    pub fn bits(self) -> (bits: u8)
        ensures
            bits == self.mask(),
    {
        let mut bits: u8 = 0;
        if self.dvi {
            bits = bits + 0x01;
        }
        if self.ps2 {
            bits = bits + 0x02;
        }
        if self.rj45 {
            bits = bits + 0x04;
        }
        if self.stereo_rca {
            bits = bits + 0x08;
        }
        if self.parallel {
            bits = bits + 0x10;
        }
        if self.serial {
            bits = bits + 0x20;
        }
        bits
    }
}

/// The set without a port.
pub open spec fn no_ports() -> PortFlags {
    PortFlags {
        dvi: false,
        ps2: false,
        rj45: false,
        stereo_rca: false,
        parallel: false,
        serial: false,
    }
}

/// The two groups that the ports fall into. The ports of a plate all come
/// from one of them, because others do not fit beside each other: group 0
/// holds parallel and serial, group 1 the other four.
pub open spec fn port_group(group: int) -> PortFlags {
    if group == 0 {
        PortFlags {
            dvi: false,
            ps2: false,
            rj45: false,
            stereo_rca: false,
            parallel: true,
            serial: true,
        }
    } else {
        PortFlags {
            dvi: true,
            ps2: true,
            rj45: true,
            stereo_rca: true,
            parallel: false,
            serial: false,
        }
    }
}

/// The two groups of ports.
pub fn port_groups() -> (groups: [PortFlags; 2])
    ensures
        groups@[0] == port_group(0),
        groups@[1] == port_group(1),
{
    [
        PortFlags {
            dvi: false,
            ps2: false,
            rj45: false,
            stereo_rca: false,
            parallel: true,
            serial: true,
        },
        PortFlags {
            dvi: true,
            ps2: true,
            rj45: true,
            stereo_rca: true,
            parallel: false,
            serial: false,
        },
    ]
}

/// The port plate widget: ports that fit beside each other.
#[derive(Debug, Copy, Clone, PartialEq, Eq, Structural)]
pub struct PortPlate {
    ports: PortFlags,
}

impl PortPlate {
    /// The ports on the plate.
    pub closed spec fn ports(self) -> PortFlags {
        self.ports
    }

    /// The ports of the plate all come from one group.
    pub open spec fn wf(self) -> bool {
        self.ports().fits_one_group()
    }

    /// Makes a plate of `ports`, if they all come from one group.
    pub fn new(ports: PortFlags) -> (plate: Option<Self>)
        ensures
            plate is Some <==> ports.fits_one_group(),
            plate matches Some(p) ==> p.ports() == ports && p.wf(),
    {
        let groups = port_groups();
        if ports.is_within(groups[0]) || ports.is_within(groups[1]) {
            Some(PortPlate { ports })
        } else {
            None
        }
    }

    /// The plate without a port.
    pub fn empty() -> (plate: Self)
        ensures
            plate.ports() == no_ports(),
            plate.ports().none(),
            plate.wf(),
    {
        PortPlate { ports: PortFlags::empty() }
    }

    /// Whether there is no port on the plate.
    pub fn is_empty(self) -> (r: bool)
        ensures
            r == self.ports().none(),
    {
        self.ports.is_empty()
    }

    /// Whether `port` is on the plate.
    pub fn has(self, port: PortType) -> (r: bool)
        ensures
            r == self.ports().has(port),
    {
        self.ports.contains(port)
    }

    /// The ports on the plate.
    pub fn flags(self) -> (ports: PortFlags)
        ensures
            ports == self.ports(),
    {
        self.ports
    }
}

/// The labels an indicator can have.
#[derive(Debug, Copy, Clone, PartialEq, Eq, Structural)]
pub enum IndicatorCode {
    SND,
    CLR,
    CAR,
    IND,
    FRQ,
    SIG,
    NSA,
    MSA,
    TRN,
    BOB,
    FRK,
}

/// Whether an indicator is on the bomb, and whether it is lit.
#[derive(Debug, Copy, Clone, PartialEq, Eq, Structural)]
pub enum IndicatorState {
    NotPresent,
    Unlit,
    Lit,
}

impl Default for IndicatorState {
    fn default() -> (state: Self)
        ensures
            state == IndicatorState::NotPresent,
    {
        IndicatorState::NotPresent
    }
}

impl IndicatorCode {
    /// The place of the label among the eleven.
    pub open spec fn index(self) -> int {
        match self {
            IndicatorCode::SND => 0,
            IndicatorCode::CLR => 1,
            IndicatorCode::CAR => 2,
            IndicatorCode::IND => 3,
            IndicatorCode::FRQ => 4,
            IndicatorCode::SIG => 5,
            IndicatorCode::NSA => 6,
            IndicatorCode::MSA => 7,
            IndicatorCode::TRN => 8,
            IndicatorCode::BOB => 9,
            IndicatorCode::FRK => 10,
        }
    }

    /// The place of the label among the eleven.
    pub fn to_index(self) -> (i: usize)
        ensures
            i == self.index(),
            i < 11,
    {
        match self {
            IndicatorCode::SND => 0,
            IndicatorCode::CLR => 1,
            IndicatorCode::CAR => 2,
            IndicatorCode::IND => 3,
            IndicatorCode::FRQ => 4,
            IndicatorCode::SIG => 5,
            IndicatorCode::NSA => 6,
            IndicatorCode::MSA => 7,
            IndicatorCode::TRN => 8,
            IndicatorCode::BOB => 9,
            IndicatorCode::FRK => 10,
        }
    }

    /// The label in place `i`, if `i` is below eleven.
    pub fn from_index(i: usize) -> (code: Option<IndicatorCode>)
        ensures
            code is Some <==> i < 11,
            code matches Some(c) ==> c.index() == i,
    {
        match i {
            0 => Some(IndicatorCode::SND),
            1 => Some(IndicatorCode::CLR),
            2 => Some(IndicatorCode::CAR),
            3 => Some(IndicatorCode::IND),
            4 => Some(IndicatorCode::FRQ),
            5 => Some(IndicatorCode::SIG),
            6 => Some(IndicatorCode::NSA),
            7 => Some(IndicatorCode::MSA),
            8 => Some(IndicatorCode::TRN),
            9 => Some(IndicatorCode::BOB),
            10 => Some(IndicatorCode::FRK),
            _ => None,
        }
    }
}

/// The state of every indicator: each label has one, and a label that is
/// not on the bomb has the state `NotPresent`.
#[derive(Debug, Copy, Clone, PartialEq, Eq)]
pub struct Indicators {
    states: [IndicatorState; 11],
}

impl View for Indicators {
    type V = Seq<IndicatorState>;

    closed spec fn view(&self) -> Seq<IndicatorState> {
        self.states@
    }
}

impl Indicators {
    /// The states of a bomb without indicators.
    pub fn new() -> (indicators: Indicators)
        ensures
            indicators@ == Seq::new(11, |i: int| IndicatorState::NotPresent),
    {
        let indicators = Indicators { states: [IndicatorState::NotPresent;11] };
        assert(indicators@ =~= Seq::new(11, |i: int| IndicatorState::NotPresent));
        indicators
    }

    /// The state of the indicator with the label `code`.
    pub fn get(&self, code: IndicatorCode) -> (state: IndicatorState)
        ensures
            state == self@[code.index()],
    {
        self.states[code.to_index()]
    }

    /// Sets the state of the indicator with the label `code`.
    pub fn set(&mut self, code: IndicatorCode, state: IndicatorState)
        ensures
            final(self)@ == old(self)@.update(code.index(), state),
    {
        self.states[code.to_index()] = state;
    }

    /// Every label has a state.
    pub proof fn lemma_len(self)
        ensures
            self@.len() == 11,
    {
    }
}

/// The ways in which a text can fail to describe the edgework of a bomb.
#[derive(Debug, Clone, Copy, PartialEq, Eq, Structural)]
pub enum EdgeworkParseError {
    /// The text does not have the form of an edgework description.
    FormatError,
    /// There is no way to put that many batteries into that many holders.
    ImpossibleBatteries,
    /// The serial number is not one.
    MalformedSerial,
    /// The ports of a plate do not all come from one group.
    ImpossiblePortPlate,
    /// A port plate names a port that does not exist.
    NotAPort,
    /// An indicator has a label that does not exist.
    NotAnIndicator,
}

/// The widgets on the edges of a bomb.
#[derive(Debug, Clone, PartialEq, Eq)]
pub struct Edgework {
    pub serial_number: SerialNumber,
    pub port_plates: Vec<PortPlate>,
    pub indicators: Indicators,
    pub aa_battery_pairs: u32,
    pub dcell_batteries: u32,
}

/// What an [`Edgework`] holds.
pub struct EdgeworkModel {
    pub serial: Seq<u8>,
    pub plates: Seq<PortFlags>,
    pub indicators: Seq<IndicatorState>,
    pub aa_battery_pairs: nat,
    pub dcell_batteries: nat,
}

impl View for Edgework {
    type V = EdgeworkModel;

    open spec fn view(&self) -> EdgeworkModel {
        EdgeworkModel {
            serial: self.serial_number.bytes(),
            plates: Seq::new(self.port_plates@.len(), |i: int| self.port_plates@[i].ports()),
            indicators: self.indicators@,
            aa_battery_pairs: self.aa_battery_pairs as nat,
            dcell_batteries: self.dcell_batteries as nat,
        }
    }
}

impl Edgework {
    /// The serial number is one, and every plate holds ports of one group.
    pub open spec fn wf(self) -> bool {
        &&& self.serial_number.wf()
        &&& forall|i: int| 0 <= i < self.port_plates@.len() ==> self.port_plates@[i].wf()
    }
}

/// A serial number has six characters, all of them digits or capital
/// letters other than `O` and `Y`: no text of another length, and none with
/// a small letter, another sign or a character beyond ASCII is one.
pub proof fn lemma_serial_characters(bytes: Seq<u8>)
    requires
        is_serial(bytes),
    ensures
        bytes.len() == 6,
        forall|i: int|
            0 <= i < 6 ==> digit_byte(#[trigger] bytes[i]) || (0x41 <= bytes[i] <= 0x5A
                && bytes[i] != 0x4F && bytes[i] != 0x59),
{
}

/// Ports fit on one plate exactly where they all come from one of the two
/// groups; no port at all always does.
pub proof fn lemma_ports_that_fit(ports: PortFlags)
    ensures
        ports.fits_one_group() <==> (!ports.dvi && !ports.ps2 && !ports.rj45 && !ports.stereo_rca)
            || (!ports.parallel && !ports.serial),
        no_ports().fits_one_group(),
{
    let first = (!ports.dvi && !ports.ps2 && !ports.rj45 && !ports.stereo_rca);
    let second = (!ports.parallel && !ports.serial);
    if first {
        assert forall|port: PortType| ports.has(port) implies port_group(0).has(port) by {}
    }
    if second {
        assert forall|port: PortType| ports.has(port) implies port_group(1).has(port) by {}
    }
    if ports.within(port_group(0)) {
        assert(ports.has(PortType::DVI) ==> port_group(0).has(PortType::DVI));
        assert(ports.has(PortType::PS2) ==> port_group(0).has(PortType::PS2));
        assert(ports.has(PortType::RJ45) ==> port_group(0).has(PortType::RJ45));
        assert(ports.has(PortType::StereoRCA) ==> port_group(0).has(PortType::StereoRCA));
    }
    if ports.within(port_group(1)) {
        assert(ports.has(PortType::Parallel) ==> port_group(1).has(PortType::Parallel));
        assert(ports.has(PortType::Serial) ==> port_group(1).has(PortType::Serial));
    }
    assert forall|port: PortType| no_ports().has(port) implies port_group(0).has(port) by {}
}

} // verus!
