use ktane_utils::edgework::EdgeworkParseError::{
    FormatError, ImpossibleBatteries, ImpossiblePortPlate, MalformedSerial, NotAPort,
    NotAnIndicator,
};
use ktane_utils::edgework::{
    Edgework, IndicatorCode, IndicatorState, Indicators, PortFlags, PortPlate, PortType,
    SerialNumber,
};

#[test]
fn port_plate_validation() {
    assert!(PortPlate::new(PortFlags::from(PortType::Serial).with(PortType::Parallel)).is_some());
    assert!(PortPlate::new(PortFlags::empty()).is_some());
    assert!(PortPlate::new(PortFlags::from(PortType::DVI)).is_some());
    assert!(PortPlate::new(PortFlags::from(PortType::DVI).with(PortType::Serial)).is_none());
}

#[test]
fn serial_number_validation() {
    for &wrong in &[
        "SN1BB3X", // Too long
        "SN1BB",   // Too short
        "SN½BB3", "SN½B3", // Unicode peskiness
        "Ab1cD2", "AB!CD2", // Character classes
        "SN1234", "ABCDEF", // Wrong patterns
        "OB1EC7", "YU0NO0", // Forbidden characters
    ] {
        assert!(SerialNumber::from_str(wrong).is_err());
    }

    for &fine in &["AB1CD2", "123AB4", "KT4NE8"] {
        assert!(SerialNumber::from_str(fine).is_ok());
    }
}

#[test]
fn edgework_parser() {
    for &test in &[
        "2B 1H // KT4NE8",
        "0B 0H // FRK // AA0AA0",
        "0B 0H // [Empty] // KT4NE8",
        "0B 0H // [RJ, RCA] // KT4NE8",
        "0B 0H // [serial] [Stereo RCA] // KT4NE8",
    ] {
        if let Err(error) = Edgework::from_str(test) {
            panic!("{} -> {:?}", test, error);
        }
    }

    for &(test, error) in &[
        ("5B 6H // KT4NE8", ImpossibleBatteries),
        ("12345678987654321B 0H // KT4NE8", ImpossibleBatteries),
        ("3B 1H // KT4NE8", ImpossibleBatteries),
        ("3B 2H // AB1234", MalformedSerial),
        ("3B 2H // -IND // 123AB4", NotAnIndicator),
        ("3B 2H // *WTF // KT4NE8", NotAnIndicator),
        ("0B 0H // WTF // KT4NE8", NotAnIndicator),
        ("3B 2H // [Airport] // KT4NE8", NotAPort),
    ] {
        assert_eq!(Edgework::from_str(test), Err(error));
    }
}

#[test]
fn edgework_parser_all_widgets() {
    let mut indicators = Indicators::new();
    indicators.set(IndicatorCode::FRK, IndicatorState::Lit);
    indicators.set(IndicatorCode::CAR, IndicatorState::Unlit);
    assert_eq!(
        Edgework::from_str("2B 1H // *FRK CAR // [Serial] [DVI, RJ45] [Empty] // PG3NL1").unwrap(),
        Edgework {
            serial_number: SerialNumber::from_str("PG3NL1").unwrap(),
            port_plates: vec![
                PortPlate::new(PortFlags::from(PortType::Serial)).unwrap(),
                PortPlate::new(PortFlags::from(PortType::DVI).with(PortType::RJ45)).unwrap(),
                PortPlate::empty(),
            ],
            indicators,
            aa_battery_pairs: 1,
            dcell_batteries: 0,
        }
    );
}

#[test]
fn edgework_parser_counts_batteries() {
    let edgework = Edgework::from_str("2B 1H // FRK // PG3NL1").unwrap();
    assert_eq!(edgework.aa_battery_pairs, 1);
    assert_eq!(edgework.dcell_batteries, 0);
    let edgework = Edgework::from_str("5B 3H // PG3NL1").unwrap();
    assert_eq!(edgework.aa_battery_pairs, 2);
    assert_eq!(edgework.dcell_batteries, 1);
    let edgework = Edgework::from_str("4294967295B 4294967295H // PG3NL1").unwrap();
    assert_eq!(edgework.aa_battery_pairs, 0);
    assert_eq!(edgework.dcell_batteries, 4294967295);
    assert_eq!(
        Edgework::from_str("4294967296B 4294967296H // PG3NL1"),
        Err(ImpossibleBatteries)
    );
}

#[test]
fn edgework_parser_rejects_other_forms() {
    for &test in &[
        "",
        "KT4NE8",
        "B 1H // KT4NE8",
        "2B H // KT4NE8",
        "2B1H // KT4NE8",
        "2B  1H // KT4NE8",
        "2B 1H / KT4NE8",
        "2B 1H // KT4NE",
        "2B 1H // kt4ne8",
        "2B 1H // KT4NE8 ",
        " 2B 1H // KT4NE8",
        "2B 1H // FRK //KT4NE8",
        "2B 1H // FRK\n // KT4NE8",
        "2b 1h // KT4NE8",
    ] {
        assert_eq!(Edgework::from_str(test), Err(FormatError), "{:?}", test);
    }
    assert_eq!(Edgework::from_str("2B 1H // [DVI, Serial] // KT4NE8"), Err(ImpossiblePortPlate));
    assert_eq!(Edgework::from_str("2B 1H // [DVI, Foo, Serial] // KT4NE8"), Err(NotAPort));
    assert_eq!(Edgework::from_str("2B 1H // [DVI,RJ45] // KT4NE8"), Err(NotAPort));
    assert_eq!(Edgework::from_str("2B 1H // [] // KT4NE8"), Err(NotAPort));
    assert_eq!(Edgework::from_str("2B 1H //  // KT4NE8"), Err(NotAnIndicator));
    assert_eq!(Edgework::from_str("2B 1H // FRK  CAR // KT4NE8"), Err(NotAnIndicator));
    assert_eq!(Edgework::from_str("2B 1H // * // KT4NE8"), Err(NotAnIndicator));
    assert_eq!(Edgework::from_str("2B 1H // frk // KT4NE8"), Err(NotAnIndicator));
    assert_eq!(
        Edgework::from_str("2B 1H // [Foo] // *WTF // KT4NE8"),
        Err(NotAPort)
    );
    assert_eq!(
        Edgework::from_str("2B 1H // WTF // [Foo] // KT4NE8"),
        Err(NotAnIndicator)
    );
}

#[test]
fn edgework_parser_takes_every_port_name() {
    for &(name, port) in &[
        ("DVI", PortType::DVI),
        ("DVI-D", PortType::DVI),
        ("PS2", PortType::PS2),
        ("PS/2", PortType::PS2),
        ("RJ45", PortType::RJ45),
        ("RJ-45", PortType::RJ45),
        ("RJ", PortType::RJ45),
        ("StereoRCA", PortType::StereoRCA),
        ("Stereo RCA", PortType::StereoRCA),
        ("RCA", PortType::StereoRCA),
        ("Parallel", PortType::Parallel),
        ("parallel", PortType::Parallel),
        ("Serial", PortType::Serial),
        ("serial", PortType::Serial),
    ] {
        let text = format!("0B 0H // [{}] // KT4NE8", name);
        let edgework = Edgework::from_str(&text).unwrap();
        assert_eq!(edgework.port_plates.len(), 1);
        for &other in &[
            PortType::DVI,
            PortType::PS2,
            PortType::RJ45,
            PortType::StereoRCA,
            PortType::Parallel,
            PortType::Serial,
        ] {
            assert_eq!(edgework.port_plates[0].has(other), other == port);
        }
    }
}

#[test]
fn edgework_parser_later_indicator_wins() {
    let edgework = Edgework::from_str("0B 0H // FRK *FRK // BOB // KT4NE8").unwrap();
    assert_eq!(edgework.indicators.get(IndicatorCode::FRK), IndicatorState::Lit);
    assert_eq!(edgework.indicators.get(IndicatorCode::BOB), IndicatorState::Unlit);
    assert_eq!(edgework.indicators.get(IndicatorCode::SND), IndicatorState::NotPresent);
}

#[test]
fn serial_number_round_trip() {
    for &text in &["AB1CD2", "123AB4", "KT4NE8", "ZZ9ZZ9", "009AA0"] {
        let serial = SerialNumber::from_str(text).unwrap();
        assert_eq!(serial.as_str(), text);
        assert_eq!(serial.as_bytes(), text.as_bytes());
    }
    let serial = SerialNumber::from_str("KT4NE8").unwrap();
    assert_eq!(serial.middle_digit(), 4);
    assert_eq!(serial.last_digit(), 8);
}

#[test]
fn serial_number_character_classes() {
    for c in "ABCDEFGHIJKLMNPQRSTUVWXZ".chars() {
        assert!(SerialNumber::is_valid_letter(c));
        assert!(SerialNumber::is_valid_character(c));
        assert!(!SerialNumber::is_valid_digit(c));
    }
    for c in "0123456789".chars() {
        assert!(SerialNumber::is_valid_digit(c));
        assert!(SerialNumber::is_valid_character(c));
        assert!(!SerialNumber::is_valid_letter(c));
    }
    for c in "OYoyab!½ ".chars() {
        assert!(!SerialNumber::is_valid_character(c));
    }
}

#[test]
fn port_plate_takes_what_fits_one_group() {
    let all = [
        PortType::DVI,
        PortType::PS2,
        PortType::RJ45,
        PortType::StereoRCA,
        PortType::Parallel,
        PortType::Serial,
    ];
    for mask in 0u8..64 {
        let mut flags = PortFlags::empty();
        for (i, &port) in all.iter().enumerate() {
            if mask & (1 << i) != 0 {
                flags = flags.with(port);
            }
        }
        assert_eq!(flags.bits(), mask);
        let first_group = mask & 0b11_0000 == mask;
        let second_group = mask & 0b00_1111 == mask;
        let plate = PortPlate::new(flags);
        assert_eq!(plate.is_some(), first_group || second_group);
        if let Some(plate) = plate {
            assert_eq!(plate.is_empty(), mask == 0);
            for &port in &all {
                assert_eq!(plate.has(port), mask & port.bit() != 0);
            }
        }
    }
}
