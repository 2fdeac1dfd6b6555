use ktane_utils::edgework::sample::Widget;
use ktane_utils::edgework::{
    Edgework, IndicatorCode, IndicatorState, Indicators, PortFlags, PortPlate, PortType,
    SerialNumber,
};
use ktane_utils::modules::wires::wiring::{from_draws, generate};
use ktane_utils::modules::wires::WireColor::{Black, Blue, Red, White, Yellow};
use rand::rngs::StdRng;
use rand::SeedableRng;

#[test]
fn sampled_serial_numbers_are_serial_numbers() {
    let mut rng = StdRng::seed_from_u64(1);
    let mut seen = std::collections::HashSet::new();
    for _ in 0..500 {
        let serial = SerialNumber::sample(&mut rng);
        let text = serial.as_str().to_owned();
        assert!(SerialNumber::from_str(&text).is_ok(), "{}", text);
        assert!(!text.contains('O') && !text.contains('Y'));
        seen.insert(text);
    }
    assert!(seen.len() > 400);
}

#[test]
fn sampled_port_plates_fit_one_group() {
    let mut rng = StdRng::seed_from_u64(2);
    let mut seen = std::collections::HashSet::new();
    for _ in 0..500 {
        let plate = PortPlate::sample(&mut rng);
        assert_eq!(PortPlate::new(plate.flags()), Some(plate));
        seen.insert(plate.flags().bits());
    }
    // the empty plate, three more of the first group and fifteen of the second
    assert_eq!(seen.len(), 19);
}

#[test]
fn sampled_edgework_has_five_widgets() {
    let mut rng = StdRng::seed_from_u64(3);
    let codes = [
        IndicatorCode::SND,
        IndicatorCode::CLR,
        IndicatorCode::CAR,
        IndicatorCode::IND,
        IndicatorCode::FRQ,
        IndicatorCode::SIG,
        IndicatorCode::NSA,
        IndicatorCode::MSA,
        IndicatorCode::TRN,
        IndicatorCode::BOB,
        IndicatorCode::FRK,
    ];
    let mut lit = 0;
    let mut unlit = 0;
    for _ in 0..500 {
        let edgework = Edgework::sample(&mut rng);
        let mut indicators = 0;
        for &code in codes.iter() {
            match edgework.indicators.get(code) {
                IndicatorState::NotPresent => {}
                IndicatorState::Lit => {
                    indicators += 1;
                    lit += 1;
                }
                IndicatorState::Unlit => {
                    indicators += 1;
                    unlit += 1;
                }
            }
        }
        assert_eq!(
            edgework.aa_battery_pairs as usize
                + edgework.dcell_batteries as usize
                + edgework.port_plates.len()
                + indicators,
            5
        );
        assert!(SerialNumber::from_str(edgework.serial_number.as_str()).is_ok());
    }
    assert!(lit > unlit);
    assert!(unlit > 0);
}

#[test]
fn sampled_edgework_has_indicators_of_every_label() {
    let mut rng = StdRng::seed_from_u64(5);
    let codes = [
        IndicatorCode::SND,
        IndicatorCode::CLR,
        IndicatorCode::CAR,
        IndicatorCode::IND,
        IndicatorCode::FRQ,
        IndicatorCode::SIG,
        IndicatorCode::NSA,
        IndicatorCode::MSA,
        IndicatorCode::TRN,
        IndicatorCode::BOB,
        IndicatorCode::FRK,
    ];
    let mut seen = [false; 11];
    for _ in 0..500 {
        let edgework = Edgework::sample(&mut rng);
        for (place, &code) in codes.iter().enumerate() {
            if edgework.indicators.get(code) != IndicatorState::NotPresent {
                seen[place] = true;
            }
        }
    }
    assert_eq!(seen, [true; 11]);
}

#[test]
fn generated_modules_hold_the_wires_they_count() {
    let mut rng = StdRng::seed_from_u64(4);
    let mut counts = [0usize; 7];
    for _ in 0..500 {
        let (wires, wire_count) = generate(&mut rng);
        assert!(3 <= wire_count && wire_count <= 6);
        assert_eq!(wires.iter().filter(|wire| wire.is_some()).count(), wire_count as usize);
        counts[wire_count as usize] += 1;
    }
    assert!(counts[3] > 0 && counts[4] > 0 && counts[5] > 0);
    assert!(counts[6] > counts[3] && counts[6] > counts[4] && counts[6] > counts[5]);
}

#[test]
fn generated_modules_have_wires_in_every_slot() {
    let mut rng = StdRng::seed_from_u64(6);
    let mut filled = [0usize; 6];
    let mut colors = std::collections::HashSet::new();
    let mut modules = 0;
    while modules < 300 {
        let (wires, wire_count) = generate(&mut rng);
        if wire_count == 3 {
            modules += 1;
            for (slot, wire) in wires.iter().enumerate() {
                if let Some(color) = wire {
                    filled[slot] += 1;
                    colors.insert(color.name());
                }
            }
        }
    }
    for &count in filled.iter() {
        assert!(count > 50);
    }
    assert_eq!(colors.len(), 5);
}

#[test]
fn port_plates_are_made_of_their_draws() {
    assert_eq!(PortPlate::from_draws(0, &[false, false]), PortPlate::empty());
    assert_eq!(PortPlate::from_draws(1, &[false, false, false, false]), PortPlate::empty());
    assert_eq!(
        PortPlate::from_draws(0, &[true, false]).flags(),
        PortFlags::from(PortType::Parallel)
    );
    assert_eq!(
        PortPlate::from_draws(0, &[false, true]).flags(),
        PortFlags::from(PortType::Serial)
    );
    assert_eq!(
        PortPlate::from_draws(0, &[true, true]).flags(),
        PortFlags::from(PortType::Parallel).with(PortType::Serial)
    );
    assert_eq!(
        PortPlate::from_draws(1, &[true, false, false, true]).flags(),
        PortFlags::from(PortType::DVI).with(PortType::StereoRCA)
    );
    assert_eq!(
        PortPlate::from_draws(1, &[false, true, true, false]).flags(),
        PortFlags::from(PortType::PS2).with(PortType::RJ45)
    );
    assert_eq!(PortPlate::from_draws(1, &[true, true, true, true]).flags().bits(), 0b00_1111);
    assert_eq!(PortPlate::from_draws(0, &[true, true]).flags().bits(), 0b11_0000);
}

#[test]
fn serial_numbers_are_made_of_their_draws() {
    for &(places, expected) in &[
        ([0u32, 0, 0, 0, 0, 0], "AA0AA0"),
        ([34, 25, 9, 24, 23, 1], "909ZX1"),
        ([0, 34, 4, 14, 24, 9], "A94EZ9"),
        ([13, 15, 5, 13, 15, 5], "NP5NP5"),
        ([10, 19, 4, 13, 4, 8], "KT4NE8"),
    ] {
        assert_eq!(SerialNumber::from_draws(&places).as_str(), expected);
    }
}

#[test]
fn edgework_is_made_of_its_draws() {
    let labels = [10u8, 9, 8, 7, 6, 5, 4, 3, 2, 1, 0];
    let plate = PortPlate::new(PortFlags::from(PortType::Serial)).unwrap();
    let widgets = [
        Widget::Indicator(true),
        Widget::DCell,
        Widget::Plate(plate),
        Widget::Indicator(false),
        Widget::AaPair,
    ];
    let serial = SerialNumber::from_str("KT4NE8").unwrap();
    let mut indicators = Indicators::new();
    indicators.set(IndicatorCode::FRQ, IndicatorState::Lit);
    indicators.set(IndicatorCode::IND, IndicatorState::Unlit);
    assert_eq!(
        Edgework::from_draws(serial.clone(), &labels, &widgets),
        Edgework {
            serial_number: serial.clone(),
            port_plates: vec![plate],
            indicators,
            aa_battery_pairs: 1,
            dcell_batteries: 1,
        }
    );
    let holders = [Widget::DCell, Widget::AaPair, Widget::AaPair, Widget::DCell, Widget::DCell];
    let edgework = Edgework::from_draws(serial.clone(), &labels, &holders);
    assert_eq!(edgework.dcell_batteries, 3);
    assert_eq!(edgework.aa_battery_pairs, 2);
    assert!(edgework.port_plates.is_empty());
    assert_eq!(edgework.indicators, Indicators::new());
    let lights = [Widget::Indicator(true); 5];
    let edgework = Edgework::from_draws(serial, &labels, &lights);
    for &(code, state) in &[
        (IndicatorCode::FRQ, IndicatorState::Lit),
        (IndicatorCode::IND, IndicatorState::Lit),
        (IndicatorCode::CAR, IndicatorState::Lit),
        (IndicatorCode::CLR, IndicatorState::Lit),
        (IndicatorCode::SND, IndicatorState::Lit),
        (IndicatorCode::SIG, IndicatorState::NotPresent),
        (IndicatorCode::FRK, IndicatorState::NotPresent),
    ] {
        assert_eq!(edgework.indicators.get(code), state);
    }
}

#[test]
fn modules_are_made_of_their_draws() {
    assert_eq!(
        from_draws(3, &[0, 1, 2, 3, 4, 5], &[Red, Blue, Black]),
        ([None, None, None, Some(Red), Some(Blue), Some(Black)], 3)
    );
    assert_eq!(
        from_draws(4, &[5, 0, 4, 1, 3, 2], &[Red, Blue, Black, White]),
        ([None, Some(Blue), Some(White), Some(Black), Some(Red), None], 4)
    );
    for count in 6..9 {
        assert_eq!(
            from_draws(count, &[5, 4, 3, 2, 1, 0], &[Red, Blue, Black, White, Yellow, Red]),
            (
                [Some(Red), Some(Yellow), Some(White), Some(Black), Some(Blue), Some(Red)],
                6
            )
        );
    }
}
