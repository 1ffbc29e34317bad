use artnet_smoother::binary64::Double;
use artnet_smoother::config::{
    launch, packet_gap, validate_config, Mode, SmootherConfig, UnknownPolicy,
};
use artnet_smoother::duration::Duration;
use artnet_smoother::universes::{parse_universe, parse_universe_allowlist};
use std::collections::HashSet;

fn config_with(fps: f64) -> SmootherConfig {
    SmootherConfig {
        mode: Mode::SyncDelay,
        fps: Double { bits: fps.to_bits() },
        stats: false,
        universes: None,
        min_packet_gap: None,
        unknown_policy: UnknownPolicy::Forward,
    }
}

fn listed(input: &str) -> Vec<u16> {
    let mut list: Vec<u16> = parse_universe_allowlist(Some(input))
        .unwrap()
        .unwrap()
        .into_iter()
        .collect();
    list.sort();
    list
}

fn refusal(input: &str) -> String {
    parse_universe_allowlist(Some(input)).unwrap_err().message
}

#[test]
fn parses_universe_ranges() {
    let universes = parse_universe_allowlist(Some("10-12,20")).unwrap().unwrap();
    assert!(universes.contains(&10));
    assert!(universes.contains(&11));
    assert!(universes.contains(&12));
    assert!(universes.contains(&20));
    assert!(!universes.contains(&13));
}

#[test]
fn packet_gap_uses_larger_gap() {
    assert_eq!(
        packet_gap(Some(100), Some(2_000)),
        Some(Duration::from_micros(500))
    );
}

#[test]
fn packet_gap_takes_what_is_given() {
    assert_eq!(packet_gap(None, None), None);
    assert_eq!(packet_gap(None, Some(0)), None);
    assert_eq!(packet_gap(Some(0), None), Some(Duration::zero()));
    assert_eq!(packet_gap(Some(700), Some(0)), Some(Duration::from_micros(700)));
    assert_eq!(packet_gap(Some(700), Some(2_000)), Some(Duration::from_micros(700)));
    assert_eq!(packet_gap(None, Some(2_000)), Some(Duration::from_micros(500)));
    assert_eq!(
        packet_gap(Some(u64::MAX), None),
        Some(Duration { nanos: u64::MAX as u128 * 1_000 })
    );
}

#[test]
fn packets_in_a_second_are_rounded_to_longer_gaps() {
    assert_eq!(packet_gap(None, Some(3)), Some(Duration::from_micros(333_334)));
    assert_eq!(packet_gap(None, Some(999_999)), Some(Duration::from_micros(2)));
    assert_eq!(packet_gap(None, Some(1_000_000)), Some(Duration::from_micros(1)));
    assert_eq!(packet_gap(None, Some(1_000_001)), Some(Duration::from_micros(1)));
    assert_eq!(packet_gap(None, Some(u64::MAX)), Some(Duration::from_micros(1)));
    for pps in 1..3_000u64 {
        let gap = packet_gap(None, Some(pps)).unwrap();
        assert_eq!(gap, Duration::from_micros(1_000_000u64.div_ceil(pps)));
        assert!(gap.nanos * pps as u128 >= 1_000_000_000);
        assert!((gap.nanos - 1_000) * (pps as u128) < 1_000_000_000);
    }
}

#[test]
fn no_list_allows_every_universe() {
    assert!(parse_universe_allowlist(None).unwrap().is_none());
    assert!(config_with(40.0).is_allowed(0));
    assert!(config_with(40.0).is_allowed(u16::MAX));
}

#[test]
fn a_list_allows_what_it_holds() {
    let mut config = config_with(40.0);
    config.universes = parse_universe_allowlist(Some("3")).unwrap();
    assert!(config.is_allowed(3));
    assert!(!config.is_allowed(4));
    config.universes = Some(HashSet::new());
    assert!(!config.is_allowed(3));
}

#[test]
fn empty_items_name_nothing() {
    assert_eq!(listed(""), Vec::<u16>::new());
    assert_eq!(listed(" ,\t,,\n"), Vec::<u16>::new());
    assert_eq!(listed(",5,"), vec![5]);
}

#[test]
fn white_space_around_items_and_ends_does_not_count() {
    assert_eq!(listed(" 10 - 12 , 20\u{3000}"), vec![10, 11, 12, 20]);
    assert_eq!(listed("\u{85}7\u{a0}"), vec![7]);
}

#[test]
fn universes_may_repeat_and_overlap() {
    assert_eq!(listed("2-4,3,3-5,2"), vec![2, 3, 4, 5]);
    assert_eq!(listed("9-9"), vec![9]);
    assert_eq!(listed("65534-65535"), vec![65534, 65535]);
    assert_eq!(listed("0-65535").len(), 65536);
}

#[test]
fn bad_universes_are_named() {
    assert_eq!(refusal("x"), "invalid universe 'x'");
    assert_eq!(refusal(" x y "), "invalid universe 'x y'");
    assert_eq!(refusal("65536"), "invalid universe '65536'");
    assert_eq!(refusal("1-2-3"), "invalid universe '2-3'");
    assert_eq!(refusal("-"), "invalid universe ''");
    assert_eq!(refusal("-5"), "invalid universe ''");
    assert_eq!(refusal("4- "), "invalid universe ''");
    assert_eq!(refusal("4 - z"), "invalid universe ' z'");
    assert_eq!(refusal("a - b"), "invalid universe 'a '");
    assert_eq!(refusal("1_0"), "invalid universe '1_0'");
    assert_eq!(refusal("\u{663}"), "invalid universe '\u{663}'");
}

#[test]
fn bad_ranges_are_named() {
    assert_eq!(refusal("1, 5 - 4 "), "invalid universe range '5 - 4'");
}

#[test]
fn the_first_bad_item_is_named() {
    assert_eq!(refusal("1,b,c"), "invalid universe 'b'");
    assert_eq!(refusal("3-2,b"), "invalid universe range '3-2'");
    assert_eq!(refusal("b,3-2"), "invalid universe 'b'");
}

#[test]
fn parse_universe_agrees_with_the_integer_parser() {
    let pieces = [
        "", "0", "1", "9", "+", "-", "+5", "-5", "++5", "5+", "007", "65535", "65536", "65540", "70000",
        "99999", "0000065535", "00000000000000000000001", "655350", "18446744073709551617", "0x10", "1e3",
        "1.0", "1 2", "\u{ff11}", "\u{663}", "\u{e9}",
    ];
    for piece in pieces {
        for value in [piece.to_string(), format!(" {piece}"), format!("{piece}\u{2003}\n")] {
            let expected = value.trim().parse::<u16>();
            match parse_universe(&value) {
                Ok(universe) => assert_eq!(expected, Ok(universe)),
                Err(e) => {
                    assert!(expected.is_err());
                    assert_eq!(e.message, format!("invalid universe '{value}'"));
                }
            }
        }
    }
    for number in 0..70_000u32 {
        let value = number.to_string();
        assert_eq!(parse_universe(&value).ok(), value.parse::<u16>().ok());
    }
}

#[test]
fn white_space_is_what_unicode_says() {
    for c in (0..=0x10ffffu32).filter_map(char::from_u32) {
        let value = format!("{c}5{c}");
        assert_eq!(parse_universe(&value).ok(), value.trim().parse::<u16>().ok(), "{c:?}");
    }
}

#[test]
fn rates_must_be_positive_and_finite() {
    for fps in [40.0, 0.001, 5e-324, f64::MIN_POSITIVE, f64::MAX] {
        assert!(validate_config(&config_with(fps)).is_ok());
    }
    for fps in [0.0, -0.0, -40.0, -5e-324, f64::INFINITY, f64::NEG_INFINITY, f64::NAN, -f64::NAN] {
        let refused = validate_config(&config_with(fps)).unwrap_err();
        assert_eq!(refused.message, "--fps must be a positive finite number");
    }
}

#[test]
fn a_launch_follows_the_settings() {
    let mut config = config_with(40.0);
    let start = launch(&config, true).unwrap();
    assert_eq!(start.min_gap, Duration::zero());
    assert!(!start.reports);
    assert!(start.buffers);
    assert_eq!(start.local_address, "0.0.0.0:0");

    config.min_packet_gap = Some(Duration::from_micros(500));
    config.stats = true;
    config.mode = Mode::Passthrough;
    let start = launch(&config, false).unwrap();
    assert_eq!(start.min_gap, Duration::from_micros(500));
    assert!(start.reports);
    assert!(!start.buffers);
    assert_eq!(start.local_address, "[::]:0");

    for mode in [Mode::Spread, Mode::SyncDelay, Mode::FixedFps] {
        config.mode = mode;
        assert!(launch(&config, true).unwrap().buffers);
    }
    let refused = launch(&config_with(-1.0), true).unwrap_err();
    assert_eq!(refused.message, "--fps must be a positive finite number");
}
