use aw_work_sync::cli::{
    duration_message, is_letter, parse_args, parse_duration, server_port, Arguments, ArgumentsError,
    ConfigSource, DurationError,
};

fn args(list: &[&str]) -> Result<Arguments, ArgumentsError> {
    let mut all = vec!["aw-work-sync".to_string()];
    all.extend(list.iter().map(|s| s.to_string()));
    parse_args(&all)
}

#[test]
fn durations() {
    assert_eq!(parse_duration("5m").unwrap(), 300);
    assert_eq!(parse_duration("2h").unwrap(), 7200);
    assert_eq!(parse_duration("30s").unwrap(), 30);
    assert_eq!(parse_duration("+1s").unwrap(), 1);
    assert_eq!(parse_duration("18446744073709551615s").unwrap(), u64::MAX);
}

#[test]
fn what_is_no_duration() {
    assert!(matches!(parse_duration("30"), Err(DurationError::NoUnit)));
    assert!(matches!(parse_duration(""), Err(DurationError::NoUnit)));
    assert!(matches!(parse_duration("m"), Err(DurationError::NotANumber)));
    assert!(matches!(parse_duration("-5m"), Err(DurationError::NotANumber)));
    assert!(matches!(parse_duration("5 m"), Err(DurationError::NotANumber)));
    assert!(matches!(parse_duration("18446744073709551616s"), Err(DurationError::NotANumber)));
    assert!(matches!(parse_duration("18446744073709551615m"), Err(DurationError::TooLong)));
    match parse_duration("5min") {
        Err(DurationError::UnknownUnit(unit)) => assert_eq!(unit, "min"),
        _ => panic!("no such unit"),
    }
    match parse_duration("5é") {
        Err(DurationError::UnknownUnit(unit)) => assert_eq!(unit, "é"),
        _ => panic!("no such unit"),
    }
}

#[test]
fn what_is_said_of_a_bad_duration() {
    let said = |s: &str| duration_message(s, &parse_duration(s).unwrap_err());
    assert_eq!(said("5"), "invalid duration '5': expected e.g. 5m, 2h, 30s");
    assert_eq!(said("m"), "invalid duration 'm': not a number");
    assert_eq!(said("5d"), "unknown unit 'd' in '5d': use s, m or h");
    assert_eq!(said("18446744073709551615h"), "invalid duration '18446744073709551615h': too long");
}

#[test]
fn letters_are_those_of_unicode() {
    for c in (0..=0x10FFFFu32).filter_map(char::from_u32) {
        assert_eq!(is_letter(c), c.is_alphabetic());
    }
}

#[test]
fn no_arguments_mean_the_config_file() {
    let a = args(&[]).unwrap();
    assert_eq!((a.interval, a.verbose, a.testing), (300, false, false));
    assert!(matches!(a.source, ConfigSource::File));
}

#[test]
fn options_and_positions_mix() {
    let a = args(&["--verbose", "key", "--interval", "2h", "regex", "--testing"]).unwrap();
    assert_eq!((a.interval, a.verbose, a.testing), (7200, true, true));
    match a.source {
        ConfigSource::Arguments(key, regex) => {
            assert_eq!((key.as_str(), regex.as_str()), ("key", "regex"))
        }
        _ => panic!("both are given"),
    }
    assert!(matches!(args(&["key"]).unwrap().source, ConfigSource::Incomplete));
    assert!(matches!(args(&["a", "b", "c"]).unwrap().source, ConfigSource::Incomplete));
    assert!(matches!(args(&["-v", "b"]).unwrap().source, ConfigSource::Arguments(_, _)));
}

#[test]
fn refused_arguments() {
    assert!(matches!(args(&["--interval"]), Err(ArgumentsError::MissingInterval)));
    match args(&["--interval", "5"]) {
        Err(ArgumentsError::BadInterval(text, DurationError::NoUnit)) => assert_eq!(text, "5"),
        _ => panic!("no unit"),
    }
    match args(&["--nope"]) {
        Err(ArgumentsError::Unknown(arg)) => assert_eq!(arg, "--nope"),
        _ => panic!("no such option"),
    }
}

#[test]
fn testing_has_a_port_of_its_own() {
    assert_eq!(server_port(false), 5600);
    assert_eq!(server_port(true), 5699);
}
