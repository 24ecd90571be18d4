use image_rando::cli::{parse_args, parse_decimal, Args, Command};

fn argv(items: &[&str]) -> Vec<String> {
    items.iter().map(|s| s.to_string()).collect()
}

fn run_args(r: Result<Command, String>) -> Args {
    match r {
        Ok(Command::Run(a)) => a,
        Ok(Command::Help) => panic!("unexpected help"),
        Err(e) => panic!("unexpected error: {e}"),
    }
}

fn error(r: Result<Command, String>) -> String {
    match r {
        Err(e) => e,
        Ok(_) => panic!("expected an error"),
    }
}

#[test]
fn defaults_without_options() {
    let a = run_args(parse_args(&argv(&["prog"]), 77));
    assert_eq!(a.src, "/home/jef/Pictures/theframe");
    assert_eq!(a.dst, "/home/jef/Pictures/display");
    assert_eq!(a.max_files, 1200);
    assert_eq!(a.max_bytes, 4294967296);
    assert_eq!(a.seed, 77);
}

#[test]
fn every_option_is_read() {
    let a = run_args(parse_args(
        &argv(&[
            "prog", "--src", "/in", "--dst", "/out", "--max-files", "3", "--max-bytes", "+500",
            "--seed", "0",
        ]),
        77,
    ));
    assert_eq!(a.src, "/in");
    assert_eq!(a.dst, "/out");
    assert_eq!(a.max_files, 3);
    assert_eq!(a.max_bytes, 500);
    assert_eq!(a.seed, 0);
}

#[test]
fn later_option_wins() {
    let a = run_args(parse_args(&argv(&["prog", "--seed", "1", "--seed", "2"]), 0));
    assert_eq!(a.seed, 2);
}

#[test]
fn help_flags() {
    assert!(matches!(parse_args(&argv(&["prog", "--help"]), 0), Ok(Command::Help)));
    assert!(matches!(parse_args(&argv(&["prog", "--src", "/x", "-h", "--bogus"]), 0), Ok(Command::Help)));
}

#[test]
fn option_errors() {
    assert_eq!(error(parse_args(&argv(&["prog", "--dst"]), 0)), "missing value for --dst");
    assert_eq!(error(parse_args(&argv(&["prog", "--max-files", "0"]), 0)), "--max-files must be > 0");
    assert_eq!(error(parse_args(&argv(&["prog", "--max-files", "x"]), 0)), "--max-files must be an integer");
    assert_eq!(error(parse_args(&argv(&["prog", "--max-bytes", "0"]), 0)), "--max-bytes must be > 0");
    assert_eq!(error(parse_args(&argv(&["prog", "--max-bytes", "-1"]), 0)), "--max-bytes must be an integer");
    assert_eq!(error(parse_args(&argv(&["prog", "--seed", "18446744073709551616"]), 0)), "--seed must be an integer");
    assert_eq!(
        error(parse_args(&argv(&["prog", "--verbose"]), 0)),
        "unknown argument: --verbose\n\nRun with --help for usage."
    );
}

#[test]
fn decimal_numerals() {
    assert_eq!(parse_decimal("0", u64::MAX), Some(0));
    assert_eq!(parse_decimal("+42", u64::MAX), Some(42));
    assert_eq!(parse_decimal("007", u64::MAX), Some(7));
    assert_eq!(parse_decimal("18446744073709551615", u64::MAX), Some(u64::MAX));
    assert_eq!(parse_decimal("18446744073709551616", u64::MAX), None);
    assert_eq!(parse_decimal("256", 255), None);
    assert_eq!(parse_decimal("255", 255), Some(255));
    assert_eq!(parse_decimal("", u64::MAX), None);
    assert_eq!(parse_decimal("+", u64::MAX), None);
    assert_eq!(parse_decimal("1 ", u64::MAX), None);
    assert_eq!(parse_decimal("-0", u64::MAX), None);
    assert_eq!(parse_decimal("1x9", 5), None);
}
