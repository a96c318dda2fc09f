use rust_command_opt::opt::{Opt, OptOption, OptValue};

fn strs(v: &[&str]) -> Vec<String> {
    v.iter().map(|s| s.to_string()).collect()
}

#[test]
fn it_works() {
    let opt = Opt::with(vec![
        "-a".to_string(),
        "hello".to_string(),
        "-k".to_string(),
        "-l".to_string(),
        "-100".to_string(),
        "-p".to_string(),
        "100".to_string(),
    ]);
    match opt.get_opt(Opt::one("-a")) {
        Some(v) => {
            assert_eq!(v.one(), "hello");
        }
        None => {
            panic!("-a should have hello.");
        }
    };
    match opt.get_opt(Opt::one("-k")) {
        Some(v) => {
            assert_eq!(v.one(), "");
        }
        None => {
            panic!("-k should have empty string");
        }
    };
    match opt.get_opt(Opt::one("-l")) {
        Some(v) => {
            assert_eq!(v.one(), "-100");
        }
        None => {
            panic!("-l should have -100");
        }
    };
    match opt.get_opt(Opt::one("-p")) {
        Some(v) => {
            assert_eq!(v.one(), "100");
        }
        None => {
            panic!("-p should have 100");
        }
    };
    assert_eq!(opt.get_opt_short_with_default("-k", "ano").one(), "ano");
}

#[test]
fn negative_number_is_a_value_not_a_key() {
    let opt = Opt::with(strs(&["-l", "-100"]));
    assert_eq!(opt.get_opt_short("-l").unwrap().one(), "-100");
    assert!(opt.get_opt_short("-100").is_none());
}

#[test]
fn number_shapes_are_values() {
    let opt = Opt::with(strs(&[
        "-a", "-3.5", "-b", "-1e5", "-c", "-.5", "-d", "-100.5e-2", "-e", "-5.",
    ]));
    assert_eq!(opt.get_opt_short("-a").unwrap().one(), "-3.5");
    assert_eq!(opt.get_opt_short("-b").unwrap().one(), "-1e5");
    assert_eq!(opt.get_opt_short("-c").unwrap().one(), "-.5");
    assert_eq!(opt.get_opt_short("-d").unwrap().one(), "-100.5e-2");
    assert_eq!(opt.get_opt_short("-e").unwrap().one(), "-5.");
}

#[test]
fn special_number_spellings_are_values() {
    let opt = Opt::with(strs(&["-a", "-inf", "-b", "-INF", "-c", "-NaN", "-d", "-Infinity"]));
    assert_eq!(opt.get_opt_short("-a").unwrap().one(), "-inf");
    assert_eq!(opt.get_opt_short("-b").unwrap().one(), "-INF");
    assert_eq!(opt.get_opt_short("-c").unwrap().one(), "-NaN");
    assert_eq!(opt.get_opt_short("-d").unwrap().one(), "-Infinity");
    assert!(opt.get_opt_short("-inf").is_none());
}

#[test]
fn dash_tokens_that_are_not_numbers_are_flags() {
    // two dots, a bare dash, an exponent with no mantissa: none parses as a
    // number, so each names an option
    let opt = Opt::with(strs(&["-1.2.3", "-", "-e5", "--all"]));
    assert!(opt.get_opt_short("-1.2.3").is_some());
    assert!(opt.get_opt_short("-").is_some());
    assert!(opt.get_opt_short("-e5").is_some());
    assert!(opt.get_opt_short("--all").is_some());
    assert_eq!(opt.get_opt_short("--all").unwrap().one(), "");
}

#[test]
fn boolean_flag_resolves_to_empty_and_default() {
    let opt = Opt::with(strs(&["-k", "-x"]));
    assert_eq!(opt.get_opt_short("-k").unwrap().one(), "");
    assert_eq!(opt.get_opt_short_with_default("-k", "fallback").one(), "fallback");
    assert_eq!(opt.get_opt_short("-x").unwrap().one(), "");
}

#[test]
fn multiple_values_in_order() {
    let opt = Opt::with(strs(&["-p", "a", "b", "c"]));
    let v = opt.get_opt_short("-p").unwrap();
    assert_eq!(v.many(), vec!["a".to_string(), "b".to_string(), "c".to_string()]);
    assert_eq!(v.one(), "a");
}

#[test]
fn promoted_option_is_not_substituted() {
    let opt = Opt::with(strs(&["-p", "a", "b"]));
    let v = opt.get_opt_short_with_default("-p", "zzz");
    assert_eq!(v.many(), vec!["a".to_string(), "b".to_string()]);
}

#[test]
fn leading_value_under_empty_key() {
    let opt = Opt::with(strs(&["x", "-a", "y"]));
    assert_eq!(opt.get_opt_short("").unwrap().one(), "x");
    assert_eq!(opt.get_opt_short("-a").unwrap().one(), "y");
}

#[test]
fn empty_input_gives_empty_map() {
    let opt = Opt::with(Vec::new());
    assert!(opt.get_opt_short("-a").is_none());
    assert!(opt.get_opt_short("").is_none());
    assert!(opt.get_opt(Opt::normal("-v", "--verbose")).is_none());
}

#[test]
fn empty_tokens_are_skipped() {
    let opt = Opt::with(strs(&["", "-a", "", "hello"]));
    assert_eq!(opt.get_opt_short("-a").unwrap().one(), "hello");
    assert!(opt.get_opt_short("").is_none());
}

#[test]
fn alias_lookup_resolves_long_name() {
    let opt = Opt::with(strs(&["--verbose", "3"]));
    let v = opt.get_opt_normal("-v", "--verbose").unwrap();
    assert_eq!(v.one(), "3");
}

#[test]
fn alias_resolution_precedes_default() {
    let opt = Opt::with(strs(&["--verbose", "3"]));
    assert_eq!(opt.get_opt_normal_with_default("-v", "--verbose", "9").one(), "3");
}

#[test]
fn short_alias_wins_over_long() {
    let opt = Opt::with(strs(&["-v", "1", "--verbose", "2"]));
    assert_eq!(opt.get_opt_normal("-v", "--verbose").unwrap().one(), "1");
    assert_eq!(opt.get_opt_normal_with_default("-v", "--verbose", "9").one(), "1");
}

#[test]
fn absent_alias_pair_gives_default() {
    let opt = Opt::with(strs(&["-a", "x"]));
    assert_eq!(opt.get_opt_normal_with_default("-v", "--verbose", "9").one(), "9");
    assert!(opt.get_opt_normal("-v", "--verbose").is_none());
}

#[test]
fn repeated_flag_keeps_accumulated_value() {
    let opt = Opt::with(strs(&["-a", "x", "-a"]));
    assert_eq!(opt.get_opt_short("-a").unwrap().one(), "x");
}

#[test]
fn value_after_redeclared_flag_promotes() {
    let opt = Opt::with(strs(&["-a", "x", "-a", "y"]));
    let v = opt.get_opt_short("-a").unwrap();
    assert_eq!(v.many(), vec!["x".to_string(), "y".to_string()]);
    assert_eq!(v.one(), "x");
}

#[test]
fn plus_signed_tokens_are_plain_values() {
    let opt = Opt::with(strs(&["-a", "+5", "-b", "+x"]));
    assert_eq!(opt.get_opt_short("-a").unwrap().one(), "+5");
    assert_eq!(opt.get_opt_short("-b").unwrap().one(), "+x");
}

#[test]
fn selector_constructors() {
    let opt = Opt::with(strs(&["-a", "1"]));
    assert_eq!(opt.get_opt(OptOption::One("-a")).unwrap().one(), "1");
    assert_eq!(opt.get_opt(OptOption::ShortLong("-z", "-a")).unwrap().one(), "1");
    assert!(opt.get_opt(Opt::one("-z")).is_none());
}

#[test]
fn opt_value_accessors() {
    let single = OptValue::One("x".to_string());
    assert_eq!(single.one(), "x");
    assert_eq!(single.many(), vec!["x".to_string()]);
    let multi = OptValue::Many(vec!["a".to_string(), "b".to_string()]);
    assert_eq!(multi.one(), "a");
    assert_eq!(multi.many(), vec!["a".to_string(), "b".to_string()]);
}

#[test]
fn default_not_used_for_real_single_value() {
    let opt = Opt::with(strs(&["-a", "hello"]));
    assert_eq!(opt.get_opt_short_with_default("-a", "d").one(), "hello");
    assert_eq!(opt.get_opt_short_with_default("-missing", "d").one(), "d");
}
