use just_getopt::grammar::{
    get_long_option_name, get_short_option_series, is_long_option_prefix, is_option_terminator,
    is_short_option_prefix,
};
use just_getopt::{Args, OptFlags, OptSpecs, OptValue};

fn words(list: &[&str]) -> Vec<String> {
    list.iter().map(|s| s.to_string()).collect()
}

fn is_name(parsed: &Args, name: &str) -> bool {
    parsed.options.iter().any(|o| o.name == name) || parsed.unknown.iter().any(|u| u == name)
}

#[test]
fn every_token_is_found_again() {
    let specs = OptSpecs::new()
        .option("help", "h", OptValue::NoValue)
        .option("file", "f", OptValue::Required)
        .option("file", "file", OptValue::Required)
        .option("level", "l", OptValue::Optional)
        .flag(OptFlags::OptionsEverywhere);
    let line =
        ["-hx", "one", "--file", "-h", "--nope", "-lhx", "-f", "--", "two", "--", "-h", "--x"];
    let parsed = specs.getopt(words(&line));

    // The ordinary arguments, the two behind the terminator among them.
    assert_eq!(vec!["one", "two", "-h", "--x"], parsed.other);
    // The tokens taken as values of the options before them.
    assert_eq!(vec!["-h", "--"], parsed.options_value_all("file"));
    // What was attached to an option.
    assert_eq!(vec!["hx"], parsed.options_value_all("level"));
    // The names, declared or not.
    for name in ["h", "x", "file", "nope", "l", "f"] {
        assert!(is_name(&parsed, name));
    }
    // The terminator itself is the one token that is found nowhere: of
    // the two tokens `--`, one is a value and one is dropped.
    assert_eq!(2, line.iter().filter(|t| is_option_terminator(t)).count());
    let kept = parsed.other.len() + parsed.options_value_all("file").len();
    assert_eq!(6, kept);
    assert_eq!(vec!["x", "nope"], parsed.unknown);
    assert_eq!(4, parsed.options.len());
}

#[test]
fn option_like_tokens_leave_no_other_arguments() {
    let specs = OptSpecs::new()
        .option("a", "a", OptValue::NoValue)
        .option("all", "all", OptValue::NoValue);
    let line = ["-ab", "--all", "--al", "-c-", "--all=1", "--b c", "-a"];
    let parsed = specs.getopt(words(&line));
    assert_eq!(0, parsed.other.len());
    assert_eq!(vec!["b", "al", "c", "-", "all=", "b c"], parsed.unknown);
    for token in line {
        if is_long_option_prefix(token) {
            let name = get_long_option_name(token);
            if specs.get_long_option_match(&name).is_none() {
                assert!(parsed.unknown.contains(&name));
            }
        } else {
            assert!(is_short_option_prefix(token));
            for c in get_short_option_series(token).chars() {
                let name = c.to_string();
                if c == '-' || specs.get_short_option_match(&name).is_none() {
                    assert!(parsed.unknown.contains(&name));
                }
            }
        }
    }
}
