use just_getopt::{Args, Opt, OptSpecs, OptValue};

fn words(list: &[&str]) -> Vec<String> {
    list.iter().map(|s| s.to_string()).collect()
}

fn sample() -> Args {
    OptSpecs::new()
        .option("file", "f", OptValue::Required)
        .option("file", "file", OptValue::RequiredNonEmpty)
        .option("level", "l", OptValue::Optional)
        .option("help", "h", OptValue::NoValue)
        .getopt(words(&["-l", "-f", "a", "--file=", "-h", "-l2", "--file", "b", "-f"]))
}

fn names(list: &[&Opt]) -> Vec<String> {
    list.iter().map(|o| o.name.clone()).collect()
}

#[test]
fn new_result_is_empty() {
    let args = Args::new();
    assert_eq!(0, args.options.len());
    assert_eq!(0, args.other.len());
    assert_eq!(0, args.unknown.len());
    assert_eq!(false, args.option_exists("x"));
    assert_eq!(None, args.options_first("x"));
    assert_eq!(None, args.options_last("x"));
    assert_eq!(None, args.options_value_first("x"));
    assert_eq!(None, args.options_value_last("x"));
    assert_eq!(0, args.options_all("x").len());
    assert_eq!(0, args.options_value_all("x").len());
    assert_eq!(0, args.required_value_missing().len());
}

#[test]
fn all_options_of_an_identifier() {
    let parsed = sample();
    assert_eq!(vec!["f", "file", "file", "f"], names(&parsed.options_all("file")));
    assert_eq!(vec!["l", "l"], names(&parsed.options_all("level")));
    assert_eq!(vec!["h"], names(&parsed.options_all("help")));
    assert_eq!(0, parsed.options_all("f").len());
}

#[test]
fn first_and_last_are_the_ends_of_all() {
    let parsed = sample();
    for id in ["file", "level", "help", "none", ""] {
        let all = parsed.options_all(id);
        assert_eq!(all.first().copied(), parsed.options_first(id));
        assert_eq!(all.last().copied(), parsed.options_last(id));
        assert_eq!(!all.is_empty(), parsed.option_exists(id));
        let values = parsed.options_value_all(id);
        assert_eq!(values.first().copied(), parsed.options_value_first(id));
        assert_eq!(values.last().copied(), parsed.options_value_last(id));
    }
}

#[test]
fn values_skip_options_without_one() {
    let parsed = sample();
    assert_eq!(vec!["a", "b"], parsed.options_value_all("file"));
    assert_eq!(vec!["2"], parsed.options_value_all("level"));
    assert_eq!(0, parsed.options_value_all("help").len());
    assert_eq!("a", parsed.options_value_first("file").unwrap());
    assert_eq!("b", parsed.options_value_last("file").unwrap());
    assert_eq!("2", parsed.options_value_first("level").unwrap());
    assert_eq!(None, parsed.options_value_first("help"));
    assert_eq!(None, parsed.options_last("file").unwrap().value);
}

#[test]
fn missing_values_are_required_and_absent() {
    let parsed = sample();
    let missing = parsed.required_value_missing();
    assert_eq!(vec!["file", "f"], names(&missing));
    for opt in &parsed.options {
        let listed = missing.iter().any(|m| std::ptr::eq(*m, opt));
        assert_eq!(opt.value_required && opt.value.is_none(), listed);
    }
}

#[test]
fn empty_value_is_missing_only_for_the_non_empty_kind() {
    let parsed = OptSpecs::new()
        .option("plain", "plain", OptValue::Required)
        .option("full", "full", OptValue::RequiredNonEmpty)
        .getopt(words(&["--plain=", "--full=", "--plain", "", "--full", ""]));
    assert_eq!(vec!["", ""], parsed.options_value_all("plain"));
    assert_eq!(0, parsed.options_value_all("full").len());
    assert_eq!(vec!["full", "full"], names(&parsed.required_value_missing()));
}
