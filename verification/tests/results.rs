use just_getopt::{Args, Opt, OptFlags, OptSpecs, OptValue};

fn words(list: &[&str]) -> Vec<String> {
    list.iter().map(|s| s.to_string()).collect()
}

fn opt(id: &str, name: &str, value_required: bool, value: Option<&str>) -> Opt {
    Opt {
        id: id.to_string(),
        name: name.to_string(),
        value_required,
        value: value.map(|v| v.to_string()),
    }
}

fn found(options: Vec<Opt>, other: &[&str], unknown: &[&str]) -> Args {
    Args { options, other: words(other), unknown: words(unknown) }
}

#[test]
fn aliases_and_required_values() {
    let parsed = OptSpecs::new()
        .option("help", "h", OptValue::NoValue)
        .option("help", "help", OptValue::NoValue)
        .option("file", "f", OptValue::Required)
        .option("file", "file", OptValue::Required)
        .getopt(words(&["-h", "--help", "-f123", "-f", "456", "foo", "bar"]));
    let expect = found(
        vec![
            opt("help", "h", false, None),
            opt("help", "help", false, None),
            opt("file", "f", true, Some("123")),
            opt("file", "f", true, Some("456")),
        ],
        &["foo", "bar"],
        &[],
    );
    assert_eq!(expect, parsed);
}

#[test]
fn long_alias_takes_next_argument() {
    let parsed = OptSpecs::new()
        .option("file", "f", OptValue::Required)
        .option("file", "file", OptValue::Required)
        .getopt(words(&["--file", "456", "-f", "-x"]));
    let expect = found(
        vec![opt("file", "file", true, Some("456")), opt("file", "f", true, Some("-x"))],
        &[],
        &[],
    );
    assert_eq!(expect, parsed);
}

#[test]
fn first_other_argument_stops_options() {
    let parsed = OptSpecs::new()
        .option("h", "h", OptValue::NoValue)
        .getopt(words(&["-h", "foo", "-h"]));
    let expect = found(vec![opt("h", "h", false, None)], &["foo", "-h"], &[]);
    assert_eq!(expect, parsed);
}

#[test]
fn options_everywhere_keeps_looking() {
    let parsed = OptSpecs::new()
        .option("h", "h", OptValue::NoValue)
        .flag(OptFlags::OptionsEverywhere)
        .getopt(words(&["-h", "foo", "-h"]));
    let expect =
        found(vec![opt("h", "h", false, None), opt("h", "h", false, None)], &["foo"], &[]);
    assert_eq!(expect, parsed);
}

#[test]
fn cluster_with_unknown_characters() {
    let parsed = OptSpecs::new()
        .option("debug", "d", OptValue::Optional)
        .getopt(words(&["-abcd", "-adbc"]));
    let expect = found(
        vec![opt("debug", "d", false, None), opt("debug", "d", false, Some("bc"))],
        &[],
        &["a", "b", "c"],
    );
    assert_eq!(expect, parsed);
}

#[test]
fn cluster_mixes_known_and_unknown() {
    let parsed =
        OptSpecs::new().option("b", "b", OptValue::NoValue).getopt(words(&["-abc"]));
    let expect = found(vec![opt("b", "b", false, None)], &[], &["a", "c"]);
    assert_eq!(expect, parsed);
}

#[test]
fn terminator_taken_as_value() {
    let parsed = OptSpecs::new()
        .option("file", "file", OptValue::Required)
        .getopt(words(&["--file", "--", "--", "--"]));
    let expect = found(vec![opt("file", "file", true, Some("--"))], &["--"], &[]);
    assert_eq!(expect, parsed);
}

#[test]
fn terminator_is_dropped() {
    let parsed = OptSpecs::new()
        .option("h", "h", OptValue::NoValue)
        .flag(OptFlags::OptionsEverywhere)
        .getopt(words(&["a", "--", "-h", "--", "--x"]));
    let expect = found(vec![], &["a", "-h", "--", "--x"], &[]);
    assert_eq!(expect, parsed);
}

#[test]
fn empty_command_line() {
    let parsed = OptSpecs::new().option("h", "h", OptValue::NoValue).getopt(Vec::new());
    assert_eq!(found(vec![], &[], &[]), parsed);
}

#[test]
fn value_given_to_option_without_value() {
    let parsed = OptSpecs::new()
        .option("foo", "foo", OptValue::NoValue)
        .getopt(words(&["--foo=", "--foo=1", "--foo", "--fo"]));
    let expect = found(vec![opt("foo", "foo", false, None)], &[], &["foo=", "fo"]);
    assert_eq!(expect, parsed);
}

#[test]
fn three_dashes_are_no_option() {
    let parsed = OptSpecs::new()
        .option("x", "x", OptValue::NoValue)
        .flag(OptFlags::OptionsEverywhere)
        .getopt(words(&["---x", "-", "", "- ", "-x"]));
    let expect = found(vec![opt("x", "x", false, None)], &["---x", "-", "", "- "], &[]);
    assert_eq!(expect, parsed);
}

#[test]
fn short_long_names_are_unknown() {
    let parsed = OptSpecs::new()
        .option("a", "a", OptValue::NoValue)
        .getopt(words(&["--a", "--a=b", "--=x", "--ab=c d"]));
    let expect = found(vec![], &[], &["a", "", "ab"]);
    assert_eq!(expect, parsed);
}

#[test]
fn dash_and_space_inside_a_cluster() {
    let parsed =
        OptSpecs::new().option("a", "a", OptValue::NoValue).getopt(words(&["-a-b a"]));
    let expect = found(
        vec![opt("a", "a", false, None), opt("a", "a", false, None)],
        &[],
        &["-", "b", " "],
    );
    assert_eq!(expect, parsed);
}

#[test]
fn optional_value_is_never_the_next_argument() {
    let parsed = OptSpecs::new()
        .option("v", "v", OptValue::Optional)
        .option("v", "verbose", OptValue::Optional)
        .flag(OptFlags::OptionsEverywhere)
        .getopt(words(&["-v", "1", "--verbose", "2", "-v3", "--verbose=4", "--verbose="]));
    let expect = found(
        vec![
            opt("v", "v", false, None),
            opt("v", "verbose", false, None),
            opt("v", "v", false, Some("3")),
            opt("v", "verbose", false, Some("4")),
            opt("v", "verbose", false, Some("")),
        ],
        &["1", "2"],
        &[],
    );
    assert_eq!(expect, parsed);
}

#[test]
fn empty_values_of_the_non_empty_kinds() {
    let parsed = OptSpecs::new()
        .option("o", "opt", OptValue::OptionalNonEmpty)
        .option("r", "req", OptValue::RequiredNonEmpty)
        .option("r", "r", OptValue::RequiredNonEmpty)
        .getopt(words(&["--opt=", "--req=", "--req", "", "-r", "", "--req=x", "-rx", "--req"]));
    let expect = found(
        vec![
            opt("o", "opt", false, None),
            opt("r", "req", true, None),
            opt("r", "req", true, None),
            opt("r", "r", true, None),
            opt("r", "req", true, Some("x")),
            opt("r", "r", true, Some("x")),
            opt("r", "req", true, None),
        ],
        &[],
        &[],
    );
    assert_eq!(expect, parsed);
    assert_eq!(4, parsed.required_value_missing().len());
}

#[test]
fn value_with_equal_signs_and_other_scripts() {
    let parsed = OptSpecs::new()
        .option("ä", "ä", OptValue::Required)
        .option("€", "€uro", OptValue::Required)
        .getopt(words(&["--€uro=ö=ö", "-ä€=", "-ä", "ü", "-ö€"]));
    let expect = found(
        vec![
            opt("€", "€uro", true, Some("ö=ö")),
            opt("ä", "ä", true, Some("€=")),
            opt("ä", "ä", true, Some("ü")),
        ],
        &[],
        &["ö", "€"],
    );
    assert_eq!(expect, parsed);
}

#[test]
fn prefix_of_one_name_only() {
    let specs = OptSpecs::new()
        .option("version", "version", OptValue::NoValue)
        .option("verbose", "verbose", OptValue::Required)
        .option("v", "v", OptValue::NoValue)
        .flag(OptFlags::PrefixMatchLongOptions);
    let parsed = specs.getopt(words(&["--ver", "--vers", "--verb=1", "--verbo", "2", "--v", "--x"]));
    let expect = found(
        vec![
            opt("version", "vers", false, None),
            opt("verbose", "verb", true, Some("1")),
            opt("verbose", "verbo", true, Some("2")),
        ],
        &[],
        &["ver", "v", "x"],
    );
    assert_eq!(expect, parsed);
}

#[test]
fn value_is_consumed_though_the_option_is_dropped() {
    let parsed = OptSpecs::new()
        .option("file", "f", OptValue::Required)
        .option("file", "file", OptValue::Required)
        .flag(OptFlags::OptionsEverywhere)
        .limit_options(1)
        .getopt(words(&["-f", "1", "-f", "-x", "--file", "--y", "z"]));
    let expect = found(vec![opt("file", "f", true, Some("1"))], &["z"], &[]);
    assert_eq!(expect, parsed);
}

#[test]
fn nothing_is_read_once_every_limit_is_reached() {
    let parsed = OptSpecs::new()
        .option("h", "h", OptValue::NoValue)
        .flag(OptFlags::OptionsEverywhere)
        .limit_options(1)
        .limit_other_args(1)
        .limit_unknown_options(1)
        .getopt(words(&["-h", "a", "-x", "-y", "b", "-h"]));
    let expect = found(vec![opt("h", "h", false, None)], &["a"], &["x"]);
    assert_eq!(expect, parsed);
}

#[test]
fn limits_of_zero() {
    let parsed = OptSpecs::new()
        .option("h", "h", OptValue::NoValue)
        .limit_options(0)
        .limit_other_args(0)
        .limit_unknown_options(0)
        .getopt(words(&["-h", "-x", "a"]));
    assert_eq!(found(vec![], &[], &[]), parsed);
}

#[test]
fn unknown_limit_does_not_count_repetitions() {
    let parsed = OptSpecs::new()
        .limit_unknown_options(2)
        .getopt(words(&["-aaa", "--aa", "--aa", "-a", "-b"]));
    assert_eq!(found(vec![], &[], &["a", "aa"]), parsed);
}

#[test]
fn other_limit_applies_behind_the_terminator() {
    let parsed =
        OptSpecs::new().limit_other_args(2).getopt(words(&["--", "a", "b", "c", "d"]));
    assert_eq!(found(vec![], &["a", "b"], &[]), parsed);
}
