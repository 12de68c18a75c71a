//! What holds of every command line.
//!
//! The lemmas of this module are about [`parse_spec`], the meaning of
//! parsing, and so about [`parse`](crate::parser::parse) and
//! [`getopt`](crate::registry::OptSpecs::getopt), which return it.
//!
//! The first group says that the result only grows while the parser goes
//! along the command line. On it rest the laws proper:
//!
//!  * [`lemma_every_token_accounted`]: where no limit has kept anything
//!    out, each token is found again in the result;
//!  * [`lemma_only_unknown`]: where the options take no values and every
//!    token looks like an option, there are no other arguments, and what
//!    is not declared is listed as unknown;
//!  * [`lemma_result_sound`]: nothing in the result is over its limit, no
//!    unknown option is listed twice, and every option found is a declared
//!    option;
//!  * [`lemma_flag_twice`]: setting a flag twice is setting it once;
//!  * [`lemma_missing_value`]: an empty value is a missing value only for
//!    an option that wants a value with something in it.

use vstd::prelude::*;
use crate::args::{ArgsView, OptView};
use crate::grammar::{
    is_long_form, is_short_form, is_terminator, long_has_equal_sign, long_name, short_series,
};
use crate::model::{
    cluster_step, finish, found_step, lemma_run_add, lemma_run_push, long_lookup, long_step,
    mode_at, outcome, parse_spec, role, role_at, run, settle, short_lookup, step, Mode, Progress,
    Role,
};
use crate::registry::{lemma_first_named, OptFlags, OptSpecView, OptSpecsView};

verus! {

/// `b` begins with `a`.
pub open spec fn begins_with<A>(b: Seq<A>, a: Seq<A>) -> bool {
    &&& a.len() <= b.len()
    &&& forall|j: int| 0 <= j < a.len() ==> a[j] == b[j]
}

/// `b` holds what `a` holds, in the same places, and maybe more behind it.
pub open spec fn extends(b: ArgsView, a: ArgsView) -> bool {
    &&& begins_with(b.options, a.options)
    &&& begins_with(b.other, a.other)
    &&& begins_with(b.unknown, a.unknown)
}

/// From `p` to `q` nothing was taken back: what was collected is still
/// there, and what was clipped stays clipped.
pub open spec fn grows(p: Progress, q: Progress) -> bool {
    &&& extends(q.args, p.args)
    &&& p.clipped ==> q.clipped
}

/// What a sequence holds, every sequence that begins with it holds too.
proof fn lemma_begins_with_contains<A>(b: Seq<A>, a: Seq<A>, x: A)
    requires
        begins_with(b, a),
        a.contains(x),
    ensures
        b.contains(x),
{
    let j = choose|j: int| 0 <= j < a.len() && a[j] == x;
    assert(b[j] == x);
}

/// A long option only adds to the result.
proof fn lemma_long_grows(specs: OptSpecsView, p: Progress, token: Seq<char>)
    ensures
        grows(p, long_step(specs, p, token)),
{
}

/// A series of short options only adds to the result.
proof fn lemma_cluster_grows(specs: OptSpecsView, p: Progress, series: Seq<char>)
    ensures
        grows(p, cluster_step(specs, p, series)),
    decreases series.len(),
{
    if series.len() > 0 {
        let c = series[0];
        let rest = series.skip(1);
        match short_lookup(specs, c) {
            None => {
                lemma_cluster_grows(specs, p.unknown(specs, seq![c]), rest);
            },
            Some(spec) => {
                if !(spec.value_type.is_required() || spec.value_type.is_optional()) {
                    lemma_cluster_grows(specs, found_step(specs, p, spec, seq![c], None), rest);
                }
            },
        }
    }
}

/// A token only adds to the result.
proof fn lemma_step_grows(specs: OptSpecsView, p: Progress, token: Seq<char>)
    ensures
        grows(p, step(specs, p, token)),
{
    lemma_long_grows(specs, p, token);
    lemma_cluster_grows(specs, p, short_series(token));
}

/// The end of the command line only adds to the result.
proof fn lemma_finish_grows(specs: OptSpecsView, p: Progress)
    ensures
        grows(p, finish(specs, p)),
{
}

/// Tokens only add to the result.
pub proof fn lemma_run_grows(specs: OptSpecsView, p: Progress, tokens: Seq<Seq<char>>)
    ensures
        grows(p, run(specs, p, tokens)),
        grows(p, finish(specs, run(specs, p, tokens))),
    decreases tokens.len(),
{
    if tokens.len() > 0 {
        lemma_run_grows(specs, p, tokens.drop_last());
        lemma_step_grows(specs, run(specs, p, tokens.drop_last()), tokens.last());
    }
    lemma_finish_grows(specs, run(specs, p, tokens));
}

/// Setting a flag that is set changes nothing: the two sets of options
/// are the same, and so is everything that is said of them.
pub proof fn lemma_flag_twice(specs: OptSpecsView, flag: OptFlags)
    ensures
        specs.with_flag(flag).with_flag(flag) == specs.with_flag(flag),
        forall|tokens: Seq<Seq<char>>|
            parse_spec(specs.with_flag(flag).with_flag(flag), tokens) == parse_spec(
                specs.with_flag(flag),
                tokens,
            ),
{
    assert(specs.flags.insert(flag).insert(flag) =~= specs.flags.insert(flag));
}

/// An option that requires a value and was given the text `text` lacks its
/// value exactly where the text is empty and the option wants a value with
/// something in it. Whatever else was given, the empty text too, is the
/// option's value.
pub proof fn lemma_missing_value(id: Seq<char>, name: Seq<char>, text: Seq<char>, non_empty: bool)
    ensures
        ({
            let opt = OptView {
                id,
                name,
                value_required: true,
                value: settle(Some(text), non_empty),
            };
            &&& opt.lacks_value() <==> non_empty && text.len() == 0
            &&& !opt.lacks_value() ==> opt.value == Some(text)
        }),
{
}

/// An option written as `name` is among the options found.
pub open spec fn has_option_named(found: ArgsView, name: Seq<char>) -> bool {
    exists|j: int| 0 <= j < found.options.len() && (#[trigger] found.options[j]).name == name
}

/// The name `name` is found again: as the name of an option or among the
/// unknown options.
pub open spec fn name_accounted(found: ArgsView, name: Seq<char>) -> bool {
    has_option_named(found, name) || found.unknown.contains(name)
}

/// How many characters of a series of short options are read as names:
/// all of them up to the first option that takes a value, that option's
/// character included.
pub open spec fn names_in(specs: OptSpecsView, series: Seq<char>) -> int
    decreases series.len(),
{
    if series.len() == 0 {
        0
    } else {
        match short_lookup(specs, series[0]) {
            Some(spec) => if spec.value_type.is_required() || spec.value_type.is_optional() {
                1
            } else {
                1 + names_in(specs, series.skip(1))
            },
            None => 1 + names_in(specs, series.skip(1)),
        }
    }
}

/// A series of short options is found again: each character that is read
/// as a name, and behind the last of them the value of its option.
pub open spec fn series_accounted(specs: OptSpecsView, found: ArgsView, series: Seq<char>) -> bool {
    let names = names_in(specs, series);
    &&& forall|k: int| 0 <= k < names ==> name_accounted(found, seq![#[trigger] series[k]])
    &&& names < series.len() ==> exists|j: int|
        0 <= j < found.options.len() && (#[trigger] found.options[j]).name == seq![
            series[names - 1],
        ] && found.options[j].value == Some(series.skip(names))
}

/// The token at `at` is found again in what parsing returns, as what it
/// was taken for:
///
///  * an ordinary argument is among the other arguments;
///  * the value of an option is the value of that option, or no value
///    where it is empty and the option wants a value with something in
///    it;
///  * the name of a long option is the name of an option found or is
///    listed as unknown, with `=` behind it where the option takes no
///    value and was given one;
///  * the characters of a series of short options are names of options
///    found or listed as unknown, and what follows the first option that
///    takes a value is its value;
///  * the terminator is found nowhere, and no other token is taken for
///    one.
pub open spec fn token_accounted(specs: OptSpecsView, tokens: Seq<Seq<char>>, at: int) -> bool {
    let found = parse_spec(specs, tokens);
    let token = tokens[at];
    match role_at(specs, tokens, at) {
        Role::Positional => found.other.contains(token),
        Role::Value => mode_at(specs, tokens, at) matches Mode::Value { id, name, non_empty }
            && found.options.contains(
            OptView { id, name, value_required: true, value: settle(Some(token), non_empty) },
        ),
        Role::Long => name_accounted(found, long_name(token)) || found.unknown.contains(
            long_name(token).push('='),
        ),
        Role::Cluster => series_accounted(specs, found, short_series(token)),
        Role::Terminator => is_terminator(token) && forall|j: int|
            0 <= j < tokens.len() && j != at ==> !(#[trigger] role_at(specs, tokens, j)
                is Terminator),
    }
}

/// A name that was read as unknown is listed, unless a limit kept it out.
proof fn lemma_unknown_listed(specs: OptSpecsView, p: Progress, name: Seq<char>)
    requires
        !p.unknown(specs, name).clipped,
    ensures
        p.unknown(specs, name).args.unknown.contains(name),
{
    if !p.args.unknown.contains(name) {
        let listed = p.unknown(specs, name).args.unknown;
        assert(listed[listed.len() - 1] == name);
    }
}

/// An option that was read is the last of the options found, unless a
/// limit kept it out.
proof fn lemma_option_listed(specs: OptSpecsView, p: Progress, opt: OptView)
    requires
        !p.option(specs, opt).clipped,
    ensures
        p.option(specs, opt).args.options == p.args.options.push(opt),
        p.option(specs, opt).args.options.contains(opt),
        has_option_named(p.option(specs, opt).args, opt.name),
{
    let listed = p.option(specs, opt).args.options;
    assert(listed[listed.len() - 1] == opt);
}

/// The names in a series are at least one, where it has a character, and
/// at most as many as its characters.
proof fn lemma_names_in(specs: OptSpecsView, series: Seq<char>)
    ensures
        0 <= names_in(specs, series) <= series.len(),
        series.len() > 0 ==> names_in(specs, series) >= 1,
    decreases series.len(),
{
    if series.len() > 0 {
        lemma_names_in(specs, series.skip(1));
    }
}

/// What is accounted for stays so while the result grows.
proof fn lemma_name_carries(b: ArgsView, a: ArgsView, name: Seq<char>)
    requires
        extends(b, a),
    ensures
        has_option_named(a, name) ==> has_option_named(b, name),
        name_accounted(a, name) ==> name_accounted(b, name),
{
    if has_option_named(a, name) {
        let j = choose|j: int| 0 <= j < a.options.len() && (#[trigger] a.options[j]).name == name;
        assert(b.options[j].name == name);
    }
    if a.unknown.contains(name) {
        lemma_begins_with_contains(b.unknown, a.unknown, name);
    }
}

/// An option that waits for its value is found in the end, whatever
/// follows.
proof fn lemma_pending_resolves(specs: OptSpecsView, p: Progress, rest: Seq<Seq<char>>)
    requires
        p.mode is Value,
        !finish(specs, run(specs, p, rest)).clipped,
    ensures
        has_option_named(finish(specs, run(specs, p, rest)).args, p.mode->name),
{
    let name = p.mode->name;
    let end = finish(specs, run(specs, p, rest));
    if rest.len() == 0 {
        let last = end.args.options.len() - 1;
        assert(end.args.options[last].name == name);
    } else {
        let first = rest[0];
        let q = step(specs, p, first);
        assert(rest =~= seq![first] + rest.skip(1));
        lemma_run_add(specs, p, seq![first], rest.skip(1));
        assert(seq![first] =~= Seq::<Seq<char>>::empty().push(first));
        lemma_run_push(specs, p, Seq::empty(), first);
        assert(run(specs, p, seq![first]) == q);
        lemma_run_grows(specs, q, rest.skip(1));
        let last = q.args.options.len() - 1;
        assert(q.args.options[last].name == name);
        lemma_name_carries(end.args, q.args, name);
    }
}

/// Behind the end of option parsing nothing is read as an option again.
proof fn lemma_rest_stays(specs: OptSpecsView, p: Progress, tokens: Seq<Seq<char>>)
    requires
        p.mode is Rest,
    ensures
        run(specs, p, tokens).mode is Rest,
    decreases tokens.len(),
{
    if tokens.len() > 0 {
        lemma_rest_stays(specs, p, tokens.drop_last());
    }
}

/// A series of short options is accounted for in every later result that
/// is not clipped and in which the option that the series may have left
/// waiting for its value is found.
proof fn lemma_series_accounted(
    specs: OptSpecsView,
    p: Progress,
    series: Seq<char>,
    end: Progress,
)
    requires
        grows(cluster_step(specs, p, series), end),
        !end.clipped,
        cluster_step(specs, p, series).mode is Value ==> has_option_named(
            end.args,
            cluster_step(specs, p, series).mode->name,
        ),
        !(p.mode is Value),
    ensures
        series_accounted(specs, end.args, series),
    decreases series.len(),
{
    let q = cluster_step(specs, p, series);
    lemma_names_in(specs, series);
    if series.len() > 0 {
        lemma_names_in(specs, series.skip(1));
        let c = series[0];
        let rest = series.skip(1);
        let name = seq![c];
        let next = match short_lookup(specs, c) {
            None => p.unknown(specs, name),
            Some(spec) => found_step(specs, p, spec, name, None),
        };
        let takes_value = short_lookup(specs, c) matches Some(spec) && (
        spec.value_type.is_required() || spec.value_type.is_optional());
        if takes_value {
            let spec = short_lookup(specs, c)->0;
            if q.mode is Value {
                assert(name_accounted(end.args, name));
            } else {
                let last = q.args.options.len() - 1;
                assert(q.args.options[last].name == name);
                assert(end.args.options[last].name == name);
                if rest.len() > 0 {
                    assert(end.args.options[last].value == Some(rest));
                }
            }
            assert(names_in(specs, series) == 1);
            assert forall|k: int| 0 <= k < 1 implies name_accounted(
                end.args,
                seq![#[trigger] series[k]],
            ) by {
                assert(seq![series[k]] =~= name);
            }
        } else {
            lemma_cluster_grows(specs, next, rest);
            assert(q == cluster_step(specs, next, rest));
            assert(name_accounted(next.args, name)) by {
                match short_lookup(specs, c) {
                    Some(spec) => {
                        lemma_option_listed(
                            specs,
                            p,
                            OptView { id: spec.id, name, value_required: false, value: None },
                        );
                    },
                    None => {
                        lemma_unknown_listed(specs, p, name);
                    },
                }
            }
            lemma_name_carries(end.args, next.args, name);
            lemma_series_accounted(specs, next, rest, end);
            let names = names_in(specs, series);
            assert(names == 1 + names_in(specs, rest));
            assert forall|k: int| 0 <= k < names implies name_accounted(
                end.args,
                seq![#[trigger] series[k]],
            ) by {
                if k == 0 {
                    assert(seq![series[k]] =~= name);
                } else {
                    assert(series[k] == rest[k - 1]);
                }
            }
            if names < series.len() {
                let j = choose|j: int|
                    0 <= j < end.args.options.len() && (#[trigger] end.args.options[j]).name
                        == seq![rest[names - 2]] && end.args.options[j].value == Some(
                        rest.skip(names - 1),
                    );
                assert(rest.skip(names - 1) =~= series.skip(names));
                assert(rest[names - 2] == series[names - 1]);
            }
        }
    }
}

/// **Every token is accounted for.** Where no limit has kept anything out
/// of the result, each token of the command line is found again in it, as
/// the one thing it was taken for ([`token_accounted`]).
///
/// A limit that is reached drops tokens, so nothing of the kind holds of
/// a result that was clipped.
pub proof fn lemma_every_token_accounted(specs: OptSpecsView, tokens: Seq<Seq<char>>, at: int)
    requires
        0 <= at < tokens.len(),
        !outcome(specs, tokens).clipped,
    ensures
        token_accounted(specs, tokens, at),
{
    let start = Progress::start();
    let before = tokens.take(at);
    let token = tokens[at];
    let after = tokens.skip(at + 1);
    let p = run(specs, start, before);
    let q = step(specs, p, token);
    let end = outcome(specs, tokens);
    assert(tokens =~= before.push(token) + after);
    lemma_run_push(specs, start, before, token);
    lemma_run_add(specs, start, before.push(token), after);
    lemma_run_grows(specs, q, after);
    lemma_step_grows(specs, p, token);
    if q.mode is Value {
        lemma_pending_resolves(specs, q, after);
    }
    match role(p.mode, token) {
        Role::Positional => {
            let last = q.args.other.len() - 1;
            assert(q.args.other[last] == token);
            assert(end.args.other[last] == token);
        },
        Role::Value => {
            let last = q.args.options.len() - 1;
            assert(end.args.options[last] == q.args.options[last]);
        },
        Role::Long => {
            let name = long_name(token);
            match long_lookup(specs, name) {
                None => {
                    lemma_unknown_listed(specs, p, name);
                    lemma_begins_with_contains(end.args.unknown, q.args.unknown, name);
                },
                Some(spec) => {
                    if q.mode is Value {
                    } else if long_has_equal_sign(token) && !(spec.value_type.is_required()
                        || spec.value_type.is_optional()) {
                        lemma_unknown_listed(specs, p, name.push('='));
                        lemma_begins_with_contains(
                            end.args.unknown,
                            q.args.unknown,
                            name.push('='),
                        );
                    } else {
                        let last = q.args.options.len() - 1;
                        assert(q.args.options[last].name == name);
                        assert(end.args.options[last].name == name);
                    }
                },
            }
        },
        Role::Cluster => {
            lemma_series_accounted(specs, p, short_series(token), end);
        },
        Role::Terminator => {
            assert forall|j: int| 0 <= j < tokens.len() && j != at implies !(#[trigger] role_at(
                specs,
                tokens,
                j,
            ) is Terminator) by {
                if j > at {
                    let between = tokens.subrange(at + 1, j);
                    assert(tokens.take(j) =~= before.push(token) + between);
                    lemma_run_add(specs, start, before.push(token), between);
                    lemma_rest_stays(specs, q, between);
                } else {
                    if role_at(specs, tokens, j) is Terminator {
                        let early = tokens.take(j);
                        let between = tokens.subrange(j + 1, at);
                        assert(before =~= early.push(tokens[j]) + between);
                        lemma_run_push(specs, start, early, tokens[j]);
                        lemma_run_add(specs, start, early.push(tokens[j]), between);
                        lemma_rest_stays(
                            specs,
                            step(specs, run(specs, start, early), tokens[j]),
                            between,
                        );
                    }
                }
            }
        },
    }
}

/// No declared option takes a value.
pub open spec fn takes_no_values(specs: OptSpecsView) -> bool {
    forall|i: int|
        0 <= i < specs.options.len() ==> (#[trigger] specs.options[i]).value_type is NoValue
}

/// Every token is written as a long option or as a series of short
/// options.
pub open spec fn all_option_like(tokens: Seq<Seq<char>>) -> bool {
    forall|i: int|
        0 <= i < tokens.len() ==> is_long_form(#[trigger] tokens[i]) || is_short_form(tokens[i])
}

/// What `token` names without its being declared is listed as unknown: the
/// name of a long option, and each character of a series of short options.
pub open spec fn undeclared_listed(specs: OptSpecsView, found: ArgsView, token: Seq<char>) -> bool {
    if is_long_form(token) {
        long_lookup(specs, long_name(token)) is None ==> found.unknown.contains(long_name(token))
    } else {
        forall|k: int|
            0 <= k < short_series(token).len() && short_lookup(
                specs,
                #[trigger] short_series(token)[k],
            ) is None ==> found.unknown.contains(seq![short_series(token)[k]])
    }
}

/// The option that a name on the command line stands for is a declared
/// option.
proof fn lemma_lookup_declared(specs: OptSpecsView, name: Seq<char>, c: char)
    ensures
        long_lookup(specs, name) matches Some(spec) ==> specs.options.contains(spec),
        short_lookup(specs, c) matches Some(spec) ==> specs.options.contains(spec),
{
    lemma_first_named(specs.options, name);
    lemma_first_named(specs.options, seq![c]);
    if long_lookup(specs, name) is Some && specs.flags.contains(OptFlags::PrefixMatchLongOptions) {
        let begins = |o: OptSpecView| name.is_prefix_of(o.name);
        let matches = specs.options.filter(begins);
        assert(matches.contains(matches[0]));
        specs.options.lemma_filter_contains_rev(begins, matches[0]);
    }
}

/// Where no option takes a value, a series of short options leaves the
/// mode and the other arguments as they are, and what it names without
/// its being declared is listed in every later result that is not clipped.
proof fn lemma_series_plain(specs: OptSpecsView, p: Progress, series: Seq<char>, end: Progress)
    requires
        takes_no_values(specs),
    ensures
        cluster_step(specs, p, series).mode == p.mode,
        cluster_step(specs, p, series).args.other == p.args.other,
        grows(cluster_step(specs, p, series), end) && !end.clipped ==> forall|k: int|
            0 <= k < series.len() && short_lookup(specs, #[trigger] series[k]) is None
                ==> end.args.unknown.contains(seq![series[k]]),
    decreases series.len(),
{
    if series.len() > 0 {
        let c = series[0];
        let rest = series.skip(1);
        lemma_lookup_declared(specs, seq![c], c);
        let next = match short_lookup(specs, c) {
            None => p.unknown(specs, seq![c]),
            Some(spec) => found_step(specs, p, spec, seq![c], None),
        };
        if short_lookup(specs, c) is Some {
            let spec = short_lookup(specs, c)->0;
            let i = choose|i: int| 0 <= i < specs.options.len() && specs.options[i] == spec;
            assert(specs.options[i].value_type is NoValue);
        }
        assert(cluster_step(specs, p, series) == cluster_step(specs, next, rest));
        lemma_series_plain(specs, next, rest, end);
        lemma_cluster_grows(specs, next, rest);
        if grows(cluster_step(specs, p, series), end) && !end.clipped {
            assert forall|k: int|
                0 <= k < series.len() && short_lookup(
                    specs,
                    #[trigger] series[k],
                ) is None implies end.args.unknown.contains(seq![series[k]]) by {
                if k == 0 {
                    lemma_unknown_listed(specs, p, seq![c]);
                    lemma_begins_with_contains(end.args.unknown, next.args.unknown, seq![c]);
                } else {
                    assert(series[k] == rest[k - 1]);
                }
            }
        }
    }
}

/// Where no option takes a value and every token looks like an option,
/// the parser goes on looking for options and finds no other argument.
proof fn lemma_options_only(specs: OptSpecsView, tokens: Seq<Seq<char>>)
    requires
        takes_no_values(specs),
        all_option_like(tokens),
    ensures
        run(specs, Progress::start(), tokens).mode is Options,
        run(specs, Progress::start(), tokens).args.other.len() == 0,
    decreases tokens.len(),
{
    if tokens.len() > 0 {
        let front = tokens.drop_last();
        let token = tokens.last();
        assert forall|i: int| 0 <= i < front.len() implies is_long_form(#[trigger] front[i])
            || is_short_form(front[i]) by {
            assert(front[i] == tokens[i]);
        }
        lemma_options_only(specs, front);
        let p = run(specs, Progress::start(), front);
        assert(is_long_form(token) || is_short_form(token)) by {
            assert(token == tokens[tokens.len() - 1]);
        }
        lemma_lookup_declared(specs, long_name(token), ' ');
        if long_lookup(specs, long_name(token)) is Some {
            let spec = long_lookup(specs, long_name(token))->0;
            let i = choose|i: int| 0 <= i < specs.options.len() && specs.options[i] == spec;
            assert(specs.options[i].value_type is NoValue);
        }
        lemma_series_plain(specs, p, short_series(token), p);
    }
}

/// **Only options.** Where no declared option takes a value and every
/// token is written as an option, no token is taken for an ordinary
/// argument, and, unless a limit has kept something out, every name on the
/// command line that is not declared is listed as unknown
/// ([`undeclared_listed`]).
///
/// This holds whatever flags are set.
pub proof fn lemma_only_unknown(specs: OptSpecsView, tokens: Seq<Seq<char>>)
    requires
        takes_no_values(specs),
        all_option_like(tokens),
    ensures
        parse_spec(specs, tokens).other.len() == 0,
        !outcome(specs, tokens).clipped ==> forall|at: int|
            0 <= at < tokens.len() ==> undeclared_listed(
                specs,
                parse_spec(specs, tokens),
                #[trigger] tokens[at],
            ),
{
    let start = Progress::start();
    let end = outcome(specs, tokens);
    lemma_options_only(specs, tokens);
    if !end.clipped {
        assert forall|at: int| 0 <= at < tokens.len() implies undeclared_listed(
            specs,
            end.args,
            #[trigger] tokens[at],
        ) by {
            let before = tokens.take(at);
            let token = tokens[at];
            let after = tokens.skip(at + 1);
            assert forall|i: int| 0 <= i < before.len() implies is_long_form(#[trigger] before[i])
                || is_short_form(before[i]) by {
                assert(before[i] == tokens[i]);
            }
            lemma_options_only(specs, before);
            let p = run(specs, start, before);
            let q = step(specs, p, token);
            assert(tokens =~= before.push(token) + after);
            lemma_run_push(specs, start, before, token);
            lemma_run_add(specs, start, before.push(token), after);
            lemma_run_grows(specs, q, after);
            if is_long_form(token) {
                if long_lookup(specs, long_name(token)) is None {
                    lemma_unknown_listed(specs, p, long_name(token));
                    lemma_begins_with_contains(
                        end.args.unknown,
                        q.args.unknown,
                        long_name(token),
                    );
                }
            } else {
                lemma_series_plain(specs, p, short_series(token), end);
            }
        }
    }
}

/// Nothing is over its limit, and no unknown option is listed twice.
pub open spec fn within_limits(specs: OptSpecsView, found: ArgsView) -> bool {
    &&& found.options.len() <= specs.option_limit
    &&& found.other.len() <= specs.other_limit
    &&& found.unknown.len() <= specs.unknown_limit
    &&& found.unknown.no_duplicates()
}

/// The option `opt` is what the declared option `spec` looks like when it
/// is found: it has its identifier and its name, or under
/// [`OptFlags::PrefixMatchLongOptions`] a beginning of its name, it
/// requires a value where `spec` does, and its value is one that `spec`
/// accepts.
pub open spec fn found_as(specs: OptSpecsView, spec: OptSpecView, opt: OptView) -> bool {
    &&& opt.id == spec.id
    &&& opt.name == spec.name || (specs.flags.contains(OptFlags::PrefixMatchLongOptions)
        && opt.name.is_prefix_of(spec.name))
    &&& opt.value_required == spec.value_type.is_required()
    &&& spec.value_type is NoValue ==> opt.value is None
    &&& spec.value_type.is_non_empty() ==> opt.value != Some(Seq::<char>::empty())
}

/// The option `opt` is a declared option that was found.
pub open spec fn is_declared(specs: OptSpecsView, opt: OptView) -> bool {
    exists|i: int|
        0 <= i < specs.options.len() && found_as(specs, #[trigger] specs.options[i], opt)
}

/// Every option collected is a declared option, and so is the option that
/// waits for its value.
pub open spec fn all_declared(specs: OptSpecsView, p: Progress) -> bool {
    &&& forall|j: int|
        0 <= j < p.args.options.len() ==> is_declared(specs, #[trigger] p.args.options[j])
    &&& p.mode matches Mode::Value { id, name, non_empty } ==> forall|given: Seq<char>|
        #![trigger settle(Some(given), non_empty)]
        is_declared(
            specs,
            OptView { id, name, value_required: true, value: settle(Some(given), non_empty) },
        ) && is_declared(specs, OptView { id, name, value_required: true, value: None })
}

/// What holds of the parser between any two tokens.
pub open spec fn sound(specs: OptSpecsView, p: Progress) -> bool {
    within_limits(specs, p.args) && all_declared(specs, p)
}

/// An option that is found keeps the parser sound.
proof fn lemma_found_sound(
    specs: OptSpecsView,
    p: Progress,
    spec: OptSpecView,
    name: Seq<char>,
    given: Option<Seq<char>>,
)
    requires
        sound(specs, p),
        !(p.mode is Value),
        specs.options.contains(spec),
        name == spec.name || (specs.flags.contains(OptFlags::PrefixMatchLongOptions)
            && name.is_prefix_of(spec.name)),
        spec.value_type is NoValue ==> given is None,
    ensures
        sound(specs, found_step(specs, p, spec, name, given)),
{
    let q = found_step(specs, p, spec, name, given);
    let i = choose|i: int| 0 <= i < specs.options.len() && specs.options[i] == spec;
    let non_empty = spec.value_type.is_non_empty();
    if q.mode is Value {
        assert forall|text: Seq<char>| #![trigger settle(Some(text), non_empty)]
            is_declared(
                specs,
                OptView {
                    id: spec.id,
                    name,
                    value_required: true,
                    value: settle(Some(text), non_empty),
                },
            ) && is_declared(
                specs,
                OptView { id: spec.id, name, value_required: true, value: None },
            ) by {
            assert(found_as(
                specs,
                specs.options[i],
                OptView {
                    id: spec.id,
                    name,
                    value_required: true,
                    value: settle(Some(text), non_empty),
                },
            ));
            assert(found_as(
                specs,
                specs.options[i],
                OptView { id: spec.id, name, value_required: true, value: None },
            ));
        }
    } else {
        let opt = OptView {
            id: spec.id,
            name,
            value_required: spec.value_type.is_required(),
            value: settle(given, non_empty),
        };
        assert(found_as(specs, specs.options[i], opt));
        assert forall|j: int| 0 <= j < q.args.options.len() implies is_declared(
            specs,
            #[trigger] q.args.options[j],
        ) by {
            if j < p.args.options.len() {
                assert(q.args.options[j] == p.args.options[j]);
            }
        }
    }
}

/// An unknown option keeps the parser sound.
proof fn lemma_unknown_sound(specs: OptSpecsView, p: Progress, name: Seq<char>)
    requires
        sound(specs, p),
    ensures
        sound(specs, p.unknown(specs, name)),
{
    let q = p.unknown(specs, name);
    assert forall|i: int, j: int|
        0 <= i < q.args.unknown.len() && 0 <= j < q.args.unknown.len() && i
            != j implies q.args.unknown[i] != q.args.unknown[j] by {
        if q.args.unknown.len() > p.args.unknown.len() {
            if i < p.args.unknown.len() {
                assert(p.args.unknown.contains(p.args.unknown[i]));
            }
            if j < p.args.unknown.len() {
                assert(p.args.unknown.contains(p.args.unknown[j]));
            }
        }
    }
}

/// The option that a name on the command line stands for has that name,
/// or a name that begins with it.
proof fn lemma_lookup_named(specs: OptSpecsView, name: Seq<char>, c: char)
    ensures
        long_lookup(specs, name) matches Some(spec) ==> name == spec.name || (
        specs.flags.contains(OptFlags::PrefixMatchLongOptions) && name.is_prefix_of(spec.name)),
        short_lookup(specs, c) matches Some(spec) ==> spec.name == seq![c],
{
    lemma_first_named(specs.options, name);
    lemma_first_named(specs.options, seq![c]);
    if long_lookup(specs, name) is Some && specs.flags.contains(OptFlags::PrefixMatchLongOptions) {
        let begins = |o: OptSpecView| name.is_prefix_of(o.name);
        specs.options.lemma_filter_pred(begins, 0);
    }
}

/// A series of short options keeps the parser sound.
proof fn lemma_cluster_sound(specs: OptSpecsView, p: Progress, series: Seq<char>)
    requires
        sound(specs, p),
        !(p.mode is Value),
    ensures
        sound(specs, cluster_step(specs, p, series)),
    decreases series.len(),
{
    if series.len() > 0 {
        let c = series[0];
        let rest = series.skip(1);
        lemma_lookup_declared(specs, seq![c], c);
        lemma_lookup_named(specs, seq![c], c);
        match short_lookup(specs, c) {
            None => {
                lemma_unknown_sound(specs, p, seq![c]);
                lemma_cluster_sound(specs, p.unknown(specs, seq![c]), rest);
            },
            Some(spec) => {
                if spec.value_type.is_required() || spec.value_type.is_optional() {
                    lemma_found_sound(
                        specs,
                        p,
                        spec,
                        seq![c],
                        if rest.len() > 0 {
                            Some(rest)
                        } else {
                            None
                        },
                    );
                } else {
                    lemma_found_sound(specs, p, spec, seq![c], None);
                    lemma_cluster_sound(specs, found_step(specs, p, spec, seq![c], None), rest);
                }
            },
        }
    }
}

/// A token keeps the parser sound.
proof fn lemma_step_sound(specs: OptSpecsView, p: Progress, token: Seq<char>)
    requires
        sound(specs, p),
    ensures
        sound(specs, step(specs, p, token)),
{
    let q = step(specs, p, token);
    match role(p.mode, token) {
        Role::Value => {
            let non_empty = p.mode->non_empty;
            let value = settle(Some(token), non_empty);
            assert forall|j: int| 0 <= j < q.args.options.len() implies is_declared(
                specs,
                #[trigger] q.args.options[j],
            ) by {
                if j < p.args.options.len() {
                    assert(q.args.options[j] == p.args.options[j]);
                }
            }
        },
        Role::Long => {
            let name = long_name(token);
            lemma_lookup_declared(specs, name, ' ');
            lemma_lookup_named(specs, name, ' ');
            match long_lookup(specs, name) {
                None => {
                    lemma_unknown_sound(specs, p, name);
                },
                Some(spec) => {
                    if !long_has_equal_sign(token) {
                        lemma_found_sound(specs, p, spec, name, None);
                    } else if spec.value_type.is_required() || spec.value_type.is_optional() {
                        lemma_found_sound(
                            specs,
                            p,
                            spec,
                            name,
                            Some(crate::grammar::long_equal_value(token)),
                        );
                    } else {
                        lemma_unknown_sound(specs, p, name.push('='));
                    }
                },
            }
        },
        Role::Cluster => {
            lemma_cluster_sound(specs, p, short_series(token));
        },
        _ => {},
    }
}

/// **The result is sound.** Whatever the command line, nothing in the
/// result is over its limit, no unknown option is listed twice
/// ([`within_limits`]), and every option found is a declared option, with
/// its identifier and with a value that it accepts ([`is_declared`]).
pub proof fn lemma_result_sound(specs: OptSpecsView, tokens: Seq<Seq<char>>)
    ensures
        within_limits(specs, parse_spec(specs, tokens)),
        forall|j: int|
            0 <= j < parse_spec(specs, tokens).options.len() ==> is_declared(
                specs,
                #[trigger] parse_spec(specs, tokens).options[j],
            ),
{
    lemma_run_sound(specs, tokens);
    let p = run(specs, Progress::start(), tokens);
    let q = finish(specs, p);
    assert forall|j: int| 0 <= j < q.args.options.len() implies is_declared(
        specs,
        #[trigger] q.args.options[j],
    ) by {
        if j < p.args.options.len() {
            assert(q.args.options[j] == p.args.options[j]);
        }
    }
}

/// Tokens keep the parser sound.
proof fn lemma_run_sound(specs: OptSpecsView, tokens: Seq<Seq<char>>)
    ensures
        sound(specs, run(specs, Progress::start(), tokens)),
    decreases tokens.len(),
{
    if tokens.len() > 0 {
        lemma_run_sound(specs, tokens.drop_last());
        lemma_step_sound(specs, run(specs, Progress::start(), tokens.drop_last()), tokens.last());
    }
}

} // verus!
