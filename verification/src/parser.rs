//! The parser.
//!
//! [`parse`] walks the command line once, from the first token to the last,
//! and returns what [`parse_spec`] describes. Where an option requires a
//! value and has none attached, the next token is taken for it from the
//! same iterator, whatever it looks like.

use vstd::prelude::*;
use vstd::std_specs::iter::IteratorSpec;
use crate::args::{opt_views, text_of, Args, Opt};
use crate::grammar::{
    get_long_option_equal_value, get_long_option_name, get_short_option_series, is_long_form,
    is_long_option_equal_sign, is_long_option_prefix, is_option_terminator,
    is_short_option_prefix, is_valid_long_option_name, is_valid_short_option_name,
};
use crate::model::{
    cluster_step, found_step, lemma_run_add, lemma_run_full, lemma_run_push,
    lemma_run_rest_full, long_step, parse_spec, run, settle, step, Mode, Progress,
};
use crate::registry::{OptFlags, OptSpec, OptSpecs, OptValue};
use crate::text::{contains_text, lemma_texts_push, texts};

verus! {

/// An option that has been read and still waits for its value.
struct Pending {
    id: String,
    name: String,
    non_empty: bool,
}

/// The mode the parser is in with `pending` at hand.
spec fn mode_of(pending: Option<Pending>) -> Mode {
    match pending {
        Some(p) => Mode::Value { id: p.id@, name: p.name@, non_empty: p.non_empty },
        None => Mode::Options,
    }
}

fn add_option(parsed: &mut Args, limit: u32, opt: Opt)
    ensures
        final(parsed)@ == old(parsed)@.add_option(limit as nat, opt@),
{
    if parsed.options.len() < limit as usize {
        let ghost before = parsed.options@;
        parsed.options.push(opt);
        proof {
            assert(opt_views(parsed.options@) =~= opt_views(before).push(opt@));
        }
    }
}

fn add_other(parsed: &mut Args, limit: u32, text: String)
    ensures
        final(parsed)@ == old(parsed)@.add_other(limit as nat, text@),
{
    if parsed.other.len() < limit as usize {
        proof {
            lemma_texts_push(parsed.other@, text);
        }
        parsed.other.push(text);
    }
}

fn add_unknown(parsed: &mut Args, limit: u32, name: String)
    ensures
        final(parsed)@ == old(parsed)@.add_unknown(limit as nat, name@),
{
    if parsed.unknown.len() < limit as usize && !contains_text(&parsed.unknown, name.as_str()) {
        proof {
            lemma_texts_push(parsed.unknown@, name);
        }
        parsed.unknown.push(name);
    }
}

fn settle_value(given: Option<String>, non_empty: bool) -> (value: Option<String>)
    ensures
        text_of(value) == settle(text_of(given), non_empty),
{
    match given {
        Some(text) => {
            if non_empty && text.as_str().is_empty() {
                None
            } else {
                Some(text)
            }
        },
        None => None,
    }
}

/// Takes the option `spec`, written as `name` with the inline value
/// `given`: it is recorded, or it is handed back to wait for its value.
fn take_found(
    specs: &OptSpecs,
    parsed: &mut Args,
    spec: &OptSpec,
    name: String,
    given: Option<String>,
    Ghost(before): Ghost<Progress>,
) -> (pending: Option<Pending>)
    requires
        before.args == old(parsed)@,
        before.mode is Options,
    ensures
        final(parsed)@ == found_step(specs@, before, spec@, name@, text_of(given)).args,
        mode_of(pending) == found_step(specs@, before, spec@, name@, text_of(given)).mode,
{
    let non_empty = match spec.value_type {
        OptValue::OptionalNonEmpty | OptValue::RequiredNonEmpty => true,
        _ => false,
    };
    let value_required = match spec.value_type {
        OptValue::Required | OptValue::RequiredNonEmpty => true,
        _ => false,
    };
    if value_required && given.is_none() {
        Some(Pending { id: spec.id.clone(), name, non_empty })
    } else {
        let value = settle_value(given, non_empty);
        add_option(
            parsed,
            specs.option_limit(),
            Opt { id: spec.id.clone(), name, value_required, value },
        );
        None
    }
}

/// Takes a long option.
fn parse_long(
    specs: &OptSpecs,
    parsed: &mut Args,
    arg: &str,
    Ghost(before): Ghost<Progress>,
) -> (pending: Option<Pending>)
    requires
        is_long_form(arg@),
        before.args == old(parsed)@,
        before.mode is Options,
    ensures
        final(parsed)@ == long_step(specs@, before, arg@).args,
        mode_of(pending) == long_step(specs@, before, arg@).mode,
{
    let name = get_long_option_name(arg);
    if is_valid_long_option_name(name.as_str()) {
        let found = if specs.is_flag(OptFlags::PrefixMatchLongOptions) {
            specs.get_long_option_prefix_match(name.as_str())
        } else {
            specs.get_long_option_match(name.as_str())
        };
        match found {
            Some(spec) => {
                if !is_long_option_equal_sign(arg) {
                    return take_found(specs, parsed, spec, name, None, Ghost(before));
                }
                match spec.value_type {
                    OptValue::NoValue => {
                        proof {
                            reveal_strlit("=");
                            assert(name@ + "="@ =~= name@.push('='));
                        }
                        add_unknown(parsed, specs.unknown_limit(), name.concat("="));
                        return None;
                    },
                    _ => {
                        let value = get_long_option_equal_value(arg);
                        return take_found(specs, parsed, spec, name, Some(value), Ghost(before));
                    },
                }
            },
            None => {},
        }
    }
    add_unknown(parsed, specs.unknown_limit(), name);
    None
}

/// Takes a series of short options, `series` being what follows the `-`.
fn parse_cluster(
    specs: &OptSpecs,
    parsed: &mut Args,
    series: &str,
    Ghost(before): Ghost<Progress>,
) -> (pending: Option<Pending>)
    requires
        before.args == old(parsed)@,
        before.mode is Options,
    ensures
        final(parsed)@ == cluster_step(specs@, before, series@).args,
        mode_of(pending) == cluster_step(specs@, before, series@).mode,
{
    let len = series.unicode_len();
    let ghost mut cur = before;
    let mut i: usize = 0;
    assert(series@.skip(0) =~= series@);
    while i < len
        invariant
            0 <= i <= len == series@.len(),
            cur.args == parsed@,
            cur.mode is Options,
            cluster_step(specs@, before, series@) == cluster_step(specs@, cur, series@.skip(i as int)),
        decreases len - i,
    {
        let ghost left = series@.skip(i as int);
        let name = series.substring_char(i, i + 1);
        proof {
            assert(name@ =~= seq![left[0]]);
            assert(left.skip(1) =~= series@.skip(i + 1));
        }
        let found = if is_valid_short_option_name(name) {
            specs.get_short_option_match(name)
        } else {
            None
        };
        match found {
            Some(spec) => {
                let takes_value = match spec.value_type {
                    OptValue::NoValue => false,
                    _ => true,
                };
                if takes_value {
                    let rest = series.substring_char(i + 1, len);
                    let given = if i + 1 < len {
                        Some(rest.to_owned())
                    } else {
                        None
                    };
                    return take_found(specs, parsed, spec, name.to_owned(), given, Ghost(cur));
                }
                let none = take_found(specs, parsed, spec, name.to_owned(), None, Ghost(cur));
                proof {
                    cur = found_step(specs@, cur, spec@, name@, None);
                }
            },
            None => {
                add_unknown(parsed, specs.unknown_limit(), name.to_owned());
                proof {
                    cur = cur.unknown(specs@, name@);
                }
            },
        }
        i = i + 1;
    }
    None
}

/// Whether every limit is reached.
fn is_full(specs: &OptSpecs, parsed: &Args) -> (full: bool)
    ensures
        full == parsed@.is_full(specs@),
{
    parsed.options.len() >= specs.option_limit() as usize && parsed.other.len()
        >= specs.other_limit() as usize && parsed.unknown.len() >= specs.unknown_limit() as usize
}

/// Parses the command line that `iter` yields.
///
/// `iter` must come to an end: the two conditions say so in the terms in
/// which vstd speaks of iterators, and the iterators of `Vec`, slices and
/// ranges meet them.
///
/// Nothing is an error. What looks like an option and is not declared is
/// listed in [`Args::unknown`], and an option that requires a value and
/// stands last has none.
pub fn parse<I>(specs: &OptSpecs, iter: I) -> (parsed: Args) where I: Iterator<Item = String>
    requires
        iter.obeys_prophetic_iter_laws(),
        iter.decrease() is Some,
    ensures
        parsed@ == parse_spec(specs@, texts(iter.remaining())),
{
    let ghost all = texts(iter.remaining());
    let mut tokens = iter;
    let ghost mut seen: Seq<Seq<char>> = Seq::empty();
    let ghost mut cur = Progress::start();
    let mut parsed = Args::new();
    proof {
        assert(seen + texts(tokens.remaining()) =~= all);
    }
    loop
        invariant_except_break
            cur.mode is Options,
        invariant
            tokens.obeys_prophetic_iter_laws(),
            tokens.decrease() is Some,
            seen + texts(tokens.remaining()) == all,
            cur == run(specs@, Progress::start(), seen),
            cur.args == parsed@,
            all == texts(iter.remaining()),
        ensures
            cur.mode is Rest || parsed@.is_full(specs@) || (cur.mode is Options
                && tokens.remaining().len() == 0),
        decreases tokens.decrease()->0,
    {
        if is_full(specs, &parsed) {
            break;
        }
        let ghost left = tokens.remaining();
        let arg = match tokens.next() {
            Some(arg) => arg,
            None => {
                break;
            },
        };
        proof {
            assert(texts(left) =~= seq![arg@] + texts(tokens.remaining()));
            assert(seen.push(arg@) + texts(tokens.remaining()) =~= seen + texts(left));
            lemma_run_push(specs@, Progress::start(), seen, arg@);
            seen = seen.push(arg@);
        }
        let pending = if is_option_terminator(arg.as_str()) {
            proof {
                cur = step(specs@, cur, arg@);
            }
            break;
        } else if is_long_option_prefix(arg.as_str()) {
            let pending = parse_long(specs, &mut parsed, arg.as_str(), Ghost(cur));
            proof {
                cur = step(specs@, cur, arg@);
            }
            pending
        } else if is_short_option_prefix(arg.as_str()) {
            let series = get_short_option_series(arg.as_str());
            let pending = parse_cluster(specs, &mut parsed, series.as_str(), Ghost(cur));
            proof {
                cur = step(specs@, cur, arg@);
            }
            pending
        } else {
            add_other(&mut parsed, specs.other_limit(), arg);
            proof {
                cur = step(specs@, cur, arg@);
            }
            if !specs.is_flag(OptFlags::OptionsEverywhere) {
                break;
            }
            None
        };
        match pending {
            Some(waiting) => {
                let ghost left = tokens.remaining();
                let value = tokens.next();
                let Pending { id, name, non_empty } = waiting;
                match value {
                    Some(text) => {
                        proof {
                            assert(texts(left) =~= seq![text@] + texts(tokens.remaining()));
                            assert(seen.push(text@) + texts(tokens.remaining()) =~= seen + texts(
                                left,
                            ));
                            lemma_run_push(specs@, Progress::start(), seen, text@);
                            seen = seen.push(text@);
                            cur = step(specs@, cur, text@);
                        }
                        let value = settle_value(Some(text), non_empty);
                        add_option(
                            &mut parsed,
                            specs.option_limit(),
                            Opt { id, name, value_required: true, value },
                        );
                    },
                    None => {
                        proof {
                            assert(seen =~= all);
                        }
                        add_option(
                            &mut parsed,
                            specs.option_limit(),
                            Opt { id, name, value_required: true, value: None },
                        );
                        return parsed;
                    },
                }
            },
            None => {},
        }
    }
    loop
        invariant
            tokens.obeys_prophetic_iter_laws(),
            tokens.decrease() is Some,
            seen + texts(tokens.remaining()) == all,
            cur == run(specs@, Progress::start(), seen),
            cur.args == parsed@,
            cur.mode is Rest || parsed@.is_full(specs@) || (cur.mode is Options
                && tokens.remaining().len() == 0),
        ensures
            parsed@ == parse_spec(specs@, all),
        decreases tokens.decrease()->0,
    {
        if parsed.other.len() >= specs.other_limit() as usize {
            proof {
                let rest = texts(tokens.remaining());
                lemma_run_add(specs@, Progress::start(), seen, rest);
                if cur.mode is Rest {
                    lemma_run_rest_full(specs@, cur, rest);
                } else if parsed@.is_full(specs@) {
                    lemma_run_full(specs@, cur, rest);
                } else {
                    assert(seen =~= all);
                }
            }
            break;
        }
        let ghost left = tokens.remaining();
        match tokens.next() {
            Some(text) => {
                proof {
                    assert(texts(left) =~= seq![text@] + texts(tokens.remaining()));
                    assert(seen.push(text@) + texts(tokens.remaining()) =~= seen + texts(left));
                    lemma_run_push(specs@, Progress::start(), seen, text@);
                    seen = seen.push(text@);
                    cur = step(specs@, cur, text@);
                }
                add_other(&mut parsed, specs.other_limit(), text);
            },
            None => {
                proof {
                    assert(seen =~= all);
                }
                break;
            },
        }
    }
    parsed
}

impl OptSpecs {
    /// Parses the command line `args`, the program's own name left out.
    ///
    /// See [`parse`], which does the same for any iterator that ends.
    pub fn getopt(&self, args: Vec<String>) -> (parsed: Args)
        ensures
            parsed@ == parse_spec(self@, texts(args@)),
    {
        parse(self, args.into_iter())
    }
}

} // verus!
