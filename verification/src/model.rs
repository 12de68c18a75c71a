//! What parsing a command line means.
//!
//! The tokens are taken one by one, from the first to the last. Between two
//! tokens the parser is in one of three modes ([`Mode`]): it looks for
//! options, it waits for the value of the option it has just read, or it
//! takes everything that is left as an ordinary argument. The mode and the
//! token decide what the token is taken for ([`role`]), and [`step`] says
//! what that adds to the result. [`parse_spec`] is the result after the
//! last token.
//!
//! A limit never changes how a token is read, only whether what it yields
//! is kept. [`Progress::clipped`] records that something was not.

use vstd::prelude::*;
use crate::args::{ArgsView, OptView};
use crate::grammar::{
    is_long_form, is_long_name, is_short_char, is_short_form, is_terminator, long_equal_value,
    long_has_equal_sign, long_name, short_series,
};
use crate::registry::{OptFlags, OptSpecView, OptSpecsView};

verus! {

/// What the parser expects of the next token.
pub enum Mode {
    /// An option, the terminator or an ordinary argument.
    Options,
    /// The value of the option called `name`, declared under `id`.
    Value { id: Seq<char>, name: Seq<char>, non_empty: bool },
    /// An ordinary argument, whatever the token looks like.
    Rest,
}

/// What a token is taken for.
pub enum Role {
    /// The value of the option read before it.
    Value,
    /// The token `--` that ends option parsing. It yields nothing.
    Terminator,
    /// A long option.
    Long,
    /// A series of short options.
    Cluster,
    /// An ordinary argument.
    Positional,
}

/// The parser between two tokens.
pub struct Progress {
    /// What is expected of the next token.
    pub mode: Mode,
    /// What has been collected.
    pub args: ArgsView,
    /// Whether a limit has kept something out of `args`.
    pub clipped: bool,
}

/// The value an option ends up with: an empty text is no value for an
/// option that wants a value with something in it.
pub open spec fn settle(given: Option<Seq<char>>, non_empty: bool) -> Option<Seq<char>> {
    match given {
        Some(text) => if non_empty && text.len() == 0 {
            None
        } else {
            Some(text)
        },
        None => None,
    }
}

/// The declared option that a long name on the command line stands for.
pub open spec fn long_lookup(specs: OptSpecsView, name: Seq<char>) -> Option<OptSpecView> {
    if !is_long_name(name) {
        None
    } else if specs.flags.contains(OptFlags::PrefixMatchLongOptions) {
        specs.long_prefix_match(name)
    } else {
        specs.long_match(name)
    }
}

/// The declared option that a character in a series of short options
/// stands for.
pub open spec fn short_lookup(specs: OptSpecsView, c: char) -> Option<OptSpecView> {
    if is_short_char(c) {
        specs.short_match(seq![c])
    } else {
        None
    }
}

impl ArgsView {
    /// With one more option, where the limit leaves room.
    pub open spec fn add_option(self, limit: nat, opt: OptView) -> ArgsView {
        if self.options.len() < limit {
            ArgsView { options: self.options.push(opt), ..self }
        } else {
            self
        }
    }

    /// With one more ordinary argument, where the limit leaves room.
    pub open spec fn add_other(self, limit: nat, text: Seq<char>) -> ArgsView {
        if self.other.len() < limit {
            ArgsView { other: self.other.push(text), ..self }
        } else {
            self
        }
    }

    /// With one more unknown option, where the limit leaves room and the
    /// name is not there yet.
    pub open spec fn add_unknown(self, limit: nat, name: Seq<char>) -> ArgsView {
        if self.unknown.len() < limit && !self.unknown.contains(name) {
            ArgsView { unknown: self.unknown.push(name), ..self }
        } else {
            self
        }
    }

    /// No limit leaves room for anything more.
    pub open spec fn is_full(self, specs: OptSpecsView) -> bool {
        &&& self.options.len() >= specs.option_limit
        &&& self.other.len() >= specs.other_limit
        &&& self.unknown.len() >= specs.unknown_limit
    }
}

impl Progress {
    /// Before the first token.
    pub open spec fn start() -> Progress {
        Progress { mode: Mode::Options, args: ArgsView::empty(), clipped: false }
    }

    /// In another mode.
    pub open spec fn in_mode(self, mode: Mode) -> Progress {
        Progress { mode, ..self }
    }

    /// After an option was read.
    pub open spec fn option(self, specs: OptSpecsView, opt: OptView) -> Progress {
        Progress {
            args: self.args.add_option(specs.option_limit, opt),
            clipped: self.clipped || self.args.options.len() >= specs.option_limit,
            ..self
        }
    }

    /// After an ordinary argument was read.
    pub open spec fn other(self, specs: OptSpecsView, text: Seq<char>) -> Progress {
        Progress {
            args: self.args.add_other(specs.other_limit, text),
            clipped: self.clipped || self.args.other.len() >= specs.other_limit,
            ..self
        }
    }

    /// After an unknown option was read.
    pub open spec fn unknown(self, specs: OptSpecsView, name: Seq<char>) -> Progress {
        Progress {
            args: self.args.add_unknown(specs.unknown_limit, name),
            clipped: self.clipped || (self.args.unknown.len() >= specs.unknown_limit
                && !self.args.unknown.contains(name)),
            ..self
        }
    }

    /// After the token that was waited for as a value has come.
    pub open spec fn value_arrives(self, specs: OptSpecsView, token: Seq<char>) -> Progress {
        match self.mode {
            Mode::Value { id, name, non_empty } => self.in_mode(Mode::Options).option(
                specs,
                OptView { id, name, value_required: true, value: settle(Some(token), non_empty) },
            ),
            _ => self,
        }
    }
}

/// What a token is taken for in a given mode.
pub open spec fn role(mode: Mode, token: Seq<char>) -> Role {
    match mode {
        Mode::Value { .. } => Role::Value,
        Mode::Rest => Role::Positional,
        Mode::Options => if is_terminator(token) {
            Role::Terminator
        } else if is_long_form(token) {
            Role::Long
        } else if is_short_form(token) {
            Role::Cluster
        } else {
            Role::Positional
        },
    }
}

/// What an option that was found with the name `name` and the inline value
/// `given` yields. `given` is the text written after `=` or behind the
/// short option's character, if there is any.
pub open spec fn found_step(
    specs: OptSpecsView,
    p: Progress,
    spec: OptSpecView,
    name: Seq<char>,
    given: Option<Seq<char>>,
) -> Progress {
    let non_empty = spec.value_type.is_non_empty();
    if spec.value_type.is_required() {
        if given is Some {
            p.option(
                specs,
                OptView { id: spec.id, name, value_required: true, value: settle(given, non_empty) },
            )
        } else {
            p.in_mode(Mode::Value { id: spec.id, name, non_empty })
        }
    } else {
        p.option(
            specs,
            OptView { id: spec.id, name, value_required: false, value: settle(given, non_empty) },
        )
    }
}

/// What a long option yields.
pub open spec fn long_step(specs: OptSpecsView, p: Progress, token: Seq<char>) -> Progress {
    let name = long_name(token);
    match long_lookup(specs, name) {
        None => p.unknown(specs, name),
        Some(spec) => {
            if !long_has_equal_sign(token) {
                found_step(specs, p, spec, name, None)
            } else if spec.value_type.is_required() || spec.value_type.is_optional() {
                found_step(specs, p, spec, name, Some(long_equal_value(token)))
            } else {
                p.unknown(specs, name.push('='))
            }
        },
    }
}

/// What a series of short options yields. An option that takes a value
/// takes the rest of the series for it.
pub open spec fn cluster_step(specs: OptSpecsView, p: Progress, series: Seq<char>) -> Progress
    decreases series.len(),
{
    if series.len() == 0 {
        p
    } else {
        let c = series[0];
        let rest = series.skip(1);
        match short_lookup(specs, c) {
            None => cluster_step(specs, p.unknown(specs, seq![c]), rest),
            Some(spec) => {
                if spec.value_type.is_required() || spec.value_type.is_optional() {
                    found_step(
                        specs,
                        p,
                        spec,
                        seq![c],
                        if rest.len() > 0 {
                            Some(rest)
                        } else {
                            None
                        },
                    )
                } else {
                    cluster_step(specs, found_step(specs, p, spec, seq![c], None), rest)
                }
            },
        }
    }
}

/// What one token yields.
pub open spec fn step(specs: OptSpecsView, p: Progress, token: Seq<char>) -> Progress {
    match role(p.mode, token) {
        Role::Value => p.value_arrives(specs, token),
        Role::Terminator => p.in_mode(Mode::Rest),
        Role::Long => long_step(specs, p, token),
        Role::Cluster => cluster_step(specs, p, short_series(token)),
        Role::Positional => {
            if p.mode is Options && specs.flags.contains(OptFlags::OptionsEverywhere) {
                p.other(specs, token)
            } else {
                p.other(specs, token).in_mode(Mode::Rest)
            }
        },
    }
}

/// The parser after the tokens `tokens`, having begun at `p`.
pub open spec fn run(specs: OptSpecsView, p: Progress, tokens: Seq<Seq<char>>) -> Progress
    decreases tokens.len(),
{
    if tokens.len() == 0 {
        p
    } else {
        step(specs, run(specs, p, tokens.drop_last()), tokens.last())
    }
}

/// The end of the command line: an option that still waits for its value
/// has none.
pub open spec fn finish(specs: OptSpecsView, p: Progress) -> Progress {
    match p.mode {
        Mode::Value { id, name, non_empty } => p.in_mode(Mode::Options).option(
            specs,
            OptView { id, name, value_required: true, value: None },
        ),
        _ => p,
    }
}

/// The parser at the end of the command line `tokens`.
pub open spec fn outcome(specs: OptSpecsView, tokens: Seq<Seq<char>>) -> Progress {
    finish(specs, run(specs, Progress::start(), tokens))
}

/// What parsing the command line `tokens` returns.
pub open spec fn parse_spec(specs: OptSpecsView, tokens: Seq<Seq<char>>) -> ArgsView {
    outcome(specs, tokens).args
}

/// The mode in which the token at `at` is read.
pub open spec fn mode_at(specs: OptSpecsView, tokens: Seq<Seq<char>>, at: int) -> Mode {
    run(specs, Progress::start(), tokens.take(at)).mode
}

/// What the token at `at` is taken for.
pub open spec fn role_at(specs: OptSpecsView, tokens: Seq<Seq<char>>, at: int) -> Role {
    role(mode_at(specs, tokens, at), tokens[at])
}

/// One more token is one more step.
pub proof fn lemma_run_push(
    specs: OptSpecsView,
    p: Progress,
    tokens: Seq<Seq<char>>,
    token: Seq<char>,
)
    ensures
        run(specs, p, tokens.push(token)) == step(specs, run(specs, p, tokens), token),
{
    assert(tokens.push(token).drop_last() =~= tokens);
}

/// Running over two pieces, one after the other, is running over both.
pub proof fn lemma_run_add(
    specs: OptSpecsView,
    p: Progress,
    first: Seq<Seq<char>>,
    second: Seq<Seq<char>>,
)
    ensures
        run(specs, p, first + second) == run(specs, run(specs, p, first), second),
    decreases second.len(),
{
    if second.len() == 0 {
        assert(first + second =~= first);
    } else {
        lemma_run_add(specs, p, first, second.drop_last());
        assert((first + second).drop_last() =~= first + second.drop_last());
        assert((first + second).last() == second.last());
    }
}

/// A series of short options adds nothing where nothing more can be kept.
pub proof fn lemma_cluster_full(specs: OptSpecsView, p: Progress, series: Seq<char>)
    requires
        p.args.is_full(specs),
    ensures
        cluster_step(specs, p, series).args == p.args,
    decreases series.len(),
{
    if series.len() > 0 {
        let c = series[0];
        let rest = series.skip(1);
        match short_lookup(specs, c) {
            None => {
                lemma_cluster_full(specs, p.unknown(specs, seq![c]), rest);
            },
            Some(spec) => {
                if !(spec.value_type.is_required() || spec.value_type.is_optional()) {
                    lemma_cluster_full(specs, found_step(specs, p, spec, seq![c], None), rest);
                }
            },
        }
    }
}

/// Once every limit is reached, the rest of the command line adds nothing.
pub proof fn lemma_run_full(specs: OptSpecsView, p: Progress, tokens: Seq<Seq<char>>)
    requires
        p.args.is_full(specs),
    ensures
        run(specs, p, tokens).args == p.args,
        finish(specs, run(specs, p, tokens)).args == p.args,
    decreases tokens.len(),
{
    if tokens.len() > 0 {
        lemma_run_full(specs, p, tokens.drop_last());
        let q = run(specs, p, tokens.drop_last());
        lemma_cluster_full(specs, q, short_series(tokens.last()));
    }
}

/// Behind the end of option parsing, once the limit on ordinary arguments
/// is reached, the rest of the command line adds nothing.
pub proof fn lemma_run_rest_full(specs: OptSpecsView, p: Progress, tokens: Seq<Seq<char>>)
    requires
        p.mode is Rest,
        p.args.other.len() >= specs.other_limit,
    ensures
        run(specs, p, tokens).args == p.args,
        run(specs, p, tokens).mode is Rest,
        finish(specs, run(specs, p, tokens)).args == p.args,
    decreases tokens.len(),
{
    if tokens.len() > 0 {
        lemma_run_rest_full(specs, p, tokens.drop_last());
    }
}

} // verus!
