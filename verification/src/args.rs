//! What the parser found on a command line, and the questions a program
//! asks of it.
//!
//! Every question is a filter over [`ArgsView::options`], which keeps the
//! order of the command line: the options with one identifier
//! ([`ArgsView::with_id`]), their values ([`ArgsView::values_of`]), and the
//! options that lack a required value ([`ArgsView::missing`]). The first
//! and the last of each are the two ends of the same sequences.

use vstd::prelude::*;
use crate::text::{text_eq, texts};

verus! {

/// One option found on the command line.
#[derive(Debug, PartialEq)]
pub struct Opt {
    /// The identifier under which the option was declared.
    pub id: String,
    /// The name the user wrote, without `-` or `--`.
    pub name: String,
    /// Whether the option was declared to require a value. It says nothing
    /// of whether a value was given.
    pub value_required: bool,
    /// The value given to the option, if any.
    pub value: Option<String>,
}

/// An [`Opt`] with its texts as sequences of characters.
pub struct OptView {
    pub id: Seq<char>,
    pub name: Seq<char>,
    pub value_required: bool,
    pub value: Option<Seq<char>>,
}

impl OptView {
    /// An option that requires a value and has none.
    pub open spec fn lacks_value(self) -> bool {
        self.value_required && self.value is None
    }

    /// The value of the option where it has the identifier `id`.
    pub open spec fn value_under(self, id: Seq<char>) -> Option<Seq<char>> {
        if self.id == id {
            self.value
        } else {
            None
        }
    }
}

/// The view of an optional string.
pub open spec fn text_of(value: Option<String>) -> Option<Seq<char>> {
    match value {
        Some(s) => Some(s@),
        None => None,
    }
}

impl View for Opt {
    type V = OptView;

    open spec fn view(&self) -> OptView {
        OptView {
            id: self.id@,
            name: self.name@,
            value_required: self.value_required,
            value: text_of(self.value),
        }
    }
}

/// The views of a sequence of options.
pub open spec fn opt_views(v: Seq<Opt>) -> Seq<OptView> {
    Seq::new(v.len(), |i: int| v[i]@)
}

/// The views of a sequence of borrowed options.
pub open spec fn opt_ref_views(v: Seq<&Opt>) -> Seq<OptView> {
    Seq::new(v.len(), |i: int| v[i]@)
}

/// The views of a sequence of borrowed strings.
pub open spec fn text_refs(v: Seq<&String>) -> Seq<Seq<char>> {
    Seq::new(v.len(), |i: int| v[i]@)
}

/// The view of an option that a query returned.
pub open spec fn opt_found(found: Option<&Opt>) -> Option<OptView> {
    match found {
        Some(opt) => Some(opt@),
        None => None,
    }
}

/// The view of a value that a query returned.
pub open spec fn text_found(found: Option<&String>) -> Option<Seq<char>> {
    match found {
        Some(s) => Some(s@),
        None => None,
    }
}

/// The first element of `s`, if it has one.
pub open spec fn first_of<A>(s: Seq<A>) -> Option<A> {
    if s.len() > 0 {
        Some(s.first())
    } else {
        None
    }
}

/// The last element of `s`, if it has one.
pub open spec fn last_of<A>(s: Seq<A>) -> Option<A> {
    if s.len() > 0 {
        Some(s.last())
    } else {
        None
    }
}

/// What an [`Args`] holds.
pub struct ArgsView {
    /// The options found, in the order of the command line.
    pub options: Seq<OptView>,
    /// The other arguments, in the order of the command line.
    pub other: Seq<Seq<char>>,
    /// The unknown options, each once, in the order of first occurrence.
    pub unknown: Seq<Seq<char>>,
}

impl ArgsView {
    /// Nothing found.
    pub open spec fn empty() -> ArgsView {
        ArgsView { options: Seq::empty(), other: Seq::empty(), unknown: Seq::empty() }
    }

    /// The options with the identifier `id`.
    pub open spec fn with_id(self, id: Seq<char>) -> Seq<OptView> {
        self.options.filter(|o: OptView| o.id == id)
    }

    /// The values of the options with the identifier `id` that have one.
    pub open spec fn values_of(self, id: Seq<char>) -> Seq<Seq<char>> {
        self.options.filter_map(|o: OptView| o.value_under(id))
    }

    /// The options that require a value and have none.
    pub open spec fn missing(self) -> Seq<OptView> {
        self.options.filter(|o: OptView| o.lacks_value())
    }
}

/// The parsed command line.
///
/// [`OptSpecs::getopt`](crate::registry::OptSpecs::getopt) returns one. The
/// fields may be read directly; the methods answer the usual questions.
#[derive(Debug, PartialEq)]
pub struct Args {
    /// The options found, in the order of the command line.
    pub options: Vec<Opt>,
    /// The arguments that are no options, in the order of the command line.
    pub other: Vec<String>,
    /// What looked like an option and was not declared: the name without
    /// `-` or `--`, each name once. A long option that was given a value
    /// with `=` though it takes none stands here with the `=` behind its
    /// name.
    pub unknown: Vec<String>,
}

impl View for Args {
    type V = ArgsView;

    open spec fn view(&self) -> ArgsView {
        ArgsView {
            options: opt_views(self.options@),
            other: texts(self.other@),
            unknown: texts(self.unknown@),
        }
    }
}

impl Args {
    /// Nothing found.
    pub fn new() -> (args: Self)
        ensures
            args@ == ArgsView::empty(),
    {
        let args = Args { options: Vec::new(), other: Vec::new(), unknown: Vec::new() };
        proof {
            assert(args@.options =~= Seq::empty());
            assert(args@.other =~= Seq::empty());
            assert(args@.unknown =~= Seq::empty());
        }
        args
    }

    /// The options that require a value and were given none, in the order
    /// of the command line.
    ///
    /// An empty value is a value: it counts as missing only for an option
    /// declared with
    /// [`OptValue::RequiredNonEmpty`](crate::registry::OptValue::RequiredNonEmpty),
    /// for which the parser records no value in its place.
    pub fn required_value_missing(&self) -> (found: Vec<&Opt>)
        ensures
            opt_ref_views(found@) == self@.missing(),
    {
        let ghost all = self@.options;
        let ghost lacks = |o: OptView| o.lacks_value();
        let mut found: Vec<&Opt> = Vec::new();
        let mut i: usize = 0;
        proof {
            reveal(Seq::filter);
            assert(all.take(0).filter(lacks) =~= Seq::empty());
            assert(opt_ref_views(found@) =~= Seq::empty());
        }
        while i < self.options.len()
            invariant
                0 <= i <= self.options.len(),
                all == self@.options,
                lacks == |o: OptView| o.lacks_value(),
                all.take(i as int).filter(lacks) == opt_ref_views(found@),
            decreases self.options.len() - i,
        {
            let opt = &self.options[i];
            proof {
                assert(all.take(i + 1) =~= all.take(i as int).push(opt@));
                all.take(i as int).lemma_filter_push(opt@, lacks);
            }
            if opt.value_required && opt.value.is_none() {
                let ghost before = found@;
                found.push(opt);
                proof {
                    assert(opt_ref_views(found@) =~= opt_ref_views(before).push(opt@));
                }
            }
            i = i + 1;
        }
        proof {
            assert(all.take(i as int) =~= all);
        }
        found
    }

    /// Whether an option with the identifier `id` was found.
    pub fn option_exists(&self, id: &str) -> (yes: bool)
        ensures
            yes == (self@.with_id(id@).len() > 0),
    {
        self.options_first(id).is_some()
    }

    /// The options with the identifier `id`, in the order of the command
    /// line.
    pub fn options_all(&self, id: &str) -> (found: Vec<&Opt>)
        ensures
            opt_ref_views(found@) == self@.with_id(id@),
    {
        let ghost all = self@.options;
        let ghost same = |o: OptView| o.id == id@;
        let mut found: Vec<&Opt> = Vec::new();
        let mut i: usize = 0;
        proof {
            reveal(Seq::filter);
            assert(all.take(0).filter(same) =~= Seq::empty());
            assert(opt_ref_views(found@) =~= Seq::empty());
        }
        while i < self.options.len()
            invariant
                0 <= i <= self.options.len(),
                all == self@.options,
                same == |o: OptView| o.id == id@,
                all.take(i as int).filter(same) == opt_ref_views(found@),
            decreases self.options.len() - i,
        {
            let opt = &self.options[i];
            proof {
                assert(all.take(i + 1) =~= all.take(i as int).push(opt@));
                all.take(i as int).lemma_filter_push(opt@, same);
            }
            if text_eq(opt.id.as_str(), id) {
                let ghost before = found@;
                found.push(opt);
                proof {
                    assert(opt_ref_views(found@) =~= opt_ref_views(before).push(opt@));
                }
            }
            i = i + 1;
        }
        proof {
            assert(all.take(i as int) =~= all);
        }
        found
    }

    /// The first option with the identifier `id`.
    pub fn options_first(&self, id: &str) -> (found: Option<&Opt>)
        ensures
            opt_found(found) == first_of(self@.with_id(id@)),
    {
        let ghost all = self@.options;
        let ghost same = |o: OptView| o.id == id@;
        let mut i: usize = 0;
        proof {
            reveal(Seq::filter);
            assert(all.take(0).filter(same) =~= Seq::empty());
        }
        while i < self.options.len()
            invariant
                0 <= i <= self.options.len(),
                all == self@.options,
                same == |o: OptView| o.id == id@,
                all.take(i as int).filter(same).len() == 0,
            decreases self.options.len() - i,
        {
            let opt = &self.options[i];
            proof {
                assert(all.take(i + 1) =~= all.take(i as int).push(opt@));
                all.take(i as int).lemma_filter_push(opt@, same);
            }
            if text_eq(opt.id.as_str(), id) {
                proof {
                    lemma_filter_split(all, same, i + 1);
                }
                return Some(opt);
            }
            i = i + 1;
        }
        proof {
            assert(all.take(i as int) =~= all);
        }
        None
    }

    /// The last option with the identifier `id`.
    pub fn options_last(&self, id: &str) -> (found: Option<&Opt>)
        ensures
            opt_found(found) == last_of(self@.with_id(id@)),
    {
        let ghost all = self@.options;
        let ghost same = |o: OptView| o.id == id@;
        let mut i: usize = self.options.len();
        proof {
            reveal(Seq::filter);
            assert(all.skip(i as int).filter(same) =~= Seq::empty());
        }
        while i > 0
            invariant
                0 <= i <= self.options.len(),
                all == self@.options,
                same == |o: OptView| o.id == id@,
                all.skip(i as int).filter(same).len() == 0,
            decreases i,
        {
            i = i - 1;
            let opt = &self.options[i];
            proof {
                assert(all.skip(i as int) =~= seq![opt@] + all.skip(i + 1));
                all.skip(i + 1).lemma_filter_prepend(opt@, same);
            }
            if text_eq(opt.id.as_str(), id) {
                proof {
                    lemma_filter_split(all, same, i + 1);
                    assert(all.take(i + 1) =~= all.take(i as int).push(opt@));
                    all.take(i as int).lemma_filter_push(opt@, same);
                }
                return Some(opt);
            }
        }
        proof {
            assert(all.skip(0) =~= all);
        }
        None
    }

    /// The values of the options with the identifier `id` that have one,
    /// in the order of the command line.
    pub fn options_value_all(&self, id: &str) -> (found: Vec<&String>)
        ensures
            text_refs(found@) == self@.values_of(id@),
    {
        let ghost all = self@.options;
        let ghost value = |o: OptView| o.value_under(id@);
        let mut found: Vec<&String> = Vec::new();
        let mut i: usize = 0;
        proof {
            assert(all.take(0).filter_map(value) =~= Seq::empty());
            assert(text_refs(found@) =~= Seq::empty());
        }
        while i < self.options.len()
            invariant
                0 <= i <= self.options.len(),
                all == self@.options,
                value == |o: OptView| o.value_under(id@),
                all.take(i as int).filter_map(value) == text_refs(found@),
            decreases self.options.len() - i,
        {
            let opt = &self.options[i];
            proof {
                all.lemma_filter_map_take_succ(value, i as int);
            }
            if text_eq(opt.id.as_str(), id) {
                match &opt.value {
                    Some(s) => {
                        let ghost before = found@;
                        found.push(s);
                        proof {
                            assert(text_refs(found@) =~= text_refs(before) + seq![s@]);
                        }
                    },
                    None => {},
                }
            }
            i = i + 1;
        }
        proof {
            assert(all.take(i as int) =~= all);
        }
        found
    }

    /// The first value given to an option with the identifier `id`.
    pub fn options_value_first(&self, id: &str) -> (found: Option<&String>)
        ensures
            text_found(found) == first_of(self@.values_of(id@)),
    {
        let ghost all = self@.options;
        let ghost value = |o: OptView| o.value_under(id@);
        let mut i: usize = 0;
        proof {
            assert(all.take(0).filter_map(value) =~= Seq::empty());
        }
        while i < self.options.len()
            invariant
                0 <= i <= self.options.len(),
                all == self@.options,
                value == |o: OptView| o.value_under(id@),
                all.take(i as int).filter_map(value).len() == 0,
            decreases self.options.len() - i,
        {
            let opt = &self.options[i];
            proof {
                all.lemma_filter_map_take_succ(value, i as int);
            }
            if text_eq(opt.id.as_str(), id) {
                match &opt.value {
                    Some(s) => {
                        proof {
                            lemma_filter_map_split(all, value, i + 1);
                        }
                        return Some(s);
                    },
                    None => {},
                }
            }
            i = i + 1;
        }
        proof {
            assert(all.take(i as int) =~= all);
        }
        None
    }

    /// The last value given to an option with the identifier `id`.
    pub fn options_value_last(&self, id: &str) -> (found: Option<&String>)
        ensures
            text_found(found) == last_of(self@.values_of(id@)),
    {
        let ghost all = self@.options;
        let ghost value = |o: OptView| o.value_under(id@);
        let mut i: usize = self.options.len();
        proof {
            assert(all.skip(i as int).filter_map(value) =~= Seq::empty());
        }
        while i > 0
            invariant
                0 <= i <= self.options.len(),
                all == self@.options,
                value == |o: OptView| o.value_under(id@),
                all.skip(i as int).filter_map(value).len() == 0,
            decreases i,
        {
            i = i - 1;
            let opt = &self.options[i];
            proof {
                lemma_filter_map_split(all.skip(i as int), value, 1);
                assert(all.skip(i as int).skip(1) =~= all.skip(i + 1));
                assert(all.skip(i as int).take(1) =~= seq![opt@]);
                Seq::lemma_filter_map_singleton(opt@, value);
            }
            if text_eq(opt.id.as_str(), id) {
                match &opt.value {
                    Some(s) => {
                        proof {
                            lemma_filter_map_split(all, value, i + 1);
                            all.lemma_filter_map_take_succ(value, i as int);
                        }
                        return Some(s);
                    },
                    None => {},
                }
            }
        }
        proof {
            assert(all.skip(0) =~= all);
        }
        None
    }
}

/// A filter of a sequence is the filter of a beginning of it followed by
/// the filter of the rest.
pub proof fn lemma_filter_split<A>(s: Seq<A>, keep: spec_fn(A) -> bool, at: int)
    requires
        0 <= at <= s.len(),
    ensures
        s.filter(keep) == s.take(at).filter(keep) + s.skip(at).filter(keep),
{
    assert(s =~= s.take(at) + s.skip(at));
    Seq::filter_distributes_over_add(s.take(at), s.skip(at), keep);
}

/// The same for a filter that also maps what it keeps.
pub proof fn lemma_filter_map_split<A, B>(s: Seq<A>, pick: spec_fn(A) -> Option<B>, at: int)
    requires
        0 <= at <= s.len(),
    ensures
        s.filter_map(pick) == s.take(at).filter_map(pick) + s.skip(at).filter_map(pick),
    decreases s.len() - at,
{
    if at == s.len() {
        assert(s.take(at) =~= s);
        assert(s.skip(at).filter_map(pick) =~= Seq::empty());
        assert(s.filter_map(pick) =~= s.filter_map(pick) + Seq::<B>::empty());
    } else {
        let last = s.last();
        let front = s.drop_last();
        lemma_filter_map_split(front, pick, at);
        assert(front.take(at) =~= s.take(at));
        assert(s.skip(at).drop_last() =~= front.skip(at));
        assert(s.skip(at).last() == last);
        let tail = match pick(last) {
            Some(b) => seq![b],
            None => Seq::empty(),
        };
        assert(s.filter_map(pick) =~= front.filter_map(pick) + tail);
        assert(s.skip(at).filter_map(pick) =~= front.skip(at).filter_map(pick) + tail);
        assert(s.filter_map(pick) =~= s.take(at).filter_map(pick) + s.skip(at).filter_map(
            pick,
        ));
    }
}

} // verus!
