//! The options a program accepts, and how the parser is to behave.
//!
//! An [`OptSpecs`] is built once, by chained calls, and then only read. Its
//! view, [`OptSpecsView`], is what every contract in this crate speaks of:
//! the declared options in the order of their declaration, the set of
//! flags, and the three limits.

use vstd::prelude::*;
use crate::grammar::{
    is_long_name, is_short_name, is_valid_long_option_name, is_valid_short_option_name,
};
use crate::text::{text_eq, text_starts_with};

verus! {

/// Whether an option takes a value, and whether it must.
#[derive(Debug, PartialEq, Eq, Clone, Copy, Structural)]
#[non_exhaustive]
pub enum OptValue {
    /// The option takes no value.
    NoValue,
    /// The option may have a value.
    Optional,
    /// The option may have a value; the empty string is no value.
    OptionalNonEmpty,
    /// The option must have a value.
    Required,
    /// The option must have a value; the empty string is no value.
    RequiredNonEmpty,
}

impl OptValue {
    /// The two kinds that must have a value.
    pub open spec fn is_required(self) -> bool {
        self is Required || self is RequiredNonEmpty
    }

    /// The two kinds that may have a value.
    pub open spec fn is_optional(self) -> bool {
        self is Optional || self is OptionalNonEmpty
    }

    /// The two kinds for which the empty string is no value.
    pub open spec fn is_non_empty(self) -> bool {
        self is OptionalNonEmpty || self is RequiredNonEmpty
    }
}

/// Switches that change how the command line is read.
#[derive(Debug, PartialEq, Eq, Clone, Copy, Structural)]
#[non_exhaustive]
pub enum OptFlags {
    /// Options and other arguments may come in any order. Without this
    /// flag the first argument that is no option ends option parsing.
    OptionsEverywhere,
    /// A long option may be shortened to any beginning of its name, of two
    /// characters or more, that no other declared name shares.
    PrefixMatchLongOptions,
}

/// One declared option.
#[derive(Debug, PartialEq)]
pub struct OptSpec {
    /// The identifier under which the program asks for the option.
    pub id: String,
    /// The name the user writes, without `-` or `--`.
    pub name: String,
    /// Whether the option takes a value.
    pub value_type: OptValue,
}

/// A declared option, with its texts as sequences of characters.
pub struct OptSpecView {
    pub id: Seq<char>,
    pub name: Seq<char>,
    pub value_type: OptValue,
}

impl View for OptSpec {
    type V = OptSpecView;

    open spec fn view(&self) -> OptSpecView {
        OptSpecView { id: self.id@, name: self.name@, value_type: self.value_type }
    }
}

/// The views of a sequence of declared options.
pub open spec fn declared(v: Seq<OptSpec>) -> Seq<OptSpecView> {
    Seq::new(v.len(), |i: int| v[i]@)
}

/// The views of a sequence of borrowed options.
pub open spec fn declared_refs(v: Seq<&OptSpec>) -> Seq<OptSpecView> {
    Seq::new(v.len(), |i: int| v[i]@)
}

/// The view of what a lookup returned.
pub open spec fn found_view(found: Option<&OptSpec>) -> Option<OptSpecView> {
    match found {
        Some(spec) => Some(spec@),
        None => None,
    }
}

/// The first option of `options` that is called `name`.
pub open spec fn first_named(options: Seq<OptSpecView>, name: Seq<char>) -> Option<OptSpecView>
    decreases options.len(),
{
    if options.len() == 0 {
        None
    } else if options[0].name == name {
        Some(options[0])
    } else {
        first_named(options.skip(1), name)
    }
}

/// What an [`OptSpecs`] holds.
pub struct OptSpecsView {
    /// The declared options, in the order of their declaration.
    pub options: Seq<OptSpecView>,
    /// The flags that are set.
    pub flags: Set<OptFlags>,
    /// How many options the parser collects at most.
    pub option_limit: nat,
    /// How many other arguments the parser collects at most.
    pub other_limit: nat,
    /// How many unknown options the parser collects at most.
    pub unknown_limit: nat,
}

impl OptSpecsView {
    /// Nothing declared, no flag set, no limit but the largest count.
    pub open spec fn empty() -> OptSpecsView {
        OptSpecsView {
            options: Seq::empty(),
            flags: Set::empty(),
            option_limit: u32::MAX as nat,
            other_limit: u32::MAX as nat,
            unknown_limit: u32::MAX as nat,
        }
    }

    /// Every identifier has a character, every name is a valid short or
    /// long name, and no name is declared twice.
    pub open spec fn wf(self) -> bool {
        &&& forall|i: int|
            0 <= i < self.options.len() ==> {
                &&& (#[trigger] self.options[i]).id.len() > 0
                &&& (is_short_name(self.options[i].name) || is_long_name(self.options[i].name))
            }
        &&& forall|i: int, j: int|
            0 <= i < j < self.options.len() ==> (#[trigger] self.options[i]).name != (
            #[trigger] self.options[j]).name
    }

    /// Whether an option called `name` is declared.
    pub open spec fn has_name(self, name: Seq<char>) -> bool {
        exists|i: int| 0 <= i < self.options.len() && (#[trigger] self.options[i]).name == name
    }

    /// Whether an option with this identifier and name may be added.
    pub open spec fn can_declare(self, id: Seq<char>, name: Seq<char>) -> bool {
        &&& id.len() > 0
        &&& (is_short_name(name) || is_long_name(name))
        &&& !self.has_name(name)
    }

    /// With one more option, after those already declared.
    pub open spec fn declare(self, id: Seq<char>, name: Seq<char>, value_type: OptValue)
        -> OptSpecsView {
        OptSpecsView { options: self.options.push(OptSpecView { id, name, value_type }), ..self }
    }

    /// With `flag` set.
    pub open spec fn with_flag(self, flag: OptFlags) -> OptSpecsView {
        OptSpecsView { flags: self.flags.insert(flag), ..self }
    }

    /// The declared short option called `name`.
    pub open spec fn short_match(self, name: Seq<char>) -> Option<OptSpecView> {
        if name.len() == 1 {
            first_named(self.options, name)
        } else {
            None
        }
    }

    /// The declared long option called `name`.
    pub open spec fn long_match(self, name: Seq<char>) -> Option<OptSpecView> {
        if name.len() >= 2 {
            first_named(self.options, name)
        } else {
            None
        }
    }

    /// The declared options whose names begin with `head`, in the order of
    /// their declaration.
    pub open spec fn beginning_with(self, head: Seq<char>) -> Seq<OptSpecView> {
        self.options.filter(|o: OptSpecView| head.is_prefix_of(o.name))
    }

    /// The one declared option whose name begins with `head`; none where
    /// no name or more than one name does.
    pub open spec fn long_prefix_match(self, head: Seq<char>) -> Option<OptSpecView> {
        if head.len() >= 2 && self.beginning_with(head).len() == 1 {
            Some(self.beginning_with(head)[0])
        } else {
            None
        }
    }
}

/// Where a name is found, it is the name of a declared option, and where it
/// is not, no declared option has it.
pub proof fn lemma_first_named(options: Seq<OptSpecView>, name: Seq<char>)
    ensures
        match first_named(options, name) {
            Some(spec) => spec.name == name && options.contains(spec),
            None => forall|i: int| 0 <= i < options.len() ==> (#[trigger] options[i]).name != name,
        },
    decreases options.len(),
{
    if options.len() == 0 {
    } else if options[0].name == name {
        assert(options.contains(options[0]));
    } else {
        let rest = options.skip(1);
        lemma_first_named(rest, name);
        match first_named(rest, name) {
            Some(spec) => {
                let k = choose|k: int| 0 <= k < rest.len() && rest[k] == spec;
                assert(options[k + 1] == spec);
            },
            None => {
                assert forall|i: int| 0 <= i < options.len() implies (#[trigger] options[i]).name
                    != name by {
                    if i > 0 {
                        assert(rest[i - 1] == options[i]);
                    }
                }
            },
        }
    }
}

/// Among valid options every declared option is the one that a lookup of
/// its name finds: no other option stands before it under the same name.
pub proof fn lemma_named_once(options: Seq<OptSpecView>, i: int)
    requires
        0 <= i < options.len(),
        forall|a: int, b: int|
            0 <= a < b < options.len() ==> (#[trigger] options[a]).name != (
            #[trigger] options[b]).name,
    ensures
        first_named(options, options[i].name) == Some(options[i]),
    decreases i,
{
    if i > 0 {
        let rest = options.skip(1);
        assert(options[0].name != options[i].name);
        assert forall|a: int, b: int| 0 <= a < b < rest.len() implies (#[trigger] rest[a]).name
            != (#[trigger] rest[b]).name by {
            assert(rest[a] == options[a + 1]);
            assert(rest[b] == options[b + 1]);
        }
        assert(rest[i - 1] == options[i]);
        lemma_named_once(rest, i - 1);
    }
}

/// An option that may be declared leaves the options valid.
pub proof fn lemma_declare_valid(
    specs: OptSpecsView,
    id: Seq<char>,
    name: Seq<char>,
    value_type: OptValue,
)
    requires
        specs.wf(),
        specs.can_declare(id, name),
    ensures
        specs.declare(id, name, value_type).wf(),
        specs.declare(id, name, value_type).has_name(name),
{
    let after = specs.declare(id, name, value_type);
    let last = specs.options.len() as int;
    assert(after.options[last].name == name);
    assert forall|i: int, j: int| 0 <= i < j < after.options.len() implies (
    #[trigger] after.options[i]).name != (#[trigger] after.options[j]).name by {
        assert(after.options[i] == specs.options[i]);
        if j < last {
            assert(after.options[j] == specs.options[j]);
        }
    }
    assert forall|i: int| 0 <= i < after.options.len() implies {
        &&& (#[trigger] after.options[i]).id.len() > 0
        &&& (is_short_name(after.options[i].name) || is_long_name(after.options[i].name))
    } by {
        if i < last {
            assert(after.options[i] == specs.options[i]);
        }
    }
}

/// The options a program accepts, its parser flags and its limits.
///
/// Build one with [`OptSpecs::new`], add to it with
/// [`option`](OptSpecs::option), [`flag`](OptSpecs::flag) and the three
/// `limit_` methods, and hand it to [`getopt`](OptSpecs::getopt).
#[derive(Debug, PartialEq)]
pub struct OptSpecs {
    options: Vec<OptSpec>,
    flags: Vec<OptFlags>,
    option_limit: u32,
    other_limit: u32,
    unknown_limit: u32,
}

impl View for OptSpecs {
    type V = OptSpecsView;

    closed spec fn view(&self) -> OptSpecsView {
        OptSpecsView {
            options: declared(self.options@),
            flags: self.flags@.to_set(),
            option_limit: self.option_limit as nat,
            other_limit: self.other_limit as nat,
            unknown_limit: self.unknown_limit as nat,
        }
    }
}

impl OptSpecs {
    #[verifier::type_invariant]
    spec fn inv(&self) -> bool {
        &&& self@.wf()
        &&& self.flags@.no_duplicates()
    }

    /// An empty set of options: nothing declared, no flag, no limit.
    pub fn new() -> (specs: Self)
        ensures
            specs@ == OptSpecsView::empty(),
            specs@.wf(),
    {
        let specs = OptSpecs {
            options: Vec::new(),
            flags: Vec::new(),
            option_limit: u32::MAX,
            other_limit: u32::MAX,
            unknown_limit: u32::MAX,
        };
        proof {
            assert(specs@.options =~= Seq::empty());
            assert(specs@.flags =~= Set::empty());
        }
        specs
    }

    /// Whether [`option`](OptSpecs::option) may be called with this
    /// identifier and name.
    pub fn is_valid_option(&self, id: &str, name: &str) -> (yes: bool)
        ensures
            yes == self@.can_declare(id@, name@),
    {
        if id.unicode_len() == 0 {
            return false;
        }
        if !is_valid_short_option_name(name) && !is_valid_long_option_name(name) {
            return false;
        }
        let mut i: usize = 0;
        while i < self.options.len()
            invariant
                0 <= i <= self.options.len(),
                forall|j: int| 0 <= j < i ==> (#[trigger] self@.options[j]).name != name@,
            decreases self.options.len() - i,
        {
            if text_eq(self.options[i].name.as_str(), name) {
                assert(self@.options[i as int].name == name@);
                return false;
            }
            i = i + 1;
        }
        true
    }

    /// Declares an option.
    ///
    /// `id` is the identifier under which the program later asks for the
    /// option; several options may share one. `name` is what the user
    /// writes: one character for a short option (`-h`), two or more for a
    /// long one (`--help`). No name may be declared twice.
    pub fn option(self, id: &str, name: &str, value_type: OptValue) -> (specs: Self)
        requires
            self@.can_declare(id@, name@),
        ensures
            specs@ == self@.declare(id@, name@, value_type),
            specs@.wf(),
    {
        proof {
            use_type_invariant(&self);
        }
        let OptSpecs { options, flags, option_limit, other_limit, unknown_limit } = self;
        let mut options = options;
        let ghost before = declared(options@);
        options.push(OptSpec { id: id.to_owned(), name: name.to_owned(), value_type });
        proof {
            assert(declared(options@) =~= before.push(
                OptSpecView { id: id@, name: name@, value_type },
            ));
        }
        OptSpecs { options, flags, option_limit, other_limit, unknown_limit }
    }

    /// Whether `flag` is set.
    pub fn is_flag(&self, flag: OptFlags) -> (set: bool)
        ensures
            set == self@.flags.contains(flag),
    {
        let mut i: usize = 0;
        while i < self.flags.len()
            invariant
                0 <= i <= self.flags.len(),
                forall|j: int| 0 <= j < i ==> self.flags@[j] != flag,
            decreases self.flags.len() - i,
        {
            if self.flags[i] == flag {
                assert(self.flags@.contains(flag));
                return true;
            }
            i = i + 1;
        }
        false
    }

    /// Sets a flag. Setting a flag that is set changes nothing.
    pub fn flag(self, flag: OptFlags) -> (specs: Self)
        ensures
            specs@ == self@.with_flag(flag),
            specs@.wf(),
    {
        proof {
            use_type_invariant(&self);
        }
        if self.is_flag(flag) {
            proof {
                assert(self@.flags.insert(flag) =~= self@.flags);
            }
            self
        } else {
            let OptSpecs { options, flags, option_limit, other_limit, unknown_limit } = self;
            let mut flags = flags;
            let ghost before = flags@;
            flags.push(flag);
            proof {
                assert(flags@.to_set() =~= before.to_set().insert(flag)) by {
                    assert forall|f: OptFlags| flags@.contains(f) <==> before.contains(f) || f
                        == flag by {
                        if before.contains(f) {
                            let k = choose|k: int| 0 <= k < before.len() && before[k] == f;
                            assert(flags@[k] == f);
                        }
                        if f == flag {
                            assert(flags@[before.len() as int] == f);
                        }
                    }
                }
            }
            OptSpecs { options, flags, option_limit, other_limit, unknown_limit }
        }
    }

    /// Sets how many options the parser collects at most. What comes after
    /// is parsed and dropped.
    pub fn limit_options(self, limit: u32) -> (specs: Self)
        ensures
            specs@ == (OptSpecsView { option_limit: limit as nat, ..self@ }),
            specs@.wf(),
    {
        proof {
            use_type_invariant(&self);
        }
        let OptSpecs { options, flags, option_limit: _, other_limit, unknown_limit } = self;
        OptSpecs { options, flags, option_limit: limit, other_limit, unknown_limit }
    }

    /// Sets how many other arguments the parser collects at most.
    pub fn limit_other_args(self, limit: u32) -> (specs: Self)
        ensures
            specs@ == (OptSpecsView { other_limit: limit as nat, ..self@ }),
            specs@.wf(),
    {
        proof {
            use_type_invariant(&self);
        }
        let OptSpecs { options, flags, option_limit, other_limit: _, unknown_limit } = self;
        OptSpecs { options, flags, option_limit, other_limit: limit, unknown_limit }
    }

    /// Sets how many distinct unknown options the parser collects at most.
    pub fn limit_unknown_options(self, limit: u32) -> (specs: Self)
        ensures
            specs@ == (OptSpecsView { unknown_limit: limit as nat, ..self@ }),
            specs@.wf(),
    {
        proof {
            use_type_invariant(&self);
        }
        let OptSpecs { options, flags, option_limit, other_limit, unknown_limit: _ } = self;
        OptSpecs { options, flags, option_limit, other_limit, unknown_limit: limit }
    }

    /// The declared options, in the order of their declaration.
    pub fn options(&self) -> (list: &Vec<OptSpec>)
        ensures
            declared(list@) == self@.options,
    {
        &self.options
    }

    /// The flags that are set, each once, in the order in which they were
    /// first set.
    pub fn flags(&self) -> (list: &Vec<OptFlags>)
        ensures
            list@.to_set() == self@.flags,
            list@.no_duplicates(),
    {
        proof {
            use_type_invariant(self);
        }
        &self.flags
    }

    /// How many options the parser collects at most.
    pub fn option_limit(&self) -> (limit: u32)
        ensures
            limit == self@.option_limit,
    {
        self.option_limit
    }

    /// How many other arguments the parser collects at most.
    pub fn other_limit(&self) -> (limit: u32)
        ensures
            limit == self@.other_limit,
    {
        self.other_limit
    }

    /// How many distinct unknown options the parser collects at most.
    pub fn unknown_limit(&self) -> (limit: u32)
        ensures
            limit == self@.unknown_limit,
    {
        self.unknown_limit
    }

    /// The first declared option called `name`.
    fn find_named(&self, name: &str) -> (found: Option<&OptSpec>)
        ensures
            found_view(found) == first_named(self@.options, name@),
    {
        let mut i: usize = 0;
        assert(self@.options.skip(0) =~= self@.options);
        while i < self.options.len()
            invariant
                0 <= i <= self.options.len(),
                first_named(self@.options, name@) == first_named(
                    self@.options.skip(i as int),
                    name@,
                ),
            decreases self.options.len() - i,
        {
            let ghost rest = self@.options.skip(i as int);
            if text_eq(self.options[i].name.as_str(), name) {
                assert(rest[0] == self.options[i as int]@);
                return Some(&self.options[i]);
            }
            proof {
                assert(rest[0] == self.options[i as int]@);
                assert(rest.skip(1) =~= self@.options.skip(i + 1));
            }
            i = i + 1;
        }
        None
    }

    /// Looks up the short option called `name`.
    pub fn get_short_option_match(&self, name: &str) -> (found: Option<&OptSpec>)
        ensures
            found_view(found) == self@.short_match(name@),
    {
        let mut it = name.chars();
        let first = it.next();
        let second = it.next();
        match (first, second) {
            (Some(_), None) => self.find_named(name),
            _ => None,
        }
    }

    /// Looks up the long option called `name`.
    pub fn get_long_option_match(&self, name: &str) -> (found: Option<&OptSpec>)
        ensures
            found_view(found) == self@.long_match(name@),
    {
        let mut it = name.chars();
        let first = it.next();
        let second = it.next();
        match (first, second) {
            (Some(_), Some(_)) => self.find_named(name),
            _ => None,
        }
    }

    /// Looks up the long option whose name begins with `name`. Where the
    /// names of several options do, none is found.
    pub fn get_long_option_prefix_match(&self, name: &str) -> (found: Option<&OptSpec>)
        ensures
            found_view(found) == self@.long_prefix_match(name@),
    {
        let mut it = name.chars();
        let first = it.next();
        let second = it.next();
        if first.is_none() || second.is_none() {
            return None;
        }
        let ghost all = self@.options;
        let ghost begins = |o: OptSpecView| name@.is_prefix_of(o.name);
        let mut result: Option<&OptSpec> = None;
        let mut i: usize = 0;
        proof {
            reveal(Seq::filter);
            assert(all.take(0).filter(begins) =~= Seq::empty());
        }
        while i < self.options.len()
            invariant
                0 <= i <= self.options.len(),
                all == self@.options,
                begins == |o: OptSpecView| name@.is_prefix_of(o.name),
                all.take(i as int).filter(begins) == match result {
                    Some(spec) => seq![spec@],
                    None => Seq::empty(),
                },
            decreases self.options.len() - i,
        {
            let spec = &self.options[i];
            proof {
                assert(all.take(i + 1) =~= all.take(i as int).push(spec@));
                all.take(i as int).lemma_filter_push(spec@, begins);
            }
            if text_starts_with(spec.name.as_str(), name) {
                if result.is_none() {
                    result = Some(spec);
                } else {
                    proof {
                        assert(all =~= all.take(i + 1) + all.skip(i + 1));
                        Seq::filter_distributes_over_add(all.take(i + 1), all.skip(i + 1), begins);
                        assert(all.filter(begins).len() >= 2);
                    }
                    return None;
                }
            }
            i = i + 1;
        }
        proof {
            assert(all.take(i as int) =~= all);
        }
        result
    }

    /// All the long options whose names begin with `name`, in the order of
    /// their declaration; `None` where there is none.
    pub fn get_long_option_prefix_matches(&self, name: &str) -> (found: Option<Vec<&OptSpec>>)
        ensures
            match found {
                Some(list) => {
                    &&& name@.len() >= 2
                    &&& list@.len() > 0
                    &&& declared_refs(list@) == self@.beginning_with(name@)
                },
                None => name@.len() < 2 || self@.beginning_with(name@).len() == 0,
            },
    {
        let mut it = name.chars();
        let first = it.next();
        let second = it.next();
        if first.is_none() || second.is_none() {
            return None;
        }
        let ghost all = self@.options;
        let ghost begins = |o: OptSpecView| name@.is_prefix_of(o.name);
        let mut list: Vec<&OptSpec> = Vec::new();
        let mut i: usize = 0;
        proof {
            reveal(Seq::filter);
            assert(all.take(0).filter(begins) =~= Seq::empty());
            assert(declared_refs(list@) =~= Seq::empty());
        }
        while i < self.options.len()
            invariant
                0 <= i <= self.options.len(),
                all == self@.options,
                begins == |o: OptSpecView| name@.is_prefix_of(o.name),
                all.take(i as int).filter(begins) == declared_refs(list@),
            decreases self.options.len() - i,
        {
            let spec = &self.options[i];
            proof {
                assert(all.take(i + 1) =~= all.take(i as int).push(spec@));
                all.take(i as int).lemma_filter_push(spec@, begins);
            }
            if text_starts_with(spec.name.as_str(), name) {
                let ghost before = list@;
                list.push(spec);
                proof {
                    assert(declared_refs(list@) =~= declared_refs(before).push(spec@));
                }
            }
            i = i + 1;
        }
        proof {
            assert(all.take(i as int) =~= all);
        }
        if list.len() == 0 {
            None
        } else {
            Some(list)
        }
    }
}

impl Default for OptSpecs {
    fn default() -> (specs: Self)
        ensures
            specs@ == OptSpecsView::empty(),
    {
        OptSpecs::new()
    }
}

} // verus!
