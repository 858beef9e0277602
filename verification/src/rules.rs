//! Version rules and the selection they make among the versions on offer.

use crate::pattern::{compile, is_match, pattern_compiles, pattern_matches, regex_accepts};
use crate::versions::{
    comes_before, increasing, lemma_increasing_no_duplicates, lemma_insert_increasing,
    lemma_precedes_total, lemma_precedes_transitive, lemma_sorted_is, precedes, sorted, str_equal,
};
use vstd::prelude::*;
use vstd::string::StringExecFns;

verus! {

/// A rule as the contracts see it.
pub struct RuleSpec {
    /// The regular expression that a version has to match.
    pub pattern: Seq<char>,
    /// Whether the version that the rule selects becomes the default.
    pub default: bool,
    /// The fragments of which none may match, if the rule has any.
    pub exclude: Option<Seq<Seq<char>>>,
}

/// The fragments `parts`, with a `|` between each two of them.
pub open spec fn alternation(parts: Seq<Seq<char>>) -> Seq<char>
    decreases parts.len(),
{
    if parts.len() == 0 {
        Seq::empty()
    } else if parts.len() == 1 {
        parts[0]
    } else {
        alternation(parts.drop_last()) + seq!['|'] + parts.last()
    }
}

/// The first of `items` whose flag in `keep` is set. An item without a flag
/// counts as not kept.
pub open spec fn first_where(items: Seq<Seq<char>>, keep: Seq<bool>) -> Option<Seq<char>>
    decreases items.len(),
{
    if items.len() == 0 || keep.len() == 0 {
        None
    } else if keep[0] {
        Some(items[0])
    } else {
        first_where(items.drop_first(), keep.drop_first())
    }
}

impl RuleSpec {
    /// The one expression that stands for all the exclude fragments.
    pub open spec fn excluded(self) -> Option<Seq<char>> {
        match self.exclude {
            Some(parts) => Some(alternation(parts)),
            None => None,
        }
    }

    /// The text of the first expression of the rule that does not compile: the
    /// pattern, or else the joined exclude fragments.
    pub open spec fn fault(self) -> Option<Seq<char>> {
        if !pattern_compiles(self.pattern) {
            Some(self.pattern)
        } else if self.excluded() is Some && !pattern_compiles(self.excluded().unwrap()) {
            self.excluded()
        } else {
            None
        }
    }

    /// Whether the rule accepts `version`: the pattern matches somewhere in it,
    /// and the exclude fragments, if there are any, match nowhere in it.
    pub open spec fn accepts(self, version: Seq<char>) -> bool {
        &&& pattern_matches(self.pattern, version)
        &&& self.excluded() matches Some(joined) ==> !pattern_matches(joined, version)
    }

    /// For each of `available`, whether the rule accepts it.
    pub open spec fn verdicts(self, available: Seq<Seq<char>>) -> Seq<bool> {
        Seq::new(available.len(), |i: int| self.accepts(available[i]))
    }

    /// The version that the rule selects: the first of `available` that it
    /// accepts.
    pub open spec fn selects(self, available: Seq<Seq<char>>) -> Option<Seq<char>> {
        first_where(available, self.verdicts(available))
    }

    /// The versions on offer that match the pattern, in their order.
    pub open spec fn matching_of(self, available: Seq<Seq<char>>) -> Seq<Seq<char>> {
        available.filter(matched_by(self.pattern))
    }

    /// The matching versions that are left once those are taken out that the
    /// exclude fragments match.
    pub open spec fn remaining_of(self, available: Seq<Seq<char>>) -> Seq<Seq<char>> {
        match self.excluded() {
            Some(joined) => self.matching_of(available).filter(spared_by(joined)),
            None => self.matching_of(available),
        }
    }
}

/// The test for versions in which `pattern` matches.
pub open spec fn matched_by(pattern: Seq<char>) -> spec_fn(Seq<char>) -> bool {
    |version: Seq<char>| pattern_matches(pattern, version)
}

/// The test for versions in which `pattern` does not match.
pub open spec fn spared_by(pattern: Seq<char>) -> spec_fn(Seq<char>) -> bool {
    |version: Seq<char>| !pattern_matches(pattern, version)
}

/// The test for versions that `rule` accepts.
pub open spec fn accepted_by(rule: RuleSpec) -> spec_fn(Seq<char>) -> bool {
    |version: Seq<char>| rule.accepts(version)
}

/// Filtering for the pattern and then against the exclude fragments leaves
/// the versions that the rule accepts.
pub proof fn lemma_remaining_are_accepted(rule: RuleSpec, available: Seq<Seq<char>>)
    ensures
        rule.remaining_of(available) == available.filter(accepted_by(rule)),
    decreases available.len(),
{
    reveal(Seq::filter);
    if available.len() > 0 {
        let earlier = available.drop_last();
        let last = available.last();
        lemma_remaining_are_accepted(rule, earlier);
        assert(available == earlier.push(last));
        earlier.lemma_filter_push(last, matched_by(rule.pattern));
        earlier.lemma_filter_push(last, accepted_by(rule));
        if let Some(joined) = rule.excluded() {
            earlier.filter(matched_by(rule.pattern)).lemma_filter_push(last, spared_by(joined));
        }
    }
}

/// Selecting is what filtering and taking the first comes to: a rule selects
/// the first of the versions that are left when those on offer are filtered
/// for the pattern and then against the exclude fragments, and nothing where
/// none is left.
pub proof fn lemma_selects_first_remaining(rule: RuleSpec, available: Seq<Seq<char>>)
    ensures
        rule.selects(available) == if rule.remaining_of(available).len() > 0 {
            Some(rule.remaining_of(available)[0])
        } else {
            None
        },
    decreases available.len(),
{
    lemma_remaining_are_accepted(rule, available);
    if available.len() == 0 {
        reveal(Seq::filter);
    } else {
        let first = seq![available[0]];
        let rest = available.drop_first();
        assert(available == first + rest);
        Seq::filter_distributes_over_add(first, rest, accepted_by(rule));
        assert(first.filter(accepted_by(rule)) == if rule.accepts(available[0]) {
            first
        } else {
            Seq::<Seq<char>>::empty()
        }) by {
            reveal(Seq::filter);
            assert(first.drop_last() == Seq::<Seq<char>>::empty());
            assert(first.drop_last().filter(accepted_by(rule)) == Seq::<Seq<char>>::empty());
        }
        assert(rule.verdicts(available).drop_first() == rule.verdicts(rest));
        lemma_remaining_are_accepted(rule, rest);
        lemma_selects_first_remaining(rule, rest);
    }
}

/// What `first_where` finds is the item at the first set flag; it finds
/// nothing only where no item has its flag set.
pub proof fn lemma_first_where(items: Seq<Seq<char>>, keep: Seq<bool>)
    ensures
        match first_where(items, keep) {
            Some(item) => exists|i: int|
                0 <= i < items.len() && i < keep.len() && #[trigger] keep[i] && items[i] == item
                    && forall|j: int| 0 <= j < i ==> !#[trigger] keep[j],
            None => forall|i: int| 0 <= i < items.len() && i < keep.len() ==> !#[trigger] keep[i],
        },
    decreases items.len(),
{
    if items.len() == 0 || keep.len() == 0 {
    } else if keep[0] {
    } else {
        let rest = items.drop_first();
        let flags = keep.drop_first();
        lemma_first_where(rest, flags);
        match first_where(rest, flags) {
            Some(item) => {
                let i = choose|i: int|
                    0 <= i < rest.len() && i < flags.len() && #[trigger] flags[i] && rest[i] == item
                        && forall|j: int| 0 <= j < i ==> !#[trigger] flags[j];
                assert(keep[i + 1] && items[i + 1] == item);
                assert forall|j: int| 0 <= j < i + 1 implies !#[trigger] keep[j] by {
                    if j > 0 {
                        assert(!flags[j - 1]);
                    }
                }
            },
            None => {
                assert forall|i: int| 0 <= i < items.len() && i < keep.len() implies !#[trigger] keep[i] by {
                    if i > 0 {
                        assert(!flags[i - 1]);
                    }
                }
            },
        }
    }
}

/// A rule selects the first version on offer that it accepts, and selects
/// nothing only where it accepts none of them.
pub proof fn lemma_selects_first_accepted(rule: RuleSpec, available: Seq<Seq<char>>)
    ensures
        match rule.selects(available) {
            Some(version) => exists|i: int|
                0 <= i < available.len() && #[trigger] available[i] == version && rule.accepts(
                    version,
                ) && forall|j: int| 0 <= j < i ==> !rule.accepts(#[trigger] available[j]),
            None => forall|i: int| 0 <= i < available.len() ==> !rule.accepts(#[trigger] available[i]),
        },
{
    let keep = rule.verdicts(available);
    lemma_first_where(available, keep);
    match rule.selects(available) {
        Some(version) => {
            let i = choose|i: int|
                0 <= i < available.len() && i < keep.len() && #[trigger] keep[i] && available[i]
                    == version && forall|j: int| 0 <= j < i ==> !#[trigger] keep[j];
            assert(available[i] == version && rule.accepts(version));
            assert forall|j: int| 0 <= j < i implies !rule.accepts(#[trigger] available[j]) by {
                assert(!keep[j]);
            }
        },
        None => {
            assert forall|i: int| 0 <= i < available.len() implies !rule.accepts(
                #[trigger] available[i],
            ) by {
                assert(!keep[i]);
            }
        },
    }
}

/// A rule that selects at most one of the versions on offer.
#[derive(Debug, Clone, PartialEq, Eq)]
pub struct Version {
    pub pattern: String,
    pub default: Option<bool>,
    pub exclude: Option<Vec<String>>,
}

impl View for Version {
    type V = RuleSpec;

    open spec fn view(&self) -> RuleSpec {
        RuleSpec {
            pattern: self.pattern@,
            default: self.default == Some(true),
            exclude: self.exclude.deep_view(),
        }
    }
}

/// A regular expression of a rule did not compile.
#[derive(Debug, Clone, PartialEq, Eq)]
pub struct InvalidRegex {
    /// The candidate whose rule it is.
    pub candidate: String,
    /// The text that did not compile.
    pub pattern: String,
}

impl InvalidRegex {
    /// The message that names the candidate and the text that did not
    /// compile.
    pub fn message(&self) -> (text: String)
        ensures
            text@ == "Invalid regex for "@ + self.candidate@ + ": "@ + self.pattern@,
    {
        let mut text = String::from_str("Invalid regex for ");
        text.append(self.candidate.as_str());
        text.append(": ");
        text.append(self.pattern.as_str());
        text
    }
}

/// Selecting one of the versions on offer.
pub trait VersionMatch {
    /// The rule by which to select.
    spec fn rule(&self) -> RuleSpec;

    /// Selects among `available`, the versions on offer for the candidate
    /// `name`. Fails on a rule with an expression that does not compile.
    fn get_matching(&self, name: String, available: Vec<String>) -> (found: Result<
        Option<String>,
        InvalidRegex,
    >)
        ensures
            found is Err <==> self.rule().fault() is Some,
            found matches Err(error) ==> error.candidate@ == name@ && Some(error.pattern@)
                == self.rule().fault(),
            found matches Ok(version) ==> version.deep_view() == self.rule().selects(
                available.deep_view(),
            ),
    ;
}

/// The first of `items` whose flag in `keep` is set.
pub fn select(items: &Vec<String>, keep: &Vec<bool>) -> (found: Option<String>)
    ensures
        found.deep_view() == first_where(items.deep_view(), keep@),
{
    let mut i: usize = 0;
    proof {
        assert(items.deep_view().skip(0) == items.deep_view());
        assert(keep@.skip(0) == keep@);
    }
    while i < items.len() && i < keep.len()
        invariant
            i <= items.len(),
            i <= keep.len(),
            first_where(items.deep_view().skip(i as int), keep@.skip(i as int)) == first_where(
                items.deep_view(),
                keep@,
            ),
        decreases items.len() - i,
    {
        proof {
            let rest = items.deep_view().skip(i as int);
            let flags = keep@.skip(i as int);
            assert(rest.drop_first() == items.deep_view().skip(i + 1));
            assert(flags.drop_first() == keep@.skip(i + 1));
            assert(rest[0] == items@[i as int]@);
        }
        if keep[i] {
            return Some(items[i].clone());
        }
        i += 1;
    }
    None
}

/// The fragments `parts` joined by `|`.
pub fn join_alternatives(parts: &Vec<String>) -> (joined: String)
    ensures
        joined@ == alternation(parts.deep_view()),
{
    let mut joined = String::new();
    let mut i: usize = 0;
    proof {
        assert(parts.deep_view().take(0) == Seq::<Seq<char>>::empty());
    }
    while i < parts.len()
        invariant
            i <= parts.len(),
            joined@ == alternation(parts.deep_view().take(i as int)),
        decreases parts.len() - i,
    {
        proof {
            let next = parts.deep_view().take(i + 1);
            assert(next.drop_last() == parts.deep_view().take(i as int));
            assert(next.last() == parts@[i as int]@);
            reveal_strlit("|");
            assert("|"@ == seq!['|']);
        }
        if i > 0 {
            joined.append("|");
        }
        joined.append(parts[i].as_str());
        i += 1;
    }
    proof {
        assert(parts.deep_view().take(parts.len() as int) == parts.deep_view());
    }
    joined
}

impl Version {
    /// Selects among `available`, the versions on offer for the candidate
    /// `name`: the first that the rule accepts. Fails on a rule with an
    /// expression that does not compile, the pattern first.
    pub fn matching(&self, name: &str, available: &Vec<String>) -> (found: Result<
        Option<String>,
        InvalidRegex,
    >)
        ensures
            found is Err <==> self@.fault() is Some,
            found matches Err(error) ==> error.candidate@ == name@ && Some(error.pattern@)
                == self@.fault(),
            found matches Ok(version) ==> version.deep_view() == self@.selects(
                available.deep_view(),
            ),
    {
        let pattern = match compile(self.pattern.as_str()) {
            Ok(regex) => regex,
            Err(_) => {
                return Err(
                    InvalidRegex { candidate: name.to_owned(), pattern: self.pattern.clone() },
                );
            },
        };
        let exclude = match &self.exclude {
            Some(parts) => {
                let joined = join_alternatives(parts);
                match compile(joined.as_str()) {
                    Ok(regex) => Some(regex),
                    Err(_) => {
                        return Err(InvalidRegex { candidate: name.to_owned(), pattern: joined });
                    },
                }
            },
            None => None,
        };
        let mut keep: Vec<bool> = Vec::new();
        let mut i: usize = 0;
        while i < available.len()
            invariant
                i <= available.len(),
                keep@ == self@.verdicts(available.deep_view()).take(i as int),
                forall|text: Seq<char>| #[trigger]
                    regex_accepts(pattern, text) == pattern_matches(self.pattern@, text),
                match exclude {
                    Some(regex) => self@.excluded() is Some && forall|text: Seq<char>| #[trigger]
                        regex_accepts(regex, text) == pattern_matches(
                            self@.excluded().unwrap(),
                            text,
                        ),
                    None => self@.excluded() is None,
                },
            decreases available.len() - i,
        {
            let version = available[i].as_str();
            let wanted = is_match(&pattern, version);
            let unwanted = match &exclude {
                Some(regex) => is_match(regex, version),
                None => false,
            };
            keep.push(wanted && !unwanted);
            i += 1;
        }
        proof {
            let verdicts = self@.verdicts(available.deep_view());
            assert(verdicts.take(available.len() as int) == verdicts);
        }
        Ok(select(available, &keep))
    }
}

impl VersionMatch for Version {
    open spec fn rule(&self) -> RuleSpec {
        self@
    }

    fn get_matching(&self, name: String, available: Vec<String>) -> (found: Result<
        Option<String>,
        InvalidRegex,
    >) {
        self.matching(name.as_str(), &available)
    }
}

/// The rules of one candidate, in the order in which they apply.
#[derive(Debug, Clone, PartialEq, Eq)]
pub struct Candidate {
    pub versions: Vec<Version>,
}

impl View for Candidate {
    type V = Seq<RuleSpec>;

    open spec fn view(&self) -> Seq<RuleSpec> {
        Seq::new(self.versions@.len(), |i: int| self.versions@[i]@)
    }
}

/// The names under which `entries` stand, in their order.
pub open spec fn names_of(entries: Seq<(String, Candidate)>) -> Seq<Seq<char>> {
    Seq::new(entries.len(), |i: int| entries[i].0@)
}

/// In an increasing sequence a name stands at one place only.
pub proof fn lemma_one_place(names: Seq<Seq<char>>, at: int)
    requires
        increasing(names),
        0 <= at < names.len(),
    ensures
        names.index_of(names[at]) == at,
{
    lemma_increasing_no_duplicates(names);
    let found = names.index_of(names[at]);
    assert(0 <= found < names.len() && names[found] == names[at]);
}

/// The rules of all candidates: a map from the name of a candidate to its
/// rules. It holds each name once and hands the names out in lexicographic
/// order.
#[derive(Debug)]
pub struct Rules {
    entries: Vec<(String, Candidate)>,
}

impl View for Rules {
    type V = Map<Seq<char>, Seq<RuleSpec>>;

    closed spec fn view(&self) -> Map<Seq<char>, Seq<RuleSpec>> {
        let names = names_of(self.entries@);
        Map::new(
            |name: Seq<char>| names.contains(name),
            |name: Seq<char>| self.entries@[names.index_of(name)].1@,
        )
    }
}

impl Rules {
    #[verifier::type_invariant]
    spec fn in_order(&self) -> bool {
        increasing(names_of(self.entries@))
    }

    /// Rules for no candidate.
    pub fn new() -> (rules: Rules)
        ensures
            rules@ == Map::<Seq<char>, Seq<RuleSpec>>::empty(),
    {
        let entries: Vec<(String, Candidate)> = Vec::new();
        proof {
            assert(names_of(entries@) == Seq::<Seq<char>>::empty());
        }
        let rules = Rules { entries };
        proof {
            assert(rules@ =~= Map::<Seq<char>, Seq<RuleSpec>>::empty());
        }
        rules
    }

    /// Puts the rules of the candidate `name` into the map, in place of those
    /// that stood under that name, if any did.
    pub fn insert(&mut self, name: String, candidate: Candidate)
        ensures
            final(self)@ == old(self)@.insert(name@, candidate@),
    {
        proof {
            use_type_invariant(&*self);
        }
        let ghost before = self.entries@;
        let ghost names = names_of(before);
        let ghost was = self@;
        let mut at: usize = 0;
        while at < self.entries.len() && comes_before(self.entries[at].0.as_str(), name.as_str())
            invariant
                at <= self.entries.len(),
                self.entries@ == before,
                names == names_of(before),
                forall|k: int| 0 <= k < at ==> precedes(#[trigger] names[k], name@),
            decreases self.entries.len() - at,
        {
            proof {
                assert(names[at as int] == before[at as int].0@);
            }
            at += 1;
        }
        let replace = at < self.entries.len() && str_equal(
            self.entries[at].0.as_str(),
            name.as_str(),
        );
        let mut entries: Vec<(String, Candidate)> = Vec::new();
        proof {
            assert(names_of(entries@) == Seq::<Seq<char>>::empty());
        }
        core::mem::swap(&mut self.entries, &mut entries);
        let ghost after: Seq<Seq<char>>;
        if replace {
            entries.set(at, (name, candidate));
            proof {
                after = names_of(entries@);
                assert(names[at as int] == before[at as int].0@);
                assert(after == names);
                assert forall|n: Seq<char>| names.contains(n) implies entries@[names.index_of(n)].1@
                    == was.insert(name@, candidate@)[n] by {
                    let i = names.index_of(n);
                    if n == name@ {
                        lemma_one_place(names, at as int);
                    } else {
                        assert(i != at);
                    }
                }
                assert(names.contains(name@));
            }
        } else {
            proof {
                if at < names.len() {
                    assert(names[at as int] == before[at as int].0@);
                    lemma_precedes_total(names[at as int], name@);
                    assert forall|k: int| at <= k < names.len() implies precedes(
                        name@,
                        #[trigger] names[k],
                    ) by {
                        if k > at {
                            assert(precedes(names[at as int], names[k]));
                            lemma_precedes_transitive(name@, names[at as int], names[k]);
                        }
                    }
                }
                lemma_insert_increasing(names, at as int, name@);
            }
            entries.insert(at, (name, candidate));
            proof {
                after = names_of(entries@);
                assert(after == names.insert(at as int, name@));
                lemma_increasing_no_duplicates(names);
                assert forall|n: Seq<char>| after.contains(n) implies entries@[after.index_of(n)].1@
                    == was.insert(name@, candidate@)[n] by {
                    let j = after.index_of(n);
                    if j == at {
                    } else {
                        let i = if j < at {
                            j
                        } else {
                            j - 1
                        };
                        assert(names[i] == n);
                        assert(names.contains(n));
                        lemma_one_place(names, i);
                        assert(entries@[j] == before[i]);
                        assert(n != name@) by {
                            lemma_one_place(after, at as int);
                        }
                    }
                }
                assert forall|n: Seq<char>|
                    after.contains(n) == (names.contains(n) || n == name@) by {
                    assert(after.to_set().contains(n) == names.to_set().insert(name@).contains(n));
                }
            }
        }
        self.entries = entries;
        proof {
            assert(self@ =~= was.insert(name@, candidate@));
        }
    }

    /// The number of candidates that have rules.
    pub fn len(&self) -> (n: usize)
        ensures
            n == self@.dom().len(),
            self@.dom().finite(),
    {
        proof {
            use_type_invariant(self);
            let names = names_of(self.entries@);
            lemma_increasing_no_duplicates(names);
            names.unique_seq_to_set();
            vstd::seq_lib::seq_to_set_is_finite(names);
            assert(self@.dom() =~= names.to_set());
        }
        self.entries.len()
    }

    /// The rules of the candidate `name`, if it has any.
    pub fn candidate(&self, name: &str) -> (found: Option<&Candidate>)
        ensures
            found is Some <==> self@.dom().contains(name@),
            found matches Some(candidate) ==> candidate@ == self@[name@],
    {
        proof {
            use_type_invariant(self);
        }
        let ghost names = names_of(self.entries@);
        let mut i: usize = 0;
        while i < self.entries.len()
            invariant
                i <= self.entries.len(),
                names == names_of(self.entries@),
                increasing(names),
                forall|j: int| 0 <= j < i ==> names[j] != name@,
            decreases self.entries.len() - i,
        {
            if str_equal(self.entries[i].0.as_str(), name) {
                proof {
                    assert(names[i as int] == name@);
                    assert(names.contains(name@));
                    lemma_one_place(names, i as int);
                }
                return Some(&self.entries[i].1);
            }
            i += 1;
        }
        None
    }

    /// The names of the candidates that have rules, in lexicographic order.
    /// This is the order in which to work through the candidates.
    pub fn sorted_names(&self) -> (names: Vec<String>)
        ensures
            names.deep_view() == sorted(self@.dom()),
    {
        proof {
            use_type_invariant(self);
            assert(self@.dom() =~= names_of(self.entries@).to_set());
            lemma_sorted_is(names_of(self.entries@), self@.dom());
        }
        let mut names: Vec<String> = Vec::new();
        let mut i: usize = 0;
        while i < self.entries.len()
            invariant
                i <= self.entries.len(),
                names.deep_view() == names_of(self.entries@).take(i as int),
            decreases self.entries.len() - i,
        {
            let ghost before = names.deep_view();
            let name = self.entries[i].0.clone();
            names.push(name);
            proof {
                assert(names.deep_view() == before.push(name@));
            }
            i += 1;
        }
        proof {
            assert(names_of(self.entries@).take(self.entries.len() as int) == names_of(
                self.entries@,
            ));
        }
        names
    }
}

} // verus!
