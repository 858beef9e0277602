//! Sets of version identifiers, kept in lexicographic order.

use crate::text::chars_of;
use vstd::prelude::*;

verus! {

/// The lexicographic order of texts by code point: `a` comes strictly before
/// `b`.
pub open spec fn precedes(a: Seq<char>, b: Seq<char>) -> bool
    decreases a.len(),
{
    if b.len() == 0 {
        false
    } else if a.len() == 0 {
        true
    } else if a[0] != b[0] {
        a[0] < b[0]
    } else {
        precedes(a.drop_first(), b.drop_first())
    }
}

/// No text comes before itself.
pub proof fn lemma_precedes_irreflexive(a: Seq<char>)
    ensures
        !precedes(a, a),
    decreases a.len(),
{
    if a.len() > 0 {
        lemma_precedes_irreflexive(a.drop_first());
    }
}

/// Of two different texts one comes before the other.
pub proof fn lemma_precedes_total(a: Seq<char>, b: Seq<char>)
    ensures
        a == b || precedes(a, b) || precedes(b, a),
    decreases a.len(),
{
    if a.len() > 0 && b.len() > 0 && a[0] == b[0] {
        lemma_precedes_total(a.drop_first(), b.drop_first());
        if a.drop_first() == b.drop_first() {
            assert(a =~= seq![a[0]] + a.drop_first());
            assert(b =~= seq![b[0]] + b.drop_first());
        }
    } else if a.len() == 0 && b.len() == 0 {
        assert(a =~= b);
    }
}

/// The order is transitive.
pub proof fn lemma_precedes_transitive(a: Seq<char>, b: Seq<char>, c: Seq<char>)
    requires
        precedes(a, b),
        precedes(b, c),
    ensures
        precedes(a, c),
    decreases a.len(),
{
    if a.len() > 0 && a[0] == b[0] && b[0] == c[0] {
        lemma_precedes_transitive(a.drop_first(), b.drop_first(), c.drop_first());
    }
}

/// Tells whether `a` comes strictly before `b`.
pub fn comes_before(a: &str, b: &str) -> (less: bool)
    ensures
        less == precedes(a@, b@),
{
    let x = chars_of(a);
    let y = chars_of(b);
    let mut i: usize = 0;
    proof {
        assert(x@.skip(0) == x@);
        assert(y@.skip(0) == y@);
    }
    while i < x.len() && i < y.len()
        invariant
            i <= x.len(),
            i <= y.len(),
            x@ == a@,
            y@ == b@,
            precedes(x@.skip(i as int), y@.skip(i as int)) == precedes(x@, y@),
        decreases x.len() - i,
    {
        proof {
            assert(x@.skip(i as int).drop_first() == x@.skip(i + 1));
            assert(y@.skip(i as int).drop_first() == y@.skip(i + 1));
            assert(x@.skip(i as int)[0] == x@[i as int]);
            assert(y@.skip(i as int)[0] == y@[i as int]);
        }
        if x[i] != y[i] {
            return x[i] < y[i];
        }
        i += 1;
    }
    i < y.len()
}

/// Each text of `s` comes strictly before those that follow it.
pub open spec fn increasing(s: Seq<Seq<char>>) -> bool {
    forall|i: int, j: int| 0 <= i < j < s.len() ==> precedes(#[trigger] s[i], #[trigger] s[j])
}

/// The texts of `set` in increasing order.
pub open spec fn sorted(set: Set<Seq<char>>) -> Seq<Seq<char>> {
    choose|s: Seq<Seq<char>>| increasing(s) && s.to_set() == set
}

/// An increasing sequence holds no text twice.
pub proof fn lemma_increasing_no_duplicates(s: Seq<Seq<char>>)
    requires
        increasing(s),
    ensures
        s.no_duplicates(),
{
    assert forall|i: int, j: int| 0 <= i < s.len() && 0 <= j < s.len() && i != j implies s[i]
        != s[j] by {
        lemma_precedes_irreflexive(s[i]);
        if i < j {
            assert(precedes(s[i], s[j]));
        } else {
            assert(precedes(s[j], s[i]));
        }
    }
}

/// A set has at most one increasing sequence of its texts.
pub proof fn lemma_increasing_unique(a: Seq<Seq<char>>, b: Seq<Seq<char>>)
    requires
        increasing(a),
        increasing(b),
        a.to_set() == b.to_set(),
    ensures
        a == b,
    decreases a.len(),
{
    lemma_increasing_no_duplicates(a);
    lemma_increasing_no_duplicates(b);
    a.unique_seq_to_set();
    b.unique_seq_to_set();
    assert(a.len() == b.len());
    if a.len() > 0 {
        let x = a.last();
        let y = b.last();
        assert(a.to_set().contains(x)) by {
            assert(a[a.len() - 1] == x);
        }
        assert(b.to_set().contains(y)) by {
            assert(b[b.len() - 1] == y);
        }
        assert(b.contains(x));
        assert(a.contains(y));
        let i = choose|i: int| 0 <= i < b.len() && b[i] == x;
        let j = choose|j: int| 0 <= j < a.len() && a[j] == y;
        if x != y {
            assert(i < b.len() - 1);
            assert(j < a.len() - 1);
            assert(precedes(b[i], b[b.len() - 1]));
            assert(precedes(a[j], a[a.len() - 1]));
            lemma_precedes_transitive(x, y, x);
            lemma_precedes_irreflexive(x);
        }
        let a0 = a.drop_last();
        let b0 = b.drop_last();
        assert(increasing(a0));
        assert(increasing(b0));
        assert forall|v: Seq<char>| a0.to_set().contains(v) == b0.to_set().contains(v) by {
            lemma_drop_last_members(a, v);
            lemma_drop_last_members(b, v);
        }
        assert(a0.to_set() =~= b0.to_set());
        lemma_increasing_unique(a0, b0);
        assert(a =~= a0.push(x));
        assert(b =~= b0.push(y));
    } else {
        assert(a =~= b);
    }
}

/// Without its last text, an increasing sequence holds what it held before
/// but that text.
pub proof fn lemma_drop_last_members(s: Seq<Seq<char>>, v: Seq<char>)
    requires
        increasing(s),
        s.len() > 0,
    ensures
        s.drop_last().to_set().contains(v) == (s.to_set().contains(v) && v != s.last()),
{
    let s0 = s.drop_last();
    lemma_increasing_no_duplicates(s);
    if s0.to_set().contains(v) {
        let i = choose|i: int| 0 <= i < s0.len() && s0[i] == v;
        assert(s[i] == v);
        assert(s.contains(v));
    }
    if s.to_set().contains(v) && v != s.last() {
        let i = choose|i: int| 0 <= i < s.len() && s[i] == v;
        assert(s0[i] == v);
        assert(s0.contains(v));
    }
}

/// The increasing sequence of a set, once one is known.
pub proof fn lemma_sorted_is(s: Seq<Seq<char>>, set: Set<Seq<char>>)
    requires
        increasing(s),
        s.to_set() == set,
    ensures
        sorted(set) == s,
{
    lemma_increasing_unique(sorted(set), s);
}

/// Putting a text into an increasing sequence at its place.
pub proof fn lemma_insert_increasing(s: Seq<Seq<char>>, at: int, v: Seq<char>)
    requires
        increasing(s),
        0 <= at <= s.len(),
        forall|k: int| 0 <= k < at ==> precedes(#[trigger] s[k], v),
        forall|k: int| at <= k < s.len() ==> precedes(v, #[trigger] s[k]),
    ensures
        increasing(s.insert(at, v)),
        s.insert(at, v).to_set() == s.to_set().insert(v),
{
    let t = s.insert(at, v);
    assert forall|i: int, j: int| 0 <= i < j < t.len() implies precedes(
        #[trigger] t[i],
        #[trigger] t[j],
    ) by {
        if j < at {
            assert(t[i] == s[i] && t[j] == s[j]);
        } else if j == at {
            assert(t[i] == s[i]);
        } else if i < at {
            assert(t[i] == s[i] && t[j] == s[j - 1]);
            if i == j - 1 {
            }
        } else if i == at {
            assert(t[j] == s[j - 1]);
        } else {
            assert(t[i] == s[i - 1] && t[j] == s[j - 1]);
        }
    }
    assert forall|x: Seq<char>| t.to_set().contains(x) == s.to_set().insert(v).contains(x) by {
        if t.to_set().contains(x) {
            let i = choose|i: int| 0 <= i < t.len() && t[i] == x;
            if i < at {
                assert(s[i] == x);
                assert(s.contains(x));
            } else if i > at {
                assert(s[i - 1] == x);
                assert(s.contains(x));
            }
        }
        if s.to_set().insert(v).contains(x) {
            if x == v {
                assert(t[at] == x);
                assert(t.contains(x));
            } else {
                let i = choose|i: int| 0 <= i < s.len() && s[i] == x;
                if i < at {
                    assert(t[i] == x);
                } else {
                    assert(t[i + 1] == x);
                }
                assert(t.contains(x));
            }
        }
    }
    assert(t.to_set() =~= s.to_set().insert(v));
}

/// The place of a text in an increasing sequence that does not hold it.
pub proof fn lemma_place(s: Seq<Seq<char>>, v: Seq<char>) -> (at: int)
    requires
        increasing(s),
        !s.contains(v),
    ensures
        0 <= at <= s.len(),
        forall|k: int| 0 <= k < at ==> precedes(#[trigger] s[k], v),
        forall|k: int| at <= k < s.len() ==> precedes(v, #[trigger] s[k]),
    decreases s.len(),
{
    if s.len() == 0 {
        0
    } else if precedes(s.last(), v) {
        assert forall|k: int| 0 <= k < s.len() implies precedes(#[trigger] s[k], v) by {
            if k < s.len() - 1 {
                assert(precedes(s[k], s[s.len() - 1]));
                lemma_precedes_transitive(s[k], s.last(), v);
            }
        }
        s.len() as int
    } else {
        assert(s.contains(s[s.len() - 1]));
        lemma_precedes_total(s.last(), v);
        let s0 = s.drop_last();
        assert(!s0.contains(v)) by {
            if s0.contains(v) {
                let i = choose|i: int| 0 <= i < s0.len() && s0[i] == v;
                assert(s[i] == v);
            }
        }
        let at = lemma_place(s0, v);
        assert forall|k: int| at <= k < s.len() implies precedes(v, #[trigger] s[k]) by {
            if k < s.len() - 1 {
                assert(s0[k] == s[k]);
            }
        }
        assert forall|k: int| 0 <= k < at implies precedes(#[trigger] s[k], v) by {
            assert(s0[k] == s[k]);
        }
        at
    }
}

/// Every finite set has its increasing sequence.
pub proof fn lemma_sorted_exists(set: Set<Seq<char>>)
    requires
        set.finite(),
    ensures
        increasing(sorted(set)),
        sorted(set).to_set() == set,
    decreases set.len(),
{
    if set.len() == 0 {
        let none = Seq::<Seq<char>>::empty();
        assert(increasing(none));
        assert(none.to_set() =~= set);
    } else {
        let v = set.choose();
        let rest = set.remove(v);
        lemma_sorted_exists(rest);
        let s = sorted(rest);
        let at = lemma_place(s, v);
        lemma_insert_increasing(s, at, v);
        assert(s.insert(at, v).to_set() =~= set);
    }
}

/// A set of version identifiers. It holds each identifier once and hands them
/// out in lexicographic order.
#[derive(Debug)]
pub struct VersionSet {
    items: Vec<String>,
}

impl View for VersionSet {
    type V = Set<Seq<char>>;

    closed spec fn view(&self) -> Set<Seq<char>> {
        self.items.deep_view().to_set()
    }
}

impl VersionSet {
    #[verifier::type_invariant]
    spec fn in_order(&self) -> bool {
        increasing(self.items.deep_view())
    }

    /// The empty set.
    pub fn new() -> (set: VersionSet)
        ensures
            set@ == Set::<Seq<char>>::empty(),
    {
        let items: Vec<String> = Vec::new();
        proof {
            assert(items.deep_view() == Seq::<Seq<char>>::empty());
            assert(items.deep_view().to_set() =~= Set::<Seq<char>>::empty());
        }
        VersionSet { items }
    }

    /// The number of identifiers in the set.
    pub fn len(&self) -> (n: usize)
        ensures
            n == self@.len(),
            self@.finite(),
    {
        proof {
            use_type_invariant(self);
            lemma_increasing_no_duplicates(self.items.deep_view());
            self.items.deep_view().unique_seq_to_set();
            vstd::seq_lib::seq_to_set_is_finite(self.items.deep_view());
        }
        self.items.len()
    }

    /// Tells whether the set holds nothing.
    pub fn is_empty(&self) -> (empty: bool)
        ensures
            empty == (self@ == Set::<Seq<char>>::empty()),
    {
        proof {
            if self.items.len() == 0 {
                assert(self.items.deep_view().to_set() =~= Set::<Seq<char>>::empty());
            } else {
                let first = self.items.deep_view()[0];
                assert(self.items.deep_view().contains(first));
                assert(self@.contains(first));
                assert(!Set::<Seq<char>>::empty().contains(first));
            }
        }
        self.items.len() == 0
    }

    /// Tells whether the set holds `version`.
    pub fn contains(&self, version: &str) -> (found: bool)
        ensures
            found == self@.contains(version@),
    {
        let mut i: usize = 0;
        while i < self.items.len()
            invariant
                i <= self.items.len(),
                forall|k: int| 0 <= k < i ==> self.items.deep_view()[k] != version@,
            decreases self.items.len() - i,
        {
            if str_equal(self.items[i].as_str(), version) {
                proof {
                    assert(self.items.deep_view()[i as int] == version@);
                    assert(self.items.deep_view().contains(version@));
                }
                return true;
            }
            i += 1;
        }
        false
    }

    /// Puts `version` into the set.
    pub fn insert(&mut self, version: String)
        ensures
            final(self)@ == old(self)@.insert(version@),
    {
        proof {
            use_type_invariant(&*self);
        }
        let ghost before = self.items.deep_view();
        let mut at: usize = 0;
        while at < self.items.len() && comes_before(self.items[at].as_str(), version.as_str())
            invariant
                at <= self.items.len(),
                self.items.deep_view() == before,
                forall|k: int| 0 <= k < at ==> precedes(#[trigger] before[k], version@),
            decreases self.items.len() - at,
        {
            at += 1;
        }
        if at < self.items.len() && str_equal(self.items[at].as_str(), version.as_str()) {
            proof {
                assert(before[at as int] == version@);
                assert(before.contains(version@));
                assert(before.to_set() =~= before.to_set().insert(version@));
            }
            return ;
        }
        proof {
            if at < before.len() {
                lemma_precedes_total(before[at as int], version@);
                assert forall|k: int| at <= k < before.len() implies precedes(
                    version@,
                    #[trigger] before[k],
                ) by {
                    if k > at {
                        assert(precedes(before[at as int], before[k]));
                        lemma_precedes_transitive(version@, before[at as int], before[k]);
                    }
                }
            }
            lemma_insert_increasing(before, at as int, version@);
        }
        let mut items: Vec<String> = Vec::new();
        proof {
            assert(items.deep_view() == Seq::<Seq<char>>::empty());
        }
        core::mem::swap(&mut self.items, &mut items);
        items.insert(at, version);
        proof {
            assert(items.deep_view() == before.insert(at as int, version@));
        }
        self.items = items;
    }

    /// The set of the identifiers in `versions`.
    pub fn from_vec(versions: &Vec<String>) -> (set: VersionSet)
        ensures
            set@ == versions.deep_view().to_set(),
    {
        let mut set = VersionSet::new();
        let mut i: usize = 0;
        proof {
            assert(versions.deep_view().take(0).to_set() =~= Set::<Seq<char>>::empty());
        }
        while i < versions.len()
            invariant
                i <= versions.len(),
                set@ == versions.deep_view().take(i as int).to_set(),
            decreases versions.len() - i,
        {
            proof {
                let seen = versions.deep_view().take(i as int);
                assert(versions.deep_view().take(i + 1) == seen.push(versions@[i as int]@));
                seen.lemma_push_to_set_commute(versions@[i as int]@);
            }
            set.insert(versions[i].clone());
            i += 1;
        }
        proof {
            assert(versions.deep_view().take(versions.len() as int) == versions.deep_view());
        }
        set
    }

    /// The identifiers of this set that `other` does not hold.
    pub fn difference(&self, other: &VersionSet) -> (rest: VersionSet)
        ensures
            rest@ == self@.difference(other@),
    {
        proof {
            use_type_invariant(self);
        }
        let mut items: Vec<String> = Vec::new();
        let mut i: usize = 0;
        proof {
            assert(items.deep_view() == Seq::<Seq<char>>::empty());
            assert(items.deep_view().to_set() =~= self.items.deep_view().take(0).to_set().difference(
                other@,
            ));
        }
        while i < self.items.len()
            invariant
                i <= self.items.len(),
                increasing(self.items.deep_view()),
                increasing(items.deep_view()),
                forall|k: int, j: int|
                    0 <= k < items.len() && i <= j < self.items.len() ==> precedes(
                        #[trigger] items.deep_view()[k],
                        #[trigger] self.items.deep_view()[j],
                    ),
                items.deep_view().to_set() == self.items.deep_view().take(i as int).to_set().difference(
                    other@,
                ),
            decreases self.items.len() - i,
        {
            let ghost mine = self.items.deep_view();
            let ghost kept = items.deep_view();
            let ghost seen = mine.take(i as int);
            proof {
                assert(mine.take(i + 1) == seen.push(mine[i as int]));
                seen.lemma_push_to_set_commute(mine[i as int]);
                assert forall|k: int, j: int|
                    0 <= k < kept.len() && i + 1 <= j < mine.len() implies precedes(
                    #[trigger] kept[k],
                    #[trigger] mine[j],
                ) by {}
            }
            if !other.contains(self.items[i].as_str()) {
                let version = self.items[i].clone();
                items.push(version);
                proof {
                    assert(items.deep_view() == kept.push(mine[i as int]));
                    kept.lemma_push_to_set_commute(mine[i as int]);
                    assert(kept.push(mine[i as int]).to_set() =~= mine.take(i + 1).to_set().difference(
                        other@,
                    ));
                }
            } else {
                proof {
                    assert(kept.to_set() =~= mine.take(i + 1).to_set().difference(other@));
                }
            }
            i += 1;
        }
        proof {
            assert(self.items.deep_view().take(self.items.len() as int) == self.items.deep_view());
        }
        VersionSet { items }
    }

    /// The identifiers of the set, in lexicographic order.
    pub fn to_vec(&self) -> (versions: Vec<String>)
        ensures
            versions.deep_view() == sorted(self@),
    {
        proof {
            use_type_invariant(self);
            lemma_sorted_is(self.items.deep_view(), self@);
        }
        let mut versions: Vec<String> = Vec::new();
        let mut i: usize = 0;
        while i < self.items.len()
            invariant
                i <= self.items.len(),
                versions.deep_view() == self.items.deep_view().take(i as int),
            decreases self.items.len() - i,
        {
            let ghost before = versions.deep_view();
            let version = self.items[i].clone();
            versions.push(version);
            proof {
                assert(versions.deep_view() == before.push(version@));
            }
            i += 1;
        }
        proof {
            assert(self.items.deep_view().take(self.items.len() as int) == self.items.deep_view());
        }
        versions
    }
}

/// Tells whether `a` and `b` hold the same text.
pub fn str_equal(a: &str, b: &str) -> (same: bool)
    ensures
        same == (a@ == b@),
{
    let x = chars_of(a);
    let y = chars_of(b);
    if x.len() != y.len() {
        return false;
    }
    let mut i: usize = 0;
    while i < x.len()
        invariant
            i <= x.len(),
            x.len() == y.len(),
            x@ == a@,
            y@ == b@,
            forall|k: int| 0 <= k < i ==> x@[k] == y@[k],
        decreases x.len() - i,
    {
        if x[i] != y[i] {
            return false;
        }
        i += 1;
    }
    proof {
        assert(x@ =~= y@);
    }
    true
}

} // verus!
