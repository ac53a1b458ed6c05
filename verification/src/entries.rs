//! Sets of entries. An entry is a line of text that names a film or a
//! series; a set holds each entry once and remembers the order of arrival.

use crate::text::{
    chars_of, lemma_lex_le_antisymmetric, lemma_lex_le_reflexive, lemma_lex_le_total,
    lemma_lex_le_transitive, lex_le, precedes, string_of,
};
use vstd::prelude::*;
use vstd::relations::{sorted_by, total_ordering};
use vstd::seq_lib::{lemma_sorted_unique, to_multiset_insert};

verus! {

/// Dictionary order as a relation.
pub open spec fn dictionary() -> spec_fn(Seq<char>, Seq<char>) -> bool {
    |a: Seq<char>, b: Seq<char>| lex_le(a, b)
}

/// Dictionary order is a total order.
pub proof fn lemma_dictionary_total()
    ensures
        total_ordering(dictionary()),
{
    let r = dictionary();
    assert forall|a: Seq<char>| #[trigger] r(a, a) by {
        lemma_lex_le_reflexive(a);
    }
    assert forall|a: Seq<char>, b: Seq<char>| #[trigger] r(a, b) && #[trigger] r(b, a) implies a
        == b by {
        lemma_lex_le_antisymmetric(a, b);
    }
    assert forall|a: Seq<char>, b: Seq<char>, c: Seq<char>| #[trigger]
        r(a, b) && #[trigger] r(b, c) implies r(a, c) by {
        lemma_lex_le_transitive(a, b, c);
    }
    assert forall|a: Seq<char>, b: Seq<char>| #[trigger] r(a, b) || #[trigger] r(b, a) by {
        lemma_lex_le_total(a, b);
    }
}

/// Whether `s` is in dictionary order.
pub open spec fn is_sorted(s: Seq<Seq<char>>) -> bool {
    sorted_by(s, dictionary())
}

/// The texts of `s` in dictionary order.
pub open spec fn sort(s: Seq<Seq<char>>) -> Seq<Seq<char>> {
    s.sort_by(dictionary())
}

/// Sorting orders the texts and neither drops nor adds one.
pub proof fn lemma_sort(s: Seq<Seq<char>>)
    ensures
        is_sorted(sort(s)),
        sort(s).to_multiset() == s.to_multiset(),
        sort(s).len() == s.len(),
        forall|e: Seq<char>| sort(s).contains(e) <==> s.contains(e),
{
    broadcast use vstd::seq_lib::group_to_multiset_ensures;

    lemma_dictionary_total();
    s.lemma_sort_by_ensures(dictionary());
    assert(sort(s).to_multiset().len() == sort(s).len());
    assert(s.to_multiset().len() == s.len());
    assert forall|e: Seq<char>| sort(s).contains(e) <==> s.contains(e) by {
        assert(sort(s).contains(e) <==> sort(s).to_multiset().count(e) > 0);
        assert(s.contains(e) <==> s.to_multiset().count(e) > 0);
    }
}

/// There is one way only to put given texts in dictionary order.
pub proof fn lemma_sort_unique(s: Seq<Seq<char>>, t: Seq<Seq<char>>)
    requires
        is_sorted(t),
        t.to_multiset() == s.to_multiset(),
    ensures
        t == sort(s),
{
    lemma_sort(s);
    lemma_dictionary_total();
    lemma_sorted_unique(t, sort(s), dictionary());
}

/// Sorting keeps texts apart that were apart.
pub proof fn lemma_sort_no_duplicates(s: Seq<Seq<char>>)
    requires
        s.no_duplicates(),
    ensures
        sort(s).no_duplicates(),
{
    lemma_sort(s);
    s.lemma_multiset_has_no_duplicates();
    sort(s).lemma_multiset_has_no_duplicates_conv();
}

/// What the rows of characters hold, row by row.
pub open spec fn rows(v: Seq<Vec<char>>) -> Seq<Seq<char>> {
    v.map_values(|t: Vec<char>| t@)
}

/// The entries of `entries` in dictionary order.
pub fn sorted(entries: &Vec<String>) -> (out: Vec<String>)
    ensures
        out.deep_view() == sort(entries.deep_view()),
{
    let ghost all = entries.deep_view();
    let mut keys: Vec<Vec<char>> = Vec::new();
    let mut i: usize = 0;
    proof {
        assert(rows(keys@) =~= all.take(0));
    }
    while i < entries.len()
        invariant
            i <= entries.len(),
            all == entries.deep_view(),
            is_sorted(rows(keys@)),
            rows(keys@).to_multiset() == all.take(i as int).to_multiset(),
        decreases entries.len() - i,
    {
        let x = chars_of(entries[i].as_str());
        let mut j: usize = keys.len();
        while j > 0 && !precedes(&keys[j - 1], &x)
            invariant
                j <= keys.len(),
                forall|k: int| j <= k < keys.len() ==> !lex_le(#[trigger] rows(keys@)[k], x@),
            decreases j,
        {
            j -= 1;
        }
        let ghost before = rows(keys@);
        keys.insert(j, x);
        proof {
            let after = rows(keys@);
            assert(after =~= before.insert(j as int, x@));
            to_multiset_insert(before, j as int, x@);
            let done = all.take(i as int);
            let next = all.take(i + 1);
            assert(next =~= done.push(x@));
            assert(next.to_multiset() =~= done.to_multiset().insert(x@)) by {
                broadcast use vstd::seq_lib::group_to_multiset_ensures;

            }
            let r = dictionary();
            assert forall|a: int, b: int| 0 <= a < b < after.len() implies #[trigger] r(
                after[a],
                after[b],
            ) by {
                if b < j {
                    assert(r(before[a], before[b]));
                } else if b == j {
                    assert(a < j - 1 ==> r(before[a], before[j - 1]));
                    lemma_lex_le_reflexive(before[a]);
                    lemma_lex_le_transitive(before[a], before[j - 1], x@);
                } else if a < j {
                    assert(r(before[a], before[b - 1]));
                } else if a == j {
                    assert(!lex_le(before[b - 1], x@));
                    lemma_lex_le_total(before[b - 1], x@);
                } else {
                    assert(r(before[a - 1], before[b - 1]));
                }
            }
        }
        i += 1;
    }
    proof {
        assert(all.take(entries.len() as int) =~= all);
        lemma_sort_unique(all, rows(keys@));
    }
    let mut out: Vec<String> = Vec::new();
    let mut k: usize = 0;
    while k < keys.len()
        invariant
            k <= keys.len(),
            out.deep_view() == rows(keys@).take(k as int),
        decreases keys.len() - k,
    {
        let e = string_of(&keys[k], 0, keys[k].len());
        proof {
            assert(keys@[k as int]@.subrange(0, keys@[k as int]@.len() as int) =~= keys@[k as int]@);
        }
        let ghost prev = out.deep_view();
        out.push(e);
        proof {
            assert(out.deep_view() =~= prev.push(e@));
            assert(rows(keys@).take(k + 1) =~= rows(keys@).take(k as int).push(keys@[k as int]@));
        }
        k += 1;
    }
    proof {
        assert(rows(keys@).take(keys.len() as int) =~= rows(keys@));
    }
    out
}

/// The texts of `s`, each once, in the order in which it first occurs.
pub open spec fn unique(s: Seq<Seq<char>>) -> Seq<Seq<char>>
    decreases s.len(),
{
    if s.len() == 0 {
        Seq::empty()
    } else {
        let front = unique(s.drop_last());
        if front.contains(s.last()) {
            front
        } else {
            front.push(s.last())
        }
    }
}

/// `unique` holds what `s` holds, and nothing twice.
pub proof fn lemma_unique(s: Seq<Seq<char>>)
    ensures
        unique(s).no_duplicates(),
        unique(s).to_set() == s.to_set(),
        s.no_duplicates() ==> unique(s) == s,
    decreases s.len(),
{
    if s.len() == 0 {
        assert(unique(s).to_set() =~= s.to_set());
    } else {
        let front = s.drop_last();
        let last = s.last();
        lemma_unique(front);
        assert(s =~= front.push(last));
        front.lemma_push_to_set_commute(last);
        if unique(front).contains(last) {
            assert(unique(front).to_set().contains(last));
            assert(front.to_set().insert(last) =~= front.to_set());
        } else {
            unique(front).lemma_push_to_set_commute(last);
        }
        if s.no_duplicates() {
            assert(front.no_duplicates());
            assert(!front.contains(last)) by {
                if front.contains(last) {
                    let i = choose|i: int| 0 <= i < front.len() && front[i] == last;
                    assert(s[i] == s[s.len() - 1]);
                }
            }
        }
    }
}

/// The texts of `all` that are not in `seen`, in the order they have in
/// `all`.
pub open spec fn difference(all: Seq<Seq<char>>, seen: Set<Seq<char>>) -> Seq<Seq<char>> {
    all.filter(|e: Seq<char>| !seen.contains(e))
}

/// The difference holds what is in `all` and not in `seen`, nothing else,
/// and nothing twice that `all` holds once.
pub proof fn lemma_difference(all: Seq<Seq<char>>, seen: Set<Seq<char>>)
    ensures
        forall|e: Seq<char>| #[trigger]
            difference(all, seen).contains(e) <==> all.contains(e) && !seen.contains(e),
        all.no_duplicates() ==> difference(all, seen).no_duplicates(),
        difference(all, seen).len() <= all.len(),
    decreases all.len(),
{
    reveal(Seq::filter);
    let keep = |e: Seq<char>| !seen.contains(e);
    if all.len() > 0 {
        let front = all.drop_last();
        let last = all.last();
        lemma_difference(front, seen);
        let d = difference(front, seen);
        assert(all =~= front.push(last));
        assert forall|e: Seq<char>| #[trigger]
            difference(all, seen).contains(e) <==> all.contains(e) && !seen.contains(e) by {
            if all.contains(e) {
                let i = choose|i: int| 0 <= i < all.len() && all[i] == e;
                if i < front.len() {
                    assert(front[i] == e);
                }
            }
            if front.contains(e) {
                let i = choose|i: int| 0 <= i < front.len() && front[i] == e;
                assert(all[i] == e);
            }
            if keep(last) {
                assert(difference(all, seen) == d.push(last));
                assert(d.push(last)[d.len() as int] == last);
                if d.push(last).contains(e) {
                    let i = choose|i: int| 0 <= i < d.push(last).len() && d.push(last)[i] == e;
                    if i < d.len() {
                        assert(d[i] == e);
                    }
                }
                if d.contains(e) {
                    let i = choose|i: int| 0 <= i < d.len() && d[i] == e;
                    assert(d.push(last)[i] == e);
                }
            }
            assert(all[all.len() - 1] == last);
        }
        if all.no_duplicates() {
            assert(front.no_duplicates());
            if keep(last) {
                assert(!front.contains(last)) by {
                    if front.contains(last) {
                        let i = choose|i: int| 0 <= i < front.len() && front[i] == last;
                        assert(all[i] == all[all.len() - 1]);
                    }
                }
                assert(!d.contains(last));
            }
        }
    }
}

/// A set of entries: each entry once, in the order of arrival.
pub struct EntrySet {
    items: Vec<String>,
}

impl View for EntrySet {
    type V = Set<Seq<char>>;

    /// The entries, without their order.
    open spec fn view(&self) -> Set<Seq<char>> {
        self.order().to_set()
    }
}

impl EntrySet {
    /// No entry is held twice.
    #[verifier::type_invariant]
    spec fn well_formed(&self) -> bool {
        self.items.deep_view().no_duplicates()
    }

    /// The entries in the order of arrival.
    pub closed spec fn order(&self) -> Seq<Seq<char>> {
        self.items.deep_view()
    }

    /// The set without entries.
    pub fn new() -> (set: Self)
        ensures
            set.order() == Seq::<Seq<char>>::empty(),
    {
        let items: Vec<String> = Vec::new();
        proof {
            assert(items.deep_view() =~= Seq::<Seq<char>>::empty());
        }
        EntrySet { items }
    }

    /// The number of entries.
    pub fn len(&self) -> (n: usize)
        ensures
            n == self.order().len(),
    {
        self.items.len()
    }

    /// Whether the set holds nothing.
    pub fn is_empty(&self) -> (b: bool)
        ensures
            b == (self.order().len() == 0),
    {
        self.items.len() == 0
    }

    /// The entries in the order of arrival, each once.
    pub fn entries(&self) -> (v: &Vec<String>)
        ensures
            v.deep_view() == self.order(),
            v.deep_view().no_duplicates(),
    {
        proof {
            use_type_invariant(self);
        }
        &self.items
    }

    /// Whether `entry` is in the set, letter for letter.
    pub fn contains(&self, entry: &str) -> (found: bool)
        ensures
            found == self.order().contains(entry@),
            found == self@.contains(entry@),
    {
        let wanted = entry.to_owned();
        let mut i: usize = 0;
        while i < self.items.len()
            invariant
                i <= self.items.len(),
                wanted@ == entry@,
                forall|k: int| 0 <= k < i ==> self.items.deep_view()[k] != entry@,
            decreases self.items.len() - i,
        {
            if self.items[i] == wanted {
                proof {
                    assert(self.items.deep_view()[i as int] == entry@);
                }
                return true;
            }
            i += 1;
        }
        false
    }

    /// Puts `entry` into the set unless it is there already, and tells
    /// whether the set has grown.
    pub fn insert(&mut self, entry: String) -> (added: bool)
        ensures
            added == !old(self).order().contains(entry@),
            added ==> final(self).order() == old(self).order().push(entry@),
            !added ==> final(self).order() == old(self).order(),
            final(self)@ == old(self)@.insert(entry@),
    {
        proof {
            use_type_invariant(&*self);
        }
        if self.contains(entry.as_str()) {
            proof {
                assert(self@.insert(entry@) =~= self@);
            }
            false
        } else {
            let ghost before = self.items.deep_view();
            let mut taken = EntrySet::new();
            core::mem::swap(self, &mut taken);
            let EntrySet { items: mut items } = taken;
            items.push(entry);
            proof {
                assert(items.deep_view() =~= before.push(entry@));
                before.lemma_push_to_set_commute(entry@);
            }
            *self = EntrySet { items };
            true
        }
    }

    /// The entries in dictionary order.
    pub fn to_sorted(&self) -> (out: Vec<String>)
        ensures
            out.deep_view() == sort(self.order()),
    {
        sorted(&self.items)
    }

    /// The entries that `seen` does not hold, in the order of arrival.
    pub fn without(&self, seen: &EntrySet) -> (out: Vec<String>)
        ensures
            out.deep_view() == difference(self.order(), seen@),
    {
        let ghost all = self.items.deep_view();
        let ghost keep = |e: Seq<char>| !seen@.contains(e);
        let mut out: Vec<String> = Vec::new();
        let mut i: usize = 0;
        proof {
            reveal(Seq::filter);
            assert(all.take(0) =~= Seq::<Seq<char>>::empty());
            assert(out.deep_view() =~= all.take(0).filter(keep));
        }
        while i < self.items.len()
            invariant
                i <= self.items.len(),
                all == self.items.deep_view(),
                keep == (|e: Seq<char>| !seen@.contains(e)),
                out.deep_view() == all.take(i as int).filter(keep),
            decreases self.items.len() - i,
        {
            let ghost prev = out.deep_view();
            let missing = !seen.contains(self.items[i].as_str());
            if missing {
                out.push(self.items[i].clone());
            }
            proof {
                reveal(Seq::filter);
                let next = all.take(i + 1);
                assert(next.drop_last() =~= all.take(i as int));
                assert(next.last() == all[i as int]);
                if missing {
                    assert(out.deep_view() =~= prev.push(all[i as int]));
                }
            }
            i += 1;
        }
        proof {
            assert(all.take(self.items.len() as int) =~= all);
        }
        out
    }

    /// The set of the entries of `entries`: each once, in the order in which
    /// it first occurs.
    pub fn from_entries(entries: Vec<String>) -> (set: Self)
        ensures
            set.order() == unique(entries.deep_view()),
            set@ == entries.deep_view().to_set(),
    {
        let ghost all = entries.deep_view();
        let mut set = EntrySet::new();
        let mut i: usize = 0;
        proof {
            assert(all.take(0) =~= Seq::<Seq<char>>::empty());
        }
        while i < entries.len()
            invariant
                i <= entries.len(),
                all == entries.deep_view(),
                set.order() == unique(all.take(i as int)),
            decreases entries.len() - i,
        {
            set.insert(entries[i].clone());
            proof {
                let next = all.take(i + 1);
                assert(next.drop_last() =~= all.take(i as int));
                assert(next.last() == all[i as int]);
            }
            i += 1;
        }
        proof {
            assert(all.take(entries.len() as int) =~= all);
            lemma_unique(all);
        }
        set
    }
}

} // verus!
