//! Finding the entry that a user means. A name as typed is trimmed and put
//! in lower case; an entry that is the same in lower case is the match, and
//! where there is none, the entries that hold the name are suggestions.

use crate::entries::EntrySet;
use crate::text::{chars_of, contains, has_substring, trim, trimmed};
use vstd::prelude::*;

verus! {

/// The lower case form of a text, as `str::to_lowercase` of the standard
/// library gives it.
pub uninterp spec fn lowercase(s: Seq<char>) -> Seq<char>;

/// `str::to_lowercase` of the standard library: the lower case form of `s`
/// by Unicode's rules, which depends on the characters of `s` and on
/// nothing else.
#[verifier::external_body]
fn to_lowercase(s: &str) -> (r: String)
    ensures
        r@ == lowercase(s@),
{
    s.to_lowercase()
}

/// An entry of a catalog together with its lower case form.
pub struct Candidate {
    pub entry: String,
    pub folded: String,
}

impl View for Candidate {
    type V = (Seq<char>, Seq<char>);

    /// The entry, then its lower case form.
    open spec fn view(&self) -> (Seq<char>, Seq<char>) {
        (self.entry@, self.folded@)
    }
}

/// What the matcher found.
#[derive(Debug, PartialEq, Eq)]
pub enum MatchResult {
    /// The entry that the name stands for, as the catalog writes it.
    ExactMatch(String),
    /// No entry is meant for sure; these hold the name, and may be none.
    Suggestions(Vec<String>),
}

/// What the matcher found, as plain text.
pub enum Match {
    Exact(Seq<char>),
    Suggestions(Seq<Seq<char>>),
}

impl View for MatchResult {
    type V = Match;

    open spec fn view(&self) -> Match {
        match self {
            MatchResult::ExactMatch(entry) => Match::Exact(entry@),
            MatchResult::Suggestions(entries) => Match::Suggestions(entries.deep_view()),
        }
    }
}

/// The position of the first candidate whose lower case form is `needle`,
/// or the number of candidates where there is none.
pub open spec fn first_exact(needle: Seq<char>, candidates: Seq<(Seq<char>, Seq<char>)>) -> int
    decreases candidates.len(),
{
    if candidates.len() == 0 {
        0
    } else if candidates.first().1 == needle {
        0
    } else {
        1 + first_exact(needle, candidates.drop_first())
    }
}

/// The entries whose lower case form holds `needle`, in the order of the
/// candidates.
pub open spec fn holding(needle: Seq<char>, candidates: Seq<(Seq<char>, Seq<char>)>) -> Seq<
    Seq<char>,
>
    decreases candidates.len(),
{
    if candidates.len() == 0 {
        Seq::empty()
    } else {
        let front = holding(needle, candidates.drop_last());
        if contains(candidates.last().1, needle) {
            front.push(candidates.last().0)
        } else {
            front
        }
    }
}

/// What the matcher finds for the name `needle`, which is trimmed and in
/// lower case already: the first entry whose lower case form is `needle`,
/// or, where there is none, the entries whose lower case form holds it.
pub open spec fn resolve(needle: Seq<char>, candidates: Seq<(Seq<char>, Seq<char>)>) -> Match {
    let k = first_exact(needle, candidates);
    if k < candidates.len() {
        Match::Exact(candidates[k].0)
    } else {
        Match::Suggestions(holding(needle, candidates))
    }
}

/// The entries of a catalog as candidates, each with its lower case form.
pub open spec fn folded(entries: Seq<Seq<char>>) -> Seq<(Seq<char>, Seq<char>)> {
    entries.map_values(|e: Seq<char>| (e, lowercase(e)))
}

/// The name as the matcher compares it: trimmed, then in lower case.
pub open spec fn normalize(raw: Seq<char>) -> Seq<char> {
    lowercase(trim(raw))
}

/// Where `first_exact` points: at a candidate whose lower case form is
/// `needle` and before which no such candidate stands, or behind the last
/// candidate where none has that form.
pub proof fn lemma_first_exact(needle: Seq<char>, candidates: Seq<(Seq<char>, Seq<char>)>)
    ensures
        0 <= first_exact(needle, candidates) <= candidates.len(),
        forall|k: int|
            0 <= k < first_exact(needle, candidates) ==> (#[trigger] candidates[k]).1 != needle,
        first_exact(needle, candidates) < candidates.len() ==> candidates[first_exact(
            needle,
            candidates,
        )].1 == needle,
    decreases candidates.len(),
{
    if candidates.len() > 0 && candidates.first().1 != needle {
        let rest = candidates.drop_first();
        lemma_first_exact(needle, rest);
        let k0 = first_exact(needle, candidates);
        assert forall|k: int| 0 <= k < k0 implies (#[trigger] candidates[k]).1 != needle by {
            if k > 0 {
                assert(candidates[k] == rest[k - 1]);
            }
        }
        if k0 < candidates.len() {
            assert(candidates[k0] == rest[k0 - 1]);
        }
    }
}

/// `first_exact` is `i` where the candidate at `i` has the lower case form
/// `needle` and none before it has.
pub proof fn lemma_first_exact_at(
    needle: Seq<char>,
    candidates: Seq<(Seq<char>, Seq<char>)>,
    i: int,
)
    requires
        0 <= i <= candidates.len(),
        forall|k: int| 0 <= k < i ==> (#[trigger] candidates[k]).1 != needle,
        i < candidates.len() ==> candidates[i].1 == needle,
    ensures
        first_exact(needle, candidates) == i,
{
    lemma_first_exact(needle, candidates);
    let k = first_exact(needle, candidates);
    if k < i {
        assert(candidates[k].1 != needle);
    }
    if i < k {
        assert(candidates[i].1 != needle);
    }
}

/// The suggestions are the entries whose lower case form holds the name,
/// and no others.
pub proof fn lemma_holding(needle: Seq<char>, candidates: Seq<(Seq<char>, Seq<char>)>)
    ensures
        forall|e: Seq<char>| #[trigger]
            holding(needle, candidates).contains(e) <==> exists|i: int|
                0 <= i < candidates.len() && (#[trigger] candidates[i]).0 == e && contains(
                    candidates[i].1,
                    needle,
                ),
        holding(needle, candidates).len() <= candidates.len(),
    decreases candidates.len(),
{
    if candidates.len() > 0 {
        let front = candidates.drop_last();
        let last = candidates.last();
        lemma_holding(needle, front);
        let h = holding(needle, front);
        let now = holding(needle, candidates);
        assert forall|e: Seq<char>| #[trigger]
            now.contains(e) <==> exists|i: int|
                0 <= i < candidates.len() && (#[trigger] candidates[i]).0 == e && contains(
                    candidates[i].1,
                    needle,
                ) by {
            if now.contains(e) {
                let k = choose|k: int| 0 <= k < now.len() && now[k] == e;
                if k < h.len() {
                    assert(h[k] == e);
                    assert(h.contains(e));
                    let i = choose|i: int|
                        0 <= i < front.len() && (#[trigger] front[i]).0 == e && contains(
                            front[i].1,
                            needle,
                        );
                    assert(candidates[i] == front[i]);
                } else {
                    assert(candidates[candidates.len() - 1] == last);
                }
            }
            if exists|i: int|
                0 <= i < candidates.len() && (#[trigger] candidates[i]).0 == e && contains(
                    candidates[i].1,
                    needle,
                ) {
                let i = choose|i: int|
                    0 <= i < candidates.len() && (#[trigger] candidates[i]).0 == e && contains(
                        candidates[i].1,
                        needle,
                    );
                if i < front.len() {
                    assert(front[i] == candidates[i]);
                    assert(h.contains(e));
                    let k = choose|k: int| 0 <= k < h.len() && h[k] == e;
                    assert(now[k] == e);
                } else {
                    assert(now[h.len() as int] == e);
                }
            }
        }
    }
}

/// The matcher finds an entry exactly where some entry has the name as its
/// lower case form, and then the first such entry; else it gives as
/// suggestions the entries whose lower case form holds the name, no others.
pub proof fn lemma_resolve(needle: Seq<char>, candidates: Seq<(Seq<char>, Seq<char>)>)
    ensures
        resolve(needle, candidates) is Exact <==> exists|i: int|
            0 <= i < candidates.len() && (#[trigger] candidates[i]).1 == needle,
        match resolve(needle, candidates) {
            Match::Exact(entry) => exists|i: int|
                0 <= i < candidates.len() && #[trigger] candidates[i] == (entry, needle) && forall|
                    k: int,
                | 0 <= k < i ==> (#[trigger] candidates[k]).1 != needle,
            Match::Suggestions(entries) => forall|e: Seq<char>| #[trigger]
                entries.contains(e) <==> exists|i: int|
                    0 <= i < candidates.len() && (#[trigger] candidates[i]).0 == e && contains(
                        candidates[i].1,
                        needle,
                    ),
        },
{
    lemma_first_exact(needle, candidates);
    lemma_holding(needle, candidates);
    let k = first_exact(needle, candidates);
    if k < candidates.len() {
        assert(candidates[k] == (candidates[k].0, needle));
    }
}

/// Names match whatever their case: the matcher finds an entry exactly
/// where the name, trimmed, has the same lower case form as some entry, and
/// what it finds is such an entry, written as the catalog writes it; a
/// suggestion is an entry of the catalog too.
pub proof fn lemma_match_ignores_case(raw: Seq<char>, entries: Seq<Seq<char>>)
    ensures
        resolve(normalize(raw), folded(entries)) is Exact <==> exists|i: int|
            0 <= i < entries.len() && lowercase(#[trigger] entries[i]) == lowercase(trim(raw)),
        match resolve(normalize(raw), folded(entries)) {
            Match::Exact(entry) => entries.contains(entry) && lowercase(entry) == lowercase(
                trim(raw),
            ),
            Match::Suggestions(suggestions) => forall|e: Seq<char>| #[trigger]
                suggestions.contains(e) <==> entries.contains(e) && contains(
                    lowercase(e),
                    lowercase(trim(raw)),
                ),
        },
{
    let needle = normalize(raw);
    let candidates = folded(entries);
    lemma_resolve(needle, candidates);
    if exists|i: int| 0 <= i < entries.len() && lowercase(#[trigger] entries[i]) == needle {
        let i = choose|i: int| 0 <= i < entries.len() && lowercase(#[trigger] entries[i]) == needle;
        assert(candidates[i].1 == needle);
    }
    if exists|i: int| 0 <= i < candidates.len() && (#[trigger] candidates[i]).1 == needle {
        let i = choose|i: int| 0 <= i < candidates.len() && (#[trigger] candidates[i]).1 == needle;
        assert(lowercase(entries[i]) == needle);
    }
    match resolve(needle, candidates) {
        Match::Exact(entry) => {
            let i = choose|i: int|
                0 <= i < candidates.len() && #[trigger] candidates[i] == (entry, needle);
            assert(entries[i] == entry);
        },
        Match::Suggestions(suggestions) => {
            assert forall|e: Seq<char>| #[trigger]
                suggestions.contains(e) <==> entries.contains(e) && contains(
                    lowercase(e),
                    needle,
                ) by {
                if suggestions.contains(e) {
                    let i = choose|i: int|
                        0 <= i < candidates.len() && (#[trigger] candidates[i]).0 == e && contains(
                            candidates[i].1,
                            needle,
                        );
                    assert(entries[i] == e);
                }
                if entries.contains(e) && contains(lowercase(e), needle) {
                    let i = choose|i: int| 0 <= i < entries.len() && entries[i] == e;
                    assert(candidates[i].0 == e && contains(candidates[i].1, needle));
                }
            }
        },
    }
}

/// What each candidate of `candidates` holds, one by one.
pub open spec fn pairs(candidates: Seq<Candidate>) -> Seq<(Seq<char>, Seq<char>)> {
    candidates.map_values(|c: Candidate| c@)
}

/// Finds the entry meant by `needle` among `candidates`. `needle` is taken
/// as it is: the caller has trimmed it and put it in lower case.
pub fn classify(needle: &str, candidates: &Vec<Candidate>) -> (found: MatchResult)
    ensures
        found@ == resolve(needle@, pairs(candidates@)),
{
    let ghost all = pairs(candidates@);
    let wanted = needle.to_owned();
    let wanted_chars = chars_of(needle);
    let mut suggestions: Vec<String> = Vec::new();
    let mut i: usize = 0;
    proof {
        assert(all.take(0) =~= Seq::<(Seq<char>, Seq<char>)>::empty());
        assert(suggestions.deep_view() =~= holding(needle@, all.take(0)));
    }
    while i < candidates.len()
        invariant
            i <= candidates.len(),
            all == pairs(candidates@),
            wanted@ == needle@,
            wanted_chars@ == needle@,
            forall|k: int| 0 <= k < i ==> (#[trigger] all[k]).1 != needle@,
            suggestions.deep_view() == holding(needle@, all.take(i as int)),
        decreases candidates.len() - i,
    {
        let candidate = &candidates[i];
        assert(all[i as int] == candidate@);
        if candidate.folded == wanted {
            proof {
                lemma_first_exact_at(needle@, all, i as int);
            }
            return MatchResult::ExactMatch(candidate.entry.clone());
        }
        let folded_chars = chars_of(candidate.folded.as_str());
        let ghost before = suggestions.deep_view();
        let holds = has_substring(&folded_chars, &wanted_chars);
        if holds {
            suggestions.push(candidate.entry.clone());
        }
        proof {
            let next = all.take(i + 1);
            assert(next.drop_last() =~= all.take(i as int));
            assert(next.last() == all[i as int]);
            if holds {
                assert(suggestions.deep_view() =~= before.push(candidate.entry@));
            }
        }
        i += 1;
    }
    proof {
        assert(all.take(candidates.len() as int) =~= all);
        lemma_first_exact_at(needle@, all, all.len() as int);
    }
    MatchResult::Suggestions(suggestions)
}

/// The entries of `catalog` as candidates, each with its lower case form.
pub fn candidates_of(catalog: &EntrySet) -> (candidates: Vec<Candidate>)
    ensures
        pairs(candidates@) == folded(catalog.order()),
{
    let entries = catalog.entries();
    let mut candidates: Vec<Candidate> = Vec::new();
    let mut i: usize = 0;
    while i < entries.len()
        invariant
            i <= entries.len(),
            entries.deep_view() == catalog.order(),
            pairs(candidates@) == folded(catalog.order().take(i as int)),
        decreases entries.len() - i,
    {
        let ghost before = pairs(candidates@);
        let entry = entries[i].clone();
        let lower = to_lowercase(entries[i].as_str());
        candidates.push(Candidate { entry, folded: lower });
        proof {
            let e = catalog.order()[i as int];
            assert(pairs(candidates@) =~= before.push((e, lowercase(e))));
            assert(folded(catalog.order().take(i + 1)) =~= folded(
                catalog.order().take(i as int),
            ).push((e, lowercase(e))));
        }
        i += 1;
    }
    proof {
        assert(catalog.order().take(entries.len() as int) =~= catalog.order());
    }
    candidates
}

/// The name `raw` as the matcher compares it.
pub fn normalized(raw: &str) -> (name: String)
    ensures
        name@ == normalize(raw@),
{
    let bare = trimmed(raw);
    to_lowercase(bare.as_str())
}

/// Finds the entry of `catalog` that the user means by `raw`: the name is
/// trimmed and put in lower case, every entry is put in lower case, and the
/// two are compared.
pub fn find_match(raw: &str, catalog: &EntrySet) -> (found: MatchResult)
    ensures
        found@ == resolve(normalize(raw@), folded(catalog.order())),
{
    let name = normalized(raw);
    let candidates = candidates_of(catalog);
    classify(name.as_str(), &candidates)
}

} // verus!
