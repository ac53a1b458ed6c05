//! List files. A list file holds one entry per line; on reading, lines are
//! trimmed, blank lines dropped and repeated entries kept once; on writing,
//! the entries go out in dictionary order, each followed by a line feed.

use crate::entries::{
    is_sorted, lemma_sort, lemma_sort_no_duplicates, sort, EntrySet,
};
use crate::text::{
    chars_of, is_line, is_whitespace, lemma_split_lines, lemma_split_lines_first,
    lemma_trim_fixed, lemma_trim_idempotent, lemma_trim_shape, line_end, next_line_end,
    split_lines, string_of, trim, trim_bounds,
};
use vstd::prelude::*;
use vstd::string::StringExecFns;

verus! {

/// `held` after one more line of a list file has been read: the trimmed
/// line joins the entries unless it is blank or among them already.
pub open spec fn keep(held: Seq<Seq<char>>, line: Seq<char>) -> Seq<Seq<char>> {
    let entry = trim(line);
    if entry.len() == 0 || held.contains(entry) {
        held
    } else {
        held.push(entry)
    }
}

/// The entries that the lines `lines` give, in the order in which each
/// first occurs.
pub open spec fn collect(lines: Seq<Seq<char>>) -> Seq<Seq<char>>
    decreases lines.len(),
{
    if lines.len() == 0 {
        Seq::empty()
    } else {
        keep(collect(lines.drop_last()), lines.last())
    }
}

/// The entries of a list file with the contents `text`.
pub open spec fn parse(text: Seq<char>) -> Seq<Seq<char>> {
    collect(split_lines(text))
}

/// The entries of a list file that may be absent: an absent file holds
/// nothing.
pub open spec fn stored(contents: Option<Seq<char>>) -> Seq<Seq<char>> {
    match contents {
        Some(text) => parse(text),
        None => Seq::empty(),
    }
}

/// The characters of the contents of a file, where there is one.
pub open spec fn text_of(contents: Option<&str>) -> Option<Seq<char>> {
    match contents {
        Some(text) => Some(text@),
        None => None,
    }
}

/// The contents of a list file with the lines `lines`: each line followed
/// by a line feed.
pub open spec fn render(lines: Seq<Seq<char>>) -> Seq<char>
    decreases lines.len(),
{
    if lines.len() == 0 {
        Seq::empty()
    } else {
        render(lines.drop_last()) + lines.last() + seq!['\n']
    }
}

/// What `add` writes: nothing where the file holds `entry` already, else
/// the file's entries and `entry` in dictionary order.
pub open spec fn added(contents: Option<Seq<char>>, entry: Seq<char>) -> Option<Seq<char>> {
    let held = stored(contents);
    if held.contains(entry) {
        None
    } else {
        Some(render(sort(held.push(entry))))
    }
}

/// What the file holds once `add` has run and its answer has been written:
/// the new contents, or what was there where nothing was to write.
pub open spec fn after_add(contents: Option<Seq<char>>, entry: Seq<char>) -> Option<Seq<char>> {
    match added(contents, entry) {
        Some(text) => Some(text),
        None => contents,
    }
}

/// What the file holds once every entry of `entries` has been added in
/// turn.
pub open spec fn after_all(contents: Option<Seq<char>>, entries: Seq<Seq<char>>) -> Option<
    Seq<char>,
>
    decreases entries.len(),
{
    if entries.len() == 0 {
        contents
    } else {
        after_add(after_all(contents, entries.drop_last()), entries.last())
    }
}

/// Whether a list file is absent or as `add` leaves one: a line for each
/// entry, no line twice, the entries in dictionary order.
pub open spec fn is_tidy(contents: Option<Seq<char>>) -> bool {
    match contents {
        Some(text) => {
            &&& split_lines(text) == as_lines(parse(text))
            &&& split_lines(text).no_duplicates()
            &&& is_sorted(parse(text))
        },
        None => true,
    }
}

/// Whether `entry` can stand as a line of a list file and be read back as
/// it is: not empty, trimmed, and on one line.
pub open spec fn is_entry(entry: Seq<char>) -> bool {
    entry.len() > 0 && trim(entry) == entry && !entry.contains('\n')
}

/// The lines of a list file with the entries `entries`.
pub open spec fn as_lines(entries: Seq<Seq<char>>) -> Seq<Seq<char>> {
    entries.map_values(|e: Seq<char>| e + seq!['\n'])
}

/// What a line of a text gives when trimmed is empty or an entry.
pub proof fn lemma_trim_line(line: Seq<char>)
    requires
        is_line(line),
    ensures
        trim(line).len() == 0 || is_entry(trim(line)),
{
    let r = lemma_trim_shape(line);
    let e = trim(line);
    lemma_trim_idempotent(line);
    if e.len() > 0 {
        if e.contains('\n') {
            let i = choose|i: int| 0 <= i < e.len() && e[i] == '\n';
            assert(e[i] == line[r.0 + i]);
            assert(r.0 + i == line.len() - 1);
            assert(e.last() == e[i]);
        }
    }
}

/// An entry followed by a line feed is a line, and trims to the entry.
pub proof fn lemma_entry_line(entry: Seq<char>)
    requires
        is_entry(entry),
    ensures
        is_line(entry + seq!['\n']),
        (entry + seq!['\n']).last() == '\n',
        trim(entry + seq!['\n']) == entry,
{
    let line = entry + seq!['\n'];
    assert forall|k: int| 0 <= k < line.len() - 1 implies line[k] != '\n' by {
        assert(line[k] == entry[k]);
    }
    lemma_trim_fixed(entry);
    let r = lemma_trim_shape(line);
    assert(line[0] == entry.first());
    assert(line[line.len() - 2] == entry.last());
    assert(is_whitespace('\n'));
    assert(r.0 == 0) by {
        if r.0 > 0 {
            assert(is_whitespace(line[0]));
        }
    }
    assert(r.1 == line.len() - 1) by {
        if r.1 < line.len() - 1 {
            assert(is_whitespace(line[line.len() - 2]));
        }
        if r.1 == line.len() {
            assert(trim(line).last() == line[line.len() - 1]);
        }
    }
    assert(line.subrange(0, line.len() - 1) =~= entry);
}

/// The first line of the contents of a list file can be split off.
pub proof fn lemma_render_first(lines: Seq<Seq<char>>)
    requires
        lines.len() > 0,
    ensures
        render(lines) == (lines.first() + seq!['\n']) + render(lines.drop_first()),
    decreases lines.len(),
{
    if lines.len() == 1 {
        assert(render(lines.drop_last()) =~= Seq::<char>::empty());
        assert(render(lines.drop_first()) =~= Seq::<char>::empty());
        assert(render(lines) =~= (lines.first() + seq!['\n']) + render(lines.drop_first()));
    } else {
        let front = lines.drop_last();
        lemma_render_first(front);
        assert(front.first() == lines.first());
        assert(front.drop_first() =~= lines.drop_first().drop_last());
        assert(lines.drop_first().last() == lines.last());
        assert(render(lines) =~= (lines.first() + seq!['\n']) + render(lines.drop_first()));
    }
}

/// The contents written for entries fall into one line for each entry.
pub proof fn lemma_split_render(entries: Seq<Seq<char>>)
    requires
        forall|i: int| 0 <= i < entries.len() ==> is_entry(#[trigger] entries[i]),
    ensures
        split_lines(render(entries)) == as_lines(entries),
    decreases entries.len(),
{
    if entries.len() == 0 {
        assert(split_lines(render(entries)) =~= as_lines(entries));
    } else {
        let rest = entries.drop_first();
        assert forall|i: int| 0 <= i < rest.len() implies is_entry(#[trigger] rest[i]) by {
            assert(rest[i] == entries[i + 1]);
        }
        lemma_split_render(rest);
        lemma_render_first(entries);
        lemma_entry_line(entries.first());
        lemma_split_lines_first(entries.first() + seq!['\n'], render(rest));
        assert(seq![entries.first() + seq!['\n']] + as_lines(rest) =~= as_lines(entries));
    }
}

/// Lines written for entries that differ, read again, give those entries.
pub proof fn lemma_collect_lines(entries: Seq<Seq<char>>)
    requires
        forall|i: int| 0 <= i < entries.len() ==> is_entry(#[trigger] entries[i]),
        entries.no_duplicates(),
    ensures
        collect(as_lines(entries)) == entries,
    decreases entries.len(),
{
    if entries.len() == 0 {
        assert(collect(as_lines(entries)) =~= entries);
    } else {
        let front = entries.drop_last();
        let last = entries.last();
        assert forall|i: int| 0 <= i < front.len() implies is_entry(#[trigger] front[i]) by {
            assert(front[i] == entries[i]);
        }
        lemma_collect_lines(front);
        assert(as_lines(entries).drop_last() =~= as_lines(front));
        assert(as_lines(entries).last() == last + seq!['\n']);
        lemma_entry_line(last);
        assert(!front.contains(last)) by {
            if front.contains(last) {
                let i = choose|i: int| 0 <= i < front.len() && front[i] == last;
                assert(entries[i] == entries[entries.len() - 1]);
            }
        }
        assert(front.push(last) =~= entries);
    }
}

/// What was written for entries that differ is read back as those entries,
/// in the order in which they were written.
pub proof fn lemma_round_trip(entries: Seq<Seq<char>>)
    requires
        forall|i: int| 0 <= i < entries.len() ==> is_entry(#[trigger] entries[i]),
        entries.no_duplicates(),
    ensures
        parse(render(entries)) == entries,
{
    lemma_split_render(entries);
    lemma_collect_lines(entries);
}

/// What the lines of a text give is a row of entries that differ, and holds
/// the trimmed lines that are not blank, no others.
pub proof fn lemma_collect(lines: Seq<Seq<char>>)
    requires
        forall|i: int| 0 <= i < lines.len() ==> is_line(#[trigger] lines[i]),
    ensures
        collect(lines).no_duplicates(),
        forall|i: int| 0 <= i < collect(lines).len() ==> is_entry(#[trigger] collect(lines)[i]),
        forall|e: Seq<char>| #[trigger]
            collect(lines).contains(e) <==> e.len() > 0 && exists|i: int|
                0 <= i < lines.len() && trim(#[trigger] lines[i]) == e,
    decreases lines.len(),
{
    if lines.len() > 0 {
        let front = lines.drop_last();
        let last = lines.last();
        assert forall|i: int| 0 <= i < front.len() implies is_line(#[trigger] front[i]) by {
            assert(front[i] == lines[i]);
        }
        lemma_collect(front);
        lemma_trim_line(last);
        let held = collect(front);
        let now = collect(lines);
        let entry = trim(last);
        assert(now == keep(held, last));
        assert forall|i: int| 0 <= i < now.len() implies is_entry(#[trigger] now[i]) by {
            if i < held.len() {
                assert(now[i] == held[i]);
            }
        }
        assert forall|e: Seq<char>| #[trigger]
            now.contains(e) <==> e.len() > 0 && exists|i: int|
                0 <= i < lines.len() && trim(#[trigger] lines[i]) == e by {
            if now.contains(e) {
                let k = choose|k: int| 0 <= k < now.len() && now[k] == e;
                if k < held.len() {
                    assert(held[k] == e);
                    assert(held.contains(e));
                    let i = choose|i: int| 0 <= i < front.len() && trim(#[trigger] front[i]) == e;
                    assert(trim(lines[i]) == e);
                } else {
                    assert(e == entry);
                    assert(trim(lines[lines.len() - 1]) == e);
                }
            }
            if e.len() > 0 && exists|i: int| 0 <= i < lines.len() && trim(#[trigger] lines[i]) == e {
                let i = choose|i: int| 0 <= i < lines.len() && trim(#[trigger] lines[i]) == e;
                if i < front.len() {
                    assert(trim(front[i]) == e);
                    assert(held.contains(e));
                    let k = choose|k: int| 0 <= k < held.len() && held[k] == e;
                    assert(now[k] == e);
                } else {
                    assert(e == entry);
                    if held.contains(e) {
                        let k = choose|k: int| 0 <= k < held.len() && held[k] == e;
                        assert(now[k] == e);
                    } else {
                        assert(now[held.len() as int] == e);
                    }
                }
            }
        }
    }
}

/// Reading a list file gives its lines, trimmed, without the blank ones,
/// each once.
pub proof fn lemma_parse(text: Seq<char>)
    ensures
        parse(text).no_duplicates(),
        forall|e: Seq<char>| #[trigger]
            parse(text).contains(e) <==> e.len() > 0 && exists|i: int|
                0 <= i < split_lines(text).len() && trim(#[trigger] split_lines(text)[i]) == e,
{
    lemma_split_lines(text);
    lemma_collect(split_lines(text));
}

/// The entries of a list file differ from each other, and each can be
/// written and read back as it is.
pub proof fn lemma_stored(contents: Option<Seq<char>>)
    ensures
        stored(contents).no_duplicates(),
        forall|i: int| 0 <= i < stored(contents).len() ==> is_entry(#[trigger] stored(contents)[i]),
{
    if let Some(text) = contents {
        lemma_split_lines(text);
        lemma_collect(split_lines(text));
    }
}

/// What `save` writes for entries that differ, read again, gives those
/// entries in dictionary order; and it holds a line for each entry, no
/// line twice.
pub proof fn lemma_save_reads_back(entries: Seq<Seq<char>>)
    requires
        forall|i: int| 0 <= i < entries.len() ==> is_entry(#[trigger] entries[i]),
        entries.no_duplicates(),
    ensures
        parse(render(sort(entries))) == sort(entries),
        is_sorted(parse(render(sort(entries)))),
        parse(render(sort(entries))).no_duplicates(),
        parse(render(sort(entries))).to_set() == entries.to_set(),
        split_lines(render(sort(entries))) == as_lines(sort(entries)),
        split_lines(render(sort(entries))).no_duplicates(),
{
    let lines = sort(entries);
    lemma_sort(entries);
    lemma_sort_no_duplicates(entries);
    assert forall|i: int| 0 <= i < lines.len() implies is_entry(#[trigger] lines[i]) by {
        assert(lines.contains(lines[i]));
        assert(entries.contains(lines[i]));
    }
    lemma_round_trip(lines);
    lemma_split_render(lines);
    assert(lines.to_set() =~= entries.to_set());
    assert(as_lines(lines).no_duplicates()) by {
        assert forall|i: int, j: int| 0 <= i < lines.len() && 0 <= j < lines.len() && i
            != j implies as_lines(lines)[i] != as_lines(lines)[j] by {
            let a = lines[i] + seq!['\n'];
            let b = lines[j] + seq!['\n'];
            if a == b {
                assert(a.drop_last() =~= lines[i]);
                assert(b.drop_last() =~= lines[j]);
            }
        }
    }
}

/// What `add` writes, read again, gives the entries that the file held and
/// the new one, each once and in dictionary order; and no two lines of what
/// it writes are the same.
pub proof fn lemma_add_reads_back(contents: Option<Seq<char>>, entry: Seq<char>)
    requires
        is_entry(entry),
    ensures
        match added(contents, entry) {
            Some(text) => {
                &&& !stored(contents).contains(entry)
                &&& parse(text) == sort(stored(contents).push(entry))
                &&& is_sorted(parse(text))
                &&& parse(text).no_duplicates()
                &&& parse(text).to_set() == stored(contents).to_set().insert(entry)
                &&& split_lines(text) == as_lines(parse(text))
                &&& split_lines(text).no_duplicates()
            },
            None => stored(contents).contains(entry),
        },
{
    let held = stored(contents);
    lemma_stored(contents);
    if !held.contains(entry) {
        let more = held.push(entry);
        assert(more.no_duplicates()) by {
            assert forall|i: int, j: int| 0 <= i < more.len() && 0 <= j < more.len() && i
                != j implies more[i] != more[j] by {
                if i < held.len() && j < held.len() {
                    assert(held[i] != held[j]);
                } else if i < held.len() {
                    assert(held[i] == more[i]);
                } else {
                    assert(held[j] == more[j]);
                }
            }
        }
        assert forall|i: int| 0 <= i < more.len() implies is_entry(#[trigger] more[i]) by {
            if i < held.len() {
                assert(held[i] == more[i]);
            }
        }
        lemma_save_reads_back(more);
        held.lemma_push_to_set_commute(entry);
    }
}

/// Adding the same entry a second time changes nothing: `add` gives new
/// contents for an entry that the file does not hold, and once these are
/// written it gives `None` for that entry; the file stays as the first
/// call left it.
pub proof fn lemma_add_twice(contents: Option<Seq<char>>, entry: Seq<char>)
    requires
        is_entry(entry),
    ensures
        !stored(contents).contains(entry) ==> added(contents, entry) is Some && added(
            added(contents, entry),
            entry,
        ) is None,
        added(after_add(contents, entry), entry) is None,
        after_add(after_add(contents, entry), entry) == after_add(contents, entry),
{
    lemma_add_reads_back(contents, entry);
    match added(contents, entry) {
        Some(text) => {
            assert(stored(contents).to_set().insert(entry).contains(entry));
            assert(parse(text).to_set().contains(entry));
        },
        None => {},
    }
}

/// The file, with every entry of `entries` added to it in turn, holds no
/// line twice, and reads back in dictionary order as the entries it had at
/// first together with those added.
pub proof fn lemma_add_all(contents: Option<Seq<char>>, entries: Seq<Seq<char>>)
    requires
        forall|i: int| 0 <= i < entries.len() ==> is_entry(#[trigger] entries[i]),
        is_tidy(contents),
    ensures
        is_tidy(after_all(contents, entries)),
        stored(after_all(contents, entries)).to_set() == stored(contents).to_set().union(
            entries.to_set(),
        ),
    decreases entries.len(),
{
    if entries.len() == 0 {
        assert(stored(contents).to_set().union(entries.to_set()) =~= stored(contents).to_set());
    } else {
        let front = entries.drop_last();
        let last = entries.last();
        assert forall|i: int| 0 <= i < front.len() implies is_entry(#[trigger] front[i]) by {
            assert(front[i] == entries[i]);
        }
        lemma_add_all(contents, front);
        let mid = after_all(contents, front);
        lemma_add_reads_back(mid, last);
        assert(entries =~= front.push(last));
        front.lemma_push_to_set_commute(last);
        match added(mid, last) {
            Some(text) => {
                assert(stored(contents).to_set().union(front.to_set()).insert(last)
                    =~= stored(contents).to_set().union(entries.to_set()));
            },
            None => {
                assert(stored(mid).to_set().contains(last));
                assert(stored(contents).to_set().union(front.to_set())
                    =~= stored(contents).to_set().union(entries.to_set()));
            },
        }
    }
}

/// Reads a list file. `contents` is what the file holds, `None` where there
/// is no such file, which counts as a list without entries.
pub fn load(contents: Option<&str>) -> (set: EntrySet)
    ensures
        set.order() == stored(text_of(contents)),
        contents is None ==> set.order().len() == 0,
{
    let mut set = EntrySet::new();
    match contents {
        None => set,
        Some(text) => {
            let chars = chars_of(text);
            let ghost all = chars@;
            let ghost done: Seq<Seq<char>> = Seq::empty();
            let mut start: usize = 0;
            proof {
                assert(all.skip(0) =~= all);
                assert(done + split_lines(all) =~= split_lines(all));
            }
            while start < chars.len()
                invariant
                    start <= chars.len(),
                    all == chars@,
                    split_lines(all) == done + split_lines(all.skip(start as int)),
                    set.order() == collect(done),
                decreases chars.len() - start,
            {
                let end = next_line_end(&chars, start);
                let (a, b) = trim_bounds(&chars, start, end);
                let ghost line = all.subrange(start as int, end as int);
                let ghost rest = all.skip(start as int);
                proof {
                    assert(rest.take(line_end(rest)) =~= line);
                    assert(rest.skip(line_end(rest)) =~= all.skip(end as int));
                    let later = split_lines(all.skip(end as int));
                    assert(done.push(line) + later =~= done + (seq![line] + later));
                    assert(done.push(line).drop_last() =~= done);
                }
                if a < b {
                    set.insert(string_of(&chars, a, b));
                }
                proof {
                    done = done.push(line);
                }
                start = end;
            }
            proof {
                assert(done + split_lines(all.skip(start as int)) =~= done);
            }
            set
        },
    }
}

/// The contents of the list file for `entries`: the entries in dictionary
/// order, each on a line of its own.
pub fn save(entries: &EntrySet) -> (text: String)
    ensures
        text@ == render(sort(entries.order())),
{
    let lines = entries.to_sorted();
    let mut text = String::new();
    let mut i: usize = 0;
    while i < lines.len()
        invariant
            i <= lines.len(),
            text@ == render(lines.deep_view().take(i as int)),
        decreases lines.len() - i,
    {
        proof {
            let next = lines.deep_view().take(i + 1);
            assert(next.drop_last() =~= lines.deep_view().take(i as int));
            assert(next.last() == lines@[i as int]@);
            reveal_strlit("\n");
            assert("\n"@ =~= seq!['\n']);
        }
        text.append(lines[i].as_str());
        text.append("\n");
        i += 1;
    }
    proof {
        assert(lines.deep_view().take(lines.len() as int) =~= lines.deep_view());
    }
    text
}

/// Adds `entry` to a list file with the contents `contents` (`None`: no
/// such file yet). Gives the new contents to write where the entry was not
/// in the file, and `None`, with nothing to write, where it was.
pub fn add(contents: Option<&str>, entry: &str) -> (written: Option<String>)
    ensures
        written is Some <==> !stored(text_of(contents)).contains(entry@),
        match written {
            Some(text) => added(text_of(contents), entry@) == Some(text@),
            None => added(text_of(contents), entry@) is None,
        },
{
    let mut set = load(contents);
    if set.insert(entry.to_owned()) {
        Some(save(&set))
    } else {
        None
    }
}

} // verus!
