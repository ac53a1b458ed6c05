//! Messages. A long text goes out as several messages, none longer than the
//! limit where its lines allow that, and each made of whole lines.

use crate::text::{
    chars_of, is_line, lemma_line_end_append, lemma_line_end_of_line, lemma_split_lines, line_end,
    next_line_end, split_lines, string_of,
};
use vstd::prelude::*;
use vstd::string::StringExecFns;

verus! {

/// The longest message that is sent in one piece, in characters.
pub const MAX_MESSAGE_LENGTH: usize = 4000;

/// The messages made so far and the message in the making, after one more
/// line: the line joins the message in the making if it fits there or that
/// message is empty; else that message is done and the line starts the next.
pub open spec fn pack_step(state: (Seq<Seq<char>>, Seq<char>), line: Seq<char>, limit: nat) -> (
    Seq<Seq<char>>,
    Seq<char>,
) {
    if state.1.len() > 0 && state.1.len() + line.len() > limit {
        (state.0.push(state.1), line)
    } else {
        (state.0, state.1 + line)
    }
}

/// The messages made and the message in the making once all of `lines` have
/// been taken in.
pub open spec fn pack_all(lines: Seq<Seq<char>>, limit: nat) -> (Seq<Seq<char>>, Seq<char>)
    decreases lines.len(),
{
    if lines.len() == 0 {
        (Seq::empty(), Seq::empty())
    } else {
        pack_step(pack_all(lines.drop_last(), limit), lines.last(), limit)
    }
}

/// The messages that `lines` go out in.
pub open spec fn pack(lines: Seq<Seq<char>>, limit: nat) -> Seq<Seq<char>> {
    let state = pack_all(lines, limit);
    if state.1.len() > 0 {
        state.0.push(state.1)
    } else {
        state.0
    }
}

/// The messages that `text` goes out in under the limit `limit`.
pub open spec fn chunks(text: Seq<char>, limit: nat) -> Seq<Seq<char>> {
    pack(split_lines(text), limit)
}

/// Whether `lines` are the lines of one text: each a line, and each but the
/// last closed by a line feed.
pub open spec fn are_lines(lines: Seq<Seq<char>>) -> bool {
    &&& forall|i: int| 0 <= i < lines.len() ==> is_line(#[trigger] lines[i])
    &&& forall|i: int| 0 <= i < lines.len() - 1 ==> (#[trigger] lines[i]).last() == '\n'
}

/// Whether the message `next` could not have started later: the message
/// `message` before it had no room left for the first line of `next`.
pub open spec fn is_full(message: Seq<char>, next: Seq<char>, limit: nat) -> bool {
    message.len() + line_end(next) > limit
}

/// Whether `message` is in order as one of the messages for `lines`: not
/// empty, and within the limit unless it is a single line.
pub open spec fn fits(message: Seq<char>, lines: Seq<Seq<char>>, limit: nat) -> bool {
    message.len() > 0 && (message.len() <= limit || lines.contains(message))
}

/// Putting a row of texts together, the last text comes last.
pub proof fn lemma_flatten_push(rows: Seq<Seq<char>>, last: Seq<char>)
    ensures
        rows.push(last).flatten() == rows.flatten() + last,
{
    rows.lemma_flatten_and_flatten_alt_are_equivalent();
    rows.push(last).lemma_flatten_and_flatten_alt_are_equivalent();
    assert(rows.push(last).drop_last() =~= rows);
}

/// What holds while lines are packed: nothing is lost, the message in the
/// making ends with the line taken in last, and every message is in order.
pub proof fn lemma_pack_all(lines: Seq<Seq<char>>, limit: nat)
    requires
        are_lines(lines),
    ensures
        ({
            let (done, current) = pack_all(lines, limit);
            &&& done.flatten() + current == lines.flatten()
            &&& current.len() > 0 <==> lines.len() > 0
            &&& lines.len() > 0 ==> current.len() >= lines.last().len() && current.last()
                == lines.last().last()
            &&& current.len() <= limit || (lines.len() > 0 && current == lines.last())
            &&& forall|i: int|
                0 <= i < done.len() ==> fits(#[trigger] done[i], lines, limit) && done[i].last()
                    == '\n'
            &&& forall|i: int|
                0 <= i < done.len() - 1 ==> is_full(#[trigger] done[i], done[i + 1], limit)
            &&& done.len() > 0 ==> is_full(done.last(), current, limit)
        }),
    decreases lines.len(),
{
    if lines.len() == 0 {
        assert(Seq::<Seq<char>>::empty().flatten() + Seq::<char>::empty() =~= lines.flatten());
    } else {
        let front = lines.drop_last();
        let last = lines.last();
        assert(are_lines(front)) by {
            assert forall|i: int| 0 <= i < front.len() implies is_line(#[trigger] front[i]) by {
                assert(front[i] == lines[i]);
            }
            assert forall|i: int| 0 <= i < front.len() - 1 implies (#[trigger] front[i]).last()
                == '\n' by {
                assert(front[i] == lines[i]);
            }
        }
        lemma_pack_all(front, limit);
        let (done0, current0) = pack_all(front, limit);
        let (done, current) = pack_all(lines, limit);
        assert(lines =~= front.push(last));
        lemma_flatten_push(front, last);
        assert(is_line(lines[lines.len() - 1]));
        assert(last.len() > 0);
        if front.len() > 0 {
            assert(front.last() == lines[lines.len() - 2]);
            assert(current0.last() == '\n');
        }
        assert forall|i: int| 0 <= i < done0.len() implies fits(#[trigger] done0[i], lines, limit) by {
            if front.contains(done0[i]) {
                let k = choose|k: int| 0 <= k < front.len() && front[k] == done0[i];
                assert(lines[k] == done0[i]);
            }
        }
        if current0.len() > 0 && current0.len() + last.len() > limit {
            lemma_flatten_push(done0, current0);
            assert(done0.flatten() + current0 + last =~= lines.flatten());
            assert(lines[lines.len() - 1] == last);
            assert(fits(current0, lines, limit)) by {
                if current0.len() > limit {
                    assert(lines[lines.len() - 2] == current0);
                }
            }
            assert forall|i: int| 0 <= i < done.len() implies fits(#[trigger] done[i], lines, limit)
                && done[i].last() == '\n' by {
                if i < done0.len() {
                    assert(done[i] == done0[i]);
                }
            }
            lemma_line_end_of_line(last);
            assert forall|i: int| 0 <= i < done.len() - 1 implies is_full(
                #[trigger] done[i],
                done[i + 1],
                limit,
            ) by {
                if i < done0.len() - 1 {
                    assert(is_full(done0[i], done0[i + 1], limit));
                } else {
                    assert(done[i] == done0.last());
                    assert(done[i + 1] == current0);
                }
            }
        } else {
            if current0.len() > 0 {
                lemma_line_end_append(current0, last);
            }
            assert(done0.flatten() + (current0 + last) =~= lines.flatten());
            assert((current0 + last).last() == last.last());
            if current0.len() == 0 {
                assert(current0 + last =~= last);
            }
        }
    }
}

/// The messages that a text goes out in, put together, are the text; none
/// is empty; each but the last ends where a line ends; each is within the
/// limit unless it is a single line of the text; and none could have taken
/// the first line of the next.
pub proof fn lemma_chunks(text: Seq<char>, limit: nat)
    ensures
        chunks(text, limit).flatten() == text,
        forall|i: int|
            0 <= i < chunks(text, limit).len() ==> fits(
                #[trigger] chunks(text, limit)[i],
                split_lines(text),
                limit,
            ),
        forall|i: int|
            0 <= i < chunks(text, limit).len() - 1 ==> (#[trigger] chunks(text, limit)[i]).last()
                == '\n',
        forall|i: int|
            0 <= i < chunks(text, limit).len() - 1 ==> is_full(
                #[trigger] chunks(text, limit)[i],
                chunks(text, limit)[i + 1],
                limit,
            ),
{
    let lines = split_lines(text);
    lemma_split_lines(text);
    assert(are_lines(lines));
    lemma_pack_all(lines, limit);
    let (done, current) = pack_all(lines, limit);
    let all = chunks(text, limit);
    if current.len() > 0 {
        lemma_flatten_push(done, current);
        assert(lines[lines.len() - 1] == lines.last());
        assert forall|i: int| 0 <= i < all.len() implies fits(#[trigger] all[i], lines, limit) by {
            if i < done.len() {
                assert(all[i] == done[i]);
            }
        }
        assert forall|i: int| 0 <= i < all.len() - 1 implies (#[trigger] all[i]).last() == '\n' by {
            assert(all[i] == done[i]);
        }
        assert forall|i: int| 0 <= i < all.len() - 1 implies is_full(
            #[trigger] all[i],
            all[i + 1],
            limit,
        ) by {
            assert(all[i] == done[i]);
            if i < done.len() - 1 {
                assert(all[i + 1] == done[i + 1]);
            } else {
                assert(done[i] == done.last());
            }
        }
    } else {
        assert(done.flatten() + current =~= done.flatten());
    }
}

/// A text that is longer than the limit, and has no line that is, goes out
/// in two messages at least.
pub proof fn lemma_long_text_is_split(text: Seq<char>, limit: nat)
    requires
        text.len() > limit,
        forall|i: int|
            0 <= i < split_lines(text).len() ==> (#[trigger] split_lines(text)[i]).len() <= limit,
    ensures
        chunks(text, limit).len() >= 2,
{
    lemma_chunks(text, limit);
    let all = chunks(text, limit);
    let lines = split_lines(text);
    if all.len() == 0 {
        assert(all.flatten() =~= Seq::<char>::empty());
    } else if all.len() == 1 {
        all.lemma_flatten_one_element();
        assert(fits(all[0], lines, limit));
        if lines.contains(all[0]) {
            let k = choose|k: int| 0 <= k < lines.len() && lines[k] == all[0];
            assert(lines[k].len() <= limit);
        }
    }
}

/// Splits `text` into the messages it goes out in: whole lines, as many to
/// a message as the limit of `limit` characters allows. A line that is
/// longer than the limit has a message of its own.
pub fn split_message(text: &str, limit: usize) -> (messages: Vec<String>)
    ensures
        messages.deep_view() == chunks(text@, limit as nat),
        messages.deep_view().flatten() == text@,
        forall|i: int|
            0 <= i < messages.len() ==> fits(
                #[trigger] messages.deep_view()[i],
                split_lines(text@),
                limit as nat,
            ),
        forall|i: int|
            0 <= i < messages.len() - 1 ==> (#[trigger] messages.deep_view()[i]).last() == '\n',
        forall|i: int|
            0 <= i < messages.len() - 1 ==> is_full(
                #[trigger] messages.deep_view()[i],
                messages.deep_view()[i + 1],
                limit as nat,
            ),
{
    let chars = chars_of(text);
    let ghost all = chars@;
    let ghost done: Seq<Seq<char>> = Seq::empty();
    let mut messages: Vec<String> = Vec::new();
    let mut from: usize = 0;
    let mut start: usize = 0;
    proof {
        assert(all.skip(0) =~= all);
        assert(done + split_lines(all) =~= split_lines(all));
        assert(messages.deep_view() =~= Seq::<Seq<char>>::empty());
        assert(all.subrange(0, 0) =~= Seq::<char>::empty());
    }
    while start < chars.len()
        invariant
            from <= start <= chars.len(),
            all == chars@,
            split_lines(all) == done + split_lines(all.skip(start as int)),
            pack_all(done, limit as nat) == (
                messages.deep_view(),
                all.subrange(from as int, start as int),
            ),
        decreases chars.len() - start,
    {
        let end = next_line_end(&chars, start);
        let ghost line = all.subrange(start as int, end as int);
        let ghost rest = all.skip(start as int);
        let ghost sent = messages.deep_view();
        let ghost current = all.subrange(from as int, start as int);
        proof {
            assert(rest.take(end - start) =~= line);
            assert(rest.skip(end - start) =~= all.skip(end as int));
            let later = split_lines(all.skip(end as int));
            assert(done.push(line) + later =~= done + (seq![line] + later));
            assert(done.push(line).drop_last() =~= done);
        }
        if start > from && end - from > limit {
            let message = string_of(&chars, from, start);
            messages.push(message);
            proof {
                assert(messages.deep_view() =~= sent.push(current));
            }
            from = start;
        } else {
            proof {
                assert(current + line =~= all.subrange(from as int, end as int));
            }
        }
        proof {
            done = done.push(line);
        }
        start = end;
    }
    proof {
        assert(done + split_lines(all.skip(start as int)) =~= done);
    }
    if start > from {
        let ghost sent = messages.deep_view();
        let message = string_of(&chars, from, start);
        messages.push(message);
        proof {
            assert(messages.deep_view() =~= sent.push(all.subrange(from as int, start as int)));
        }
    }
    proof {
        lemma_chunks(text@, limit as nat);
    }
    messages
}

/// A list as text: the title on a line of its own, then a line for each
/// entry, which starts with a dash and a space.
pub open spec fn listing(title: Seq<char>, entries: Seq<Seq<char>>) -> Seq<char>
    decreases entries.len(),
{
    if entries.len() == 0 {
        title + seq!['\n']
    } else {
        listing(title, entries.drop_last()) + seq!['-', ' '] + entries.last() + seq!['\n']
    }
}

/// Writes a list out as text, under the title `title`.
pub fn render_listing(title: &str, entries: &Vec<String>) -> (text: String)
    ensures
        text@ == listing(title@, entries.deep_view()),
{
    proof {
        reveal_strlit("\n");
        reveal_strlit("- ");
        assert("\n"@ =~= seq!['\n']);
        assert("- "@ =~= seq!['-', ' ']);
    }
    let mut text = title.to_owned();
    text.append("\n");
    let mut i: usize = 0;
    proof {
        assert(entries.deep_view().take(0) =~= Seq::<Seq<char>>::empty());
    }
    while i < entries.len()
        invariant
            i <= entries.len(),
            "\n"@ == seq!['\n'],
            "- "@ == seq!['-', ' '],
            text@ == listing(title@, entries.deep_view().take(i as int)),
        decreases entries.len() - i,
    {
        proof {
            let next = entries.deep_view().take(i + 1);
            assert(next.drop_last() =~= entries.deep_view().take(i as int));
            assert(next.last() == entries@[i as int]@);
        }
        text.append("- ");
        text.append(entries[i].as_str());
        text.append("\n");
        i += 1;
    }
    proof {
        assert(entries.deep_view().take(entries.len() as int) =~= entries.deep_view());
    }
    text
}

} // verus!
