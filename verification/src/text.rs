//! Text as sequences of characters: white space, trimming, lines, containment
//! and the dictionary order that list files are written in.

use vstd::prelude::*;

verus! {

/// Whether `c` is white space: the characters that carry Unicode's
/// `White_Space` property.
pub open spec fn is_whitespace(c: char) -> bool {
    let n = c as u32;
    ||| 0x09 <= n <= 0x0D
    ||| n == 0x20
    ||| n == 0x85
    ||| n == 0xA0
    ||| n == 0x1680
    ||| 0x2000 <= n <= 0x200A
    ||| n == 0x2028
    ||| n == 0x2029
    ||| n == 0x202F
    ||| n == 0x205F
    ||| n == 0x3000
}

/// Tells white space from everything else.
pub fn is_space(c: char) -> (b: bool)
    ensures
        b == is_whitespace(c),
{
    let n: u32 = c as u32;
    (0x09 <= n && n <= 0x0D) || n == 0x20 || n == 0x85 || n == 0xA0 || n == 0x1680 || (0x2000 <= n
        && n <= 0x200A) || n == 0x2028 || n == 0x2029 || n == 0x202F || n == 0x205F || n == 0x3000
}

/// The characters of `s`, one by one.
pub fn chars_of(s: &str) -> (v: Vec<char>)
    ensures
        v@ == s@,
{
    let mut v: Vec<char> = Vec::new();
    for c in it: s.chars()
        invariant
            v@ == it.seq().take(it.index()),
            it.seq() == s@,
    {
        v.push(c);
    }
    v
}

/// `String::push` of the standard library: appends one character to the end
/// of the string and leaves what was there before in place.
#[verifier::external_body]
fn push_char(s: &mut String, c: char)
    ensures
        final(s)@ == old(s)@.push(c),
{
    s.push(c)
}

/// The string made of the characters of `chars` from `from` up to `to`.
pub fn string_of(chars: &Vec<char>, from: usize, to: usize) -> (s: String)
    requires
        from <= to <= chars.len(),
    ensures
        s@ == chars@.subrange(from as int, to as int),
{
    let mut s = String::new();
    let mut i: usize = from;
    while i < to
        invariant
            from <= i <= to <= chars.len(),
            s@ == chars@.subrange(from as int, i as int),
        decreases to - i,
    {
        push_char(&mut s, chars[i]);
        i += 1;
    }
    s
}

/// `s` without the white space at its start.
pub open spec fn trim_start(s: Seq<char>) -> Seq<char>
    decreases s.len(),
{
    if s.len() > 0 && is_whitespace(s.first()) {
        trim_start(s.drop_first())
    } else {
        s
    }
}

/// `s` without the white space at its end.
pub open spec fn trim_end(s: Seq<char>) -> Seq<char>
    decreases s.len(),
{
    if s.len() > 0 && is_whitespace(s.last()) {
        trim_end(s.drop_last())
    } else {
        s
    }
}

/// `s` without the white space at either end.
pub open spec fn trim(s: Seq<char>) -> Seq<char> {
    trim_end(trim_start(s))
}

/// Where `trim_start` cuts: behind the leading white space.
pub proof fn lemma_trim_start_shape(s: Seq<char>) -> (a: int)
    ensures
        0 <= a <= s.len(),
        trim_start(s) == s.skip(a),
        forall|k: int| 0 <= k < a ==> is_whitespace(#[trigger] s[k]),
        a < s.len() ==> !is_whitespace(s[a]),
    decreases s.len(),
{
    if s.len() > 0 && is_whitespace(s.first()) {
        let t = s.drop_first();
        let a = lemma_trim_start_shape(t);
        assert(t.skip(a) =~= s.skip(a + 1));
        assert forall|k: int| 0 <= k < a + 1 implies is_whitespace(#[trigger] s[k]) by {
            if k > 0 {
                assert(s[k] == t[k - 1]);
            }
        }
        assert(a + 1 < s.len() ==> s[a + 1] == t[a]);
        a + 1
    } else {
        assert(s.skip(0) =~= s);
        0
    }
}

/// Where `trim_end` cuts: before the trailing white space.
pub proof fn lemma_trim_end_shape(s: Seq<char>) -> (b: int)
    ensures
        0 <= b <= s.len(),
        trim_end(s) == s.take(b),
        forall|k: int| b <= k < s.len() ==> is_whitespace(#[trigger] s[k]),
        b > 0 ==> !is_whitespace(s[b - 1]),
    decreases s.len(),
{
    if s.len() > 0 && is_whitespace(s.last()) {
        let t = s.drop_last();
        let b = lemma_trim_end_shape(t);
        assert(t.take(b) =~= s.take(b));
        assert forall|k: int| b <= k < s.len() implies is_whitespace(#[trigger] s[k]) by {
            if k < t.len() {
                assert(s[k] == t[k]);
            }
        }
        assert(b > 0 ==> s[b - 1] == t[b - 1]);
        b
    } else {
        assert(s.take(s.len() as int) =~= s);
        s.len() as int
    }
}

/// What `trim` gives is a stretch of `s` that is empty or starts and ends
/// with something other than white space; what it leaves out is white
/// space.
pub proof fn lemma_trim_shape(s: Seq<char>) -> (r: (int, int))
    ensures
        0 <= r.0 <= r.1 <= s.len(),
        trim(s) == s.subrange(r.0, r.1),
        forall|k: int| 0 <= k < r.0 || r.1 <= k < s.len() ==> is_whitespace(#[trigger] s[k]),
        trim(s).len() > 0 ==> !is_whitespace(trim(s).first()) && !is_whitespace(trim(s).last()),
{
    let a = lemma_trim_start_shape(s);
    let t = s.skip(a);
    let b = lemma_trim_end_shape(t);
    assert(t.take(b) =~= s.subrange(a, a + b));
    assert forall|k: int| 0 <= k < a || a + b <= k < s.len() implies is_whitespace(
        #[trigger] s[k],
    ) by {
        if k >= a + b {
            assert(s[k] == t[k - a]);
        }
    }
    if b > 0 {
        assert(t.take(b).first() == t[0]);
        assert(t.take(b).last() == t[b - 1]);
    }
    (a, a + b)
}

/// A text that is empty, or starts and ends with something other than white
/// space, is left as it is by `trim`, and no other text is.
pub proof fn lemma_trim_fixed(s: Seq<char>)
    ensures
        trim(s) == s <==> s.len() == 0 || (!is_whitespace(s.first()) && !is_whitespace(s.last())),
{
    let r = lemma_trim_shape(s);
    if s.len() > 0 && !is_whitespace(s.first()) && !is_whitespace(s.last()) {
        assert(s[0] == s.first() && s[s.len() - 1] == s.last());
        assert(s.subrange(0, s.len() as int) =~= s);
    }
}

/// Trimming twice gives what trimming once gives.
pub proof fn lemma_trim_idempotent(s: Seq<char>)
    ensures
        trim(trim(s)) == trim(s),
{
    let r = lemma_trim_shape(s);
    lemma_trim_fixed(trim(s));
}

/// The bounds of the trimmed part of `chars[from..to]`: what lies between
/// them starts and ends with something other than white space, or is empty.
pub fn trim_bounds(chars: &Vec<char>, from: usize, to: usize) -> (r: (usize, usize))
    requires
        from <= to <= chars.len(),
    ensures
        from <= r.0 <= r.1 <= to,
        chars@.subrange(r.0 as int, r.1 as int) == trim(chars@.subrange(from as int, to as int)),
{
    let ghost s = chars@.subrange(from as int, to as int);
    let mut a: usize = from;
    while a < to && is_space(chars[a])
        invariant
            from <= a <= to <= chars.len(),
            s == chars@.subrange(from as int, to as int),
            forall|k: int| 0 <= k < a - from ==> is_whitespace(#[trigger] s[k]),
        decreases to - a,
    {
        a += 1;
    }
    let ghost t = s.skip(a - from);
    proof {
        let cut = lemma_trim_start_shape(s);
        if cut < a - from {
            assert(is_whitespace(s[cut]));
        }
        if a < to {
            assert(s[a - from] == chars@[a as int]);
        }
        assert(trim_start(s) == t);
    }
    let mut b: usize = to;
    while b > a && is_space(chars[b - 1])
        invariant
            from <= a <= b <= to <= chars.len(),
            t == chars@.subrange(a as int, to as int),
            forall|k: int| b - a <= k < t.len() ==> is_whitespace(#[trigger] t[k]),
        decreases b,
    {
        b -= 1;
    }
    proof {
        let cut = lemma_trim_end_shape(t);
        if cut > b - a {
            assert(is_whitespace(t[cut - 1]));
        }
        if b > a {
            assert(t[b - a - 1] == chars@[b - 1]);
        }
        assert(trim_end(t) == t.take(b - a));
        assert(t.take(b - a) =~= chars@.subrange(a as int, b as int));
    }
    (a, b)
}

/// `s` without the white space at either end.
pub fn trimmed(s: &str) -> (r: String)
    ensures
        r@ == trim(s@),
{
    let chars = chars_of(s);
    let (a, b) = trim_bounds(&chars, 0, chars.len());
    proof {
        assert(chars@.subrange(0, chars.len() as int) =~= s@);
    }
    string_of(&chars, a, b)
}

/// One past the first line feed of `s`, or the length of `s` where it has
/// none: the length of its first line, line feed included.
pub open spec fn line_end(s: Seq<char>) -> int
    decreases s.len(),
{
    if s.len() == 0 {
        0
    } else if s.first() == '\n' {
        1
    } else {
        1 + line_end(s.drop_first())
    }
}

/// The first line of a text that is not empty is not empty either, and it
/// does not reach beyond the text.
pub proof fn lemma_line_end_bounds(s: Seq<char>)
    ensures
        0 <= line_end(s) <= s.len(),
        s.len() > 0 ==> line_end(s) >= 1,
    decreases s.len(),
{
    if s.len() > 0 && s.first() != '\n' {
        lemma_line_end_bounds(s.drop_first());
    }
}

/// The first line of `s` has its only line feed, if any, at its very end.
pub proof fn lemma_line_end_scan(s: Seq<char>)
    ensures
        forall|k: int| 0 <= k < line_end(s) - 1 ==> s[k] != '\n',
        line_end(s) < s.len() ==> s[line_end(s) - 1] == '\n',
    decreases s.len(),
{
    if s.len() > 0 && s.first() != '\n' {
        let t = s.drop_first();
        lemma_line_end_scan(t);
        lemma_line_end_bounds(t);
        assert forall|k: int| 0 <= k < line_end(s) - 1 implies s[k] != '\n' by {
            if k > 0 {
                assert(s[k] == t[k - 1]);
            }
        }
        if line_end(s) < s.len() {
            assert(s[line_end(s) - 1] == t[line_end(t) - 1]);
        }
    }
}

/// Where `s` has no line feed before position `m`, its first line ends
/// right after `m` if a line feed stands there, and at the end of `s` if `m`
/// is that end.
pub proof fn lemma_line_end_at(s: Seq<char>, m: int)
    requires
        0 <= m <= s.len(),
        forall|k: int| 0 <= k < m ==> s[k] != '\n',
        m < s.len() ==> s[m] == '\n',
    ensures
        line_end(s) == if m < s.len() { m + 1 } else { m },
    decreases m,
{
    if m > 0 {
        let t = s.drop_first();
        assert(s[0] != '\n');
        assert forall|k: int| 0 <= k < m - 1 implies t[k] != '\n' by {
            assert(t[k] == s[k + 1]);
        }
        if m < s.len() {
            assert(t[m - 1] == s[m]);
        }
        lemma_line_end_at(t, m - 1);
    }
}

/// The lines of `s`, in order, each with the line feed that ends it. Put
/// together again they give `s`: nothing is dropped and nothing added.
pub open spec fn split_lines(s: Seq<char>) -> Seq<Seq<char>>
    decreases s.len(),
{
    if s.len() == 0 {
        Seq::empty()
    } else {
        proof {
            lemma_line_end_bounds(s);
        }
        let k = line_end(s);
        seq![s.take(k)] + split_lines(s.skip(k))
    }
}

/// The end of the line that starts at `from`: one past its line feed, or
/// the end of the text where no line feed follows.
pub fn next_line_end(chars: &Vec<char>, from: usize) -> (end: usize)
    requires
        from <= chars.len(),
    ensures
        end == from + line_end(chars@.skip(from as int)),
        from <= end <= chars.len(),
        from < chars.len() ==> from < end,
{
    let ghost rest = chars@.skip(from as int);
    let mut i: usize = from;
    while i < chars.len() && chars[i] != '\n'
        invariant
            from <= i <= chars.len(),
            rest == chars@.skip(from as int),
            forall|k: int| 0 <= k < i - from ==> rest[k] != '\n',
        decreases chars.len() - i,
    {
        i += 1;
    }
    proof {
        lemma_line_end_at(rest, i - from);
    }
    if i < chars.len() {
        i + 1
    } else {
        i
    }
}

/// Whether `line` has the form of a line of a text: not empty, and with no
/// line feed but at its end.
pub open spec fn is_line(line: Seq<char>) -> bool {
    line.len() > 0 && forall|k: int| 0 <= k < line.len() - 1 ==> line[k] != '\n'
}

/// A line is its own first line.
pub proof fn lemma_line_end_of_line(line: Seq<char>)
    requires
        is_line(line),
    ensures
        line_end(line) == line.len(),
{
    if line.last() == '\n' {
        lemma_line_end_at(line, line.len() - 1);
    } else {
        lemma_line_end_at(line, line.len() as int);
    }
}

/// What follows a text that ends in a line feed does not reach into its
/// first line.
pub proof fn lemma_line_end_append(s: Seq<char>, more: Seq<char>)
    requires
        s.len() > 0,
        s.last() == '\n',
    ensures
        line_end(s + more) == line_end(s),
{
    lemma_line_end_bounds(s);
    lemma_line_end_scan(s);
    let m = line_end(s) - 1;
    let t = s + more;
    assert(s[m] == '\n');
    assert(t[m] == s[m]);
    assert forall|k: int| 0 <= k < m implies t[k] != '\n' by {
        assert(t[k] == s[k]);
    }
    lemma_line_end_at(t, m);
}

/// A text that starts with the line `line`, line feed at its end, has that
/// line as its first, and behind it the lines of the rest.
pub proof fn lemma_split_lines_first(line: Seq<char>, rest: Seq<char>)
    requires
        is_line(line),
        line.last() == '\n',
    ensures
        split_lines(line + rest) == seq![line] + split_lines(rest),
{
    let s = line + rest;
    let m = line.len() - 1;
    assert(s[m] == line.last());
    assert forall|k: int| 0 <= k < m implies s[k] != '\n' by {
        assert(s[k] == line[k]);
    }
    lemma_line_end_at(s, m);
    assert(s.take(m + 1) =~= line);
    assert(s.skip(m + 1) =~= rest);
}

/// Every line that `split_lines` gives has the form of a line, every line
/// but the last ends in a line feed, and the lines put together are the
/// text.
pub proof fn lemma_split_lines(s: Seq<char>)
    ensures
        forall|i: int| 0 <= i < split_lines(s).len() ==> is_line(#[trigger] split_lines(s)[i]),
        forall|i: int|
            0 <= i < split_lines(s).len() - 1 ==> (#[trigger] split_lines(s)[i]).last() == '\n',
        split_lines(s).flatten() == s,
        split_lines(s).len() <= s.len(),
    decreases s.len(),
{
    if s.len() > 0 {
        lemma_line_end_bounds(s);
        lemma_line_end_scan(s);
        let k = line_end(s);
        let head = s.take(k);
        let tail = split_lines(s.skip(k));
        lemma_split_lines(s.skip(k));
        let all = seq![head] + tail;
        assert(split_lines(s) == all);
        assert(is_line(head)) by {
            assert forall|j: int| 0 <= j < head.len() - 1 implies head[j] != '\n' by {
                assert(head[j] == s[j]);
            }
        }
        assert forall|i: int| 0 <= i < all.len() implies is_line(#[trigger] all[i]) by {
            if i > 0 {
                assert(all[i] == tail[i - 1]);
            }
        }
        assert forall|i: int| 0 <= i < all.len() - 1 implies (#[trigger] all[i]).last()
            == '\n' by {
            if i > 0 {
                assert(all[i] == tail[i - 1]);
            } else {
                assert(tail.len() > 0);
                assert(s.skip(k).len() > 0);
                assert(head.last() == s[k - 1]);
            }
        }
        assert(all.first() == head);
        assert(all.drop_first() =~= tail);
        assert(all.flatten() =~= head + tail.flatten());
        assert(head + s.skip(k) =~= s);
    } else {
        assert(split_lines(s).flatten() =~= s);
    }
}

/// Whether `needle` stands in `hay` at position `i`.
pub open spec fn occurs_at(hay: Seq<char>, needle: Seq<char>, i: int) -> bool {
    0 <= i && i + needle.len() <= hay.len() && hay.subrange(i, i + needle.len()) == needle
}

/// Whether `needle` stands somewhere in `hay`. The empty text stands in
/// every text.
pub open spec fn contains(hay: Seq<char>, needle: Seq<char>) -> bool {
    exists|i: int| occurs_at(hay, needle, i)
}

/// Whether `needle` stands in `hay` at position `i`.
pub fn matches_at(hay: &Vec<char>, needle: &Vec<char>, i: usize) -> (b: bool)
    requires
        i + needle.len() <= hay.len(),
    ensures
        b == occurs_at(hay@, needle@, i as int),
{
    let mut j: usize = 0;
    while j < needle.len()
        invariant
            j <= needle.len(),
            i + needle.len() <= hay.len(),
            forall|k: int| 0 <= k < j ==> hay@[i + k] == needle@[k],
        decreases needle.len() - j,
    {
        if hay[i + j] != needle[j] {
            proof {
                let part = hay@.subrange(i as int, i + needle.len());
                assert(part[j as int] == hay@[i + j]);
            }
            return false;
        }
        j += 1;
    }
    proof {
        assert(hay@.subrange(i as int, i + needle.len()) =~= needle@);
    }
    true
}

/// Whether `needle` stands somewhere in `hay`.
pub fn has_substring(hay: &Vec<char>, needle: &Vec<char>) -> (found: bool)
    ensures
        found == contains(hay@, needle@),
{
    if needle.len() > hay.len() {
        return false;
    }
    let last: usize = hay.len() - needle.len();
    let mut i: usize = 0;
    loop
        invariant
            i <= last,
            last == hay.len() - needle.len(),
            forall|k: int| 0 <= k < i ==> !occurs_at(hay@, needle@, k),
        decreases last - i,
    {
        if matches_at(hay, needle, i) {
            return true;
        }
        if i == last {
            return false;
        }
        i += 1;
    }
}

/// Dictionary order on texts, character by character by code point: `a`
/// comes before `b` or is `b`. A text comes after each of its proper prefixes.
pub open spec fn lex_le(a: Seq<char>, b: Seq<char>) -> bool
    decreases a.len(),
{
    if a.len() == 0 {
        true
    } else if b.len() == 0 {
        false
    } else if a.first() != b.first() {
        (a.first() as int) < (b.first() as int)
    } else {
        lex_le(a.drop_first(), b.drop_first())
    }
}

/// Every text is ordered with itself.
pub proof fn lemma_lex_le_reflexive(a: Seq<char>)
    ensures
        lex_le(a, a),
    decreases a.len(),
{
    if a.len() > 0 {
        lemma_lex_le_reflexive(a.drop_first());
    }
}

/// Of two texts one comes before the other, or they are the same.
pub proof fn lemma_lex_le_total(a: Seq<char>, b: Seq<char>)
    ensures
        lex_le(a, b) || lex_le(b, a),
    decreases a.len(),
{
    if a.len() > 0 && b.len() > 0 && a.first() == b.first() {
        lemma_lex_le_total(a.drop_first(), b.drop_first());
    }
}

/// Two texts that are ordered both ways are the same text.
pub proof fn lemma_lex_le_antisymmetric(a: Seq<char>, b: Seq<char>)
    requires
        lex_le(a, b),
        lex_le(b, a),
    ensures
        a == b,
    decreases a.len(),
{
    if a.len() == 0 || b.len() == 0 {
        assert(a =~= b);
    } else {
        assert(a.first() == b.first());
        lemma_lex_le_antisymmetric(a.drop_first(), b.drop_first());
        assert(a =~= seq![a.first()] + a.drop_first());
        assert(b =~= seq![b.first()] + b.drop_first());
    }
}

/// The order carries over: from `a` before `b` and `b` before `c`, `a`
/// before `c`.
pub proof fn lemma_lex_le_transitive(a: Seq<char>, b: Seq<char>, c: Seq<char>)
    requires
        lex_le(a, b),
        lex_le(b, c),
    ensures
        lex_le(a, c),
    decreases a.len(),
{
    if a.len() > 0 && b.len() > 0 && c.len() > 0 {
        if a.first() == b.first() && b.first() == c.first() {
            lemma_lex_le_transitive(a.drop_first(), b.drop_first(), c.drop_first());
        }
    }
}

/// Whether `a` comes before `b` in dictionary order, or is `b`.
pub fn precedes(a: &Vec<char>, b: &Vec<char>) -> (r: bool)
    ensures
        r == lex_le(a@, b@),
{
    let mut i: usize = 0;
    proof {
        assert(a@.skip(0) =~= a@);
        assert(b@.skip(0) =~= b@);
    }
    while i < a.len() && i < b.len()
        invariant
            i <= a.len(),
            i <= b.len(),
            lex_le(a@, b@) == lex_le(a@.skip(i as int), b@.skip(i as int)),
        decreases a.len() - i,
    {
        let x: char = a[i];
        let y: char = b[i];
        proof {
            let ra = a@.skip(i as int);
            let rb = b@.skip(i as int);
            assert(ra.first() == a@[i as int] && rb.first() == b@[i as int]);
            assert(ra.drop_first() =~= a@.skip(i + 1));
            assert(rb.drop_first() =~= b@.skip(i + 1));
        }
        if x != y {
            return x < y;
        }
        i += 1;
    }
    i == a.len()
}

} // verus!
