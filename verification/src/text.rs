//! Searching, splitting and trimming of character sequences.
//!
//! Every executable function here is specified over `Seq<char>`, the view of
//! `str` and `String`.

use vstd::prelude::*;

verus! {

/// `pat` stands in `s` at offset `i`.
pub open spec fn occurs_at(s: Seq<char>, pat: Seq<char>, i: int) -> bool {
    &&& 0 <= i
    &&& i + pat.len() <= s.len()
    &&& s.subrange(i, i + pat.len()) == pat
}

/// `pat` stands somewhere in `s`.
pub open spec fn occurs_in(s: Seq<char>, pat: Seq<char>) -> bool {
    exists|i: int| occurs_at(s, pat, i)
}

/// `i` is the leftmost offset at which `pat` stands in `s`.
pub open spec fn is_first_occurrence(s: Seq<char>, pat: Seq<char>, i: int) -> bool {
    &&& occurs_at(s, pat, i)
    &&& forall|j: int| 0 <= j < i ==> !occurs_at(s, pat, j)
}

/// The leftmost offset at which `pat` stands in `s`, if there is one.
pub open spec fn first_occurrence(s: Seq<char>, pat: Seq<char>) -> Option<int> {
    if exists|i: int| is_first_occurrence(s, pat, i) {
        Some(choose|i: int| is_first_occurrence(s, pat, i))
    } else {
        None
    }
}

/// The fields of `s` between the occurrences of `sep`, found from left to
/// right without overlap. A sequence without `sep` is one field, and so is
/// any sequence when `sep` is empty.
pub open spec fn fields_of(s: Seq<char>, sep: Seq<char>) -> Seq<Seq<char>>
    decreases s.len(),
{
    match first_occurrence(s, sep) {
        Some(i) => if sep.len() > 0 {
            seq![s.take(i)] + fields_of(s.skip(i + sep.len()), sep)
        } else {
            seq![s]
        },
        None => seq![s],
    }
}

/// `s` without `tag` at its start, or `s` as it is where it does not begin
/// with `tag`. What follows the tag is not looked at.
pub open spec fn without_leading(s: Seq<char>, tag: Seq<char>) -> Seq<char> {
    if occurs_at(s, tag, 0) {
        s.skip(tag.len() as int)
    } else {
        s
    }
}

/// The line feed, as a one-character pattern.
pub open spec fn line_feed() -> Seq<char> {
    seq!['\n']
}

/// `line` without one trailing carriage return.
pub open spec fn without_carriage_return(line: Seq<char>) -> Seq<char> {
    if line.len() > 0 && line.last() == '\r' {
        line.drop_last()
    } else {
        line
    }
}

/// The lines of `text`. A line ends at a line feed or at the end of the
/// text; the line feed, and a carriage return directly before it, are not
/// part of the line. Nothing follows the last line feed of a text that ends
/// with one, and the empty text has no line.
pub open spec fn lines_of(text: Seq<char>) -> Seq<Seq<char>>
    decreases text.len(),
{
    if text.len() == 0 {
        Seq::empty()
    } else {
        match first_occurrence(text, line_feed()) {
            Some(i) => seq![without_carriage_return(text.take(i))] + lines_of(text.skip(i + 1)),
            None => seq![text],
        }
    }
}

/// The pieces of `text`, cut behind each line feed: every piece but the
/// last ends with the only line feed it holds, and the last one is what
/// follows the last line feed, where anything does. The pieces in a row are
/// the text.
pub open spec fn pieces_of(text: Seq<char>) -> Seq<Seq<char>>
    decreases text.len(),
{
    if text.len() == 0 {
        Seq::empty()
    } else {
        match first_occurrence(text, line_feed()) {
            Some(i) => seq![text.take(i + 1)] + pieces_of(text.skip(i + 1)),
            None => seq![text],
        }
    }
}

/// The character of a decimal digit.
pub open spec fn digit_of(d: nat) -> char {
    if d == 0 {
        '0'
    } else if d == 1 {
        '1'
    } else if d == 2 {
        '2'
    } else if d == 3 {
        '3'
    } else if d == 4 {
        '4'
    } else if d == 5 {
        '5'
    } else if d == 6 {
        '6'
    } else if d == 7 {
        '7'
    } else if d == 8 {
        '8'
    } else {
        '9'
    }
}

/// `n` in decimal, without sign and without leading zeros.
pub open spec fn decimal_of(n: nat) -> Seq<char>
    decreases n,
{
    if n < 10 {
        seq![digit_of(n)]
    } else {
        decimal_of(n / 10).push(digit_of(n % 10))
    }
}

/// The leftmost occurrence is the only offset that `first_occurrence` gives.
pub proof fn lemma_first_occurrence(s: Seq<char>, pat: Seq<char>, i: int)
    requires
        is_first_occurrence(s, pat, i),
    ensures
        first_occurrence(s, pat) == Some(i),
{
    let k = choose|k: int| is_first_occurrence(s, pat, k);
    assert(is_first_occurrence(s, pat, k));
    if k < i {
        assert(!occurs_at(s, pat, k));
    } else if i < k {
        assert(!occurs_at(s, pat, i));
    }
}

/// Without an occurrence there is no first one.
pub proof fn lemma_no_occurrence(s: Seq<char>, pat: Seq<char>)
    requires
        forall|j: int| !occurs_at(s, pat, j),
    ensures
        first_occurrence(s, pat) is None,
{
}

/// An occurrence in a suffix is an occurrence in the whole, shifted.
pub proof fn lemma_occurs_in_suffix(s: Seq<char>, pat: Seq<char>, k: int, i: int)
    requires
        0 <= k <= s.len(),
        0 <= i,
    ensures
        occurs_at(s.skip(k), pat, i) <==> occurs_at(s, pat, i + k),
{
    if i + k + pat.len() <= s.len() {
        assert(s.skip(k).subrange(i, i + pat.len()) =~= s.subrange(i + k, i + k + pat.len()));
    }
}

/// The first occurrence at or after `start` is the first one of the suffix
/// that begins at `start`.
pub proof fn lemma_first_occurrence_in_suffix(s: Seq<char>, pat: Seq<char>, start: int, i: int)
    requires
        0 <= start <= i,
        occurs_at(s, pat, i),
        forall|j: int| start <= j < i ==> !occurs_at(s, pat, j),
    ensures
        first_occurrence(s.skip(start), pat) == Some(i - start),
        occurs_at(s.skip(start), pat, i - start),
{
    let rest = s.skip(start);
    lemma_occurs_in_suffix(s, pat, start, i - start);
    assert forall|j: int| 0 <= j < i - start implies !occurs_at(rest, pat, j) by {
        lemma_occurs_in_suffix(s, pat, start, j);
    }
    lemma_first_occurrence(rest, pat, i - start);
}

/// No occurrence at or after `start` leaves the suffix without one.
pub proof fn lemma_no_occurrence_in_suffix(s: Seq<char>, pat: Seq<char>, start: int)
    requires
        0 <= start <= s.len(),
        forall|j: int| start <= j ==> !occurs_at(s, pat, j),
    ensures
        first_occurrence(s.skip(start), pat) is None,
{
    let rest = s.skip(start);
    assert forall|j: int| !occurs_at(rest, pat, j) by {
        if 0 <= j {
            lemma_occurs_in_suffix(s, pat, start, j);
        }
    }
    lemma_no_occurrence(rest, pat);
}

/// Where `pat` stands in `s`, the characters of `s` are those of `pat`.
pub proof fn lemma_occurrence_chars(s: Seq<char>, pat: Seq<char>, i: int)
    requires
        occurs_at(s, pat, i),
    ensures
        forall|k: int| 0 <= k < pat.len() ==> s[i + k] == #[trigger] pat[k],
{
    assert forall|k: int| 0 <= k < pat.len() implies s[i + k] == #[trigger] pat[k] by {
        assert(s.subrange(i, i + pat.len())[k] == s[i + k]);
    }
}

/// Below an occurrence at `k`, and with none below `from`, there is a
/// leftmost occurrence.
proof fn lemma_least_occurrence(s: Seq<char>, pat: Seq<char>, k: int, from: int)
    requires
        0 <= from <= k,
        occurs_at(s, pat, k),
        forall|j: int| 0 <= j < from ==> !occurs_at(s, pat, j),
    ensures
        exists|i: int| is_first_occurrence(s, pat, i),
    decreases k - from,
{
    if occurs_at(s, pat, from) {
        assert(is_first_occurrence(s, pat, from));
    } else {
        lemma_least_occurrence(s, pat, k, from + 1);
    }
}

/// Where `pat` occurs at all, it has a leftmost occurrence.
pub proof fn lemma_first_occurrence_exists(s: Seq<char>, pat: Seq<char>)
    requires
        occurs_in(s, pat),
    ensures
        first_occurrence(s, pat) matches Some(i) && is_first_occurrence(s, pat, i),
{
    let k = choose|k: int| occurs_at(s, pat, k);
    lemma_least_occurrence(s, pat, k, 0);
}

/// A sequence without the separator is one field.
pub proof fn lemma_fields_of_unsplit(s: Seq<char>, sep: Seq<char>)
    requires
        !occurs_in(s, sep),
    ensures
        fields_of(s, sep) == seq![s],
{
    lemma_no_occurrence(s, sep);
}

/// There is always one field, and a second one where the separator occurs.
pub proof fn lemma_fields_of_len(s: Seq<char>, sep: Seq<char>)
    ensures
        fields_of(s, sep).len() >= 1,
        occurs_in(s, sep) && sep.len() > 0 ==> fields_of(s, sep).len() >= 2,
    decreases s.len(),
{
    if sep.len() > 0 && occurs_in(s, sep) {
        lemma_first_occurrence_exists(s, sep);
        let i = first_occurrence(s, sep)->0;
        lemma_fields_of_len(s.skip(i + sep.len()), sep);
    } else if !occurs_in(s, sep) {
        lemma_no_occurrence(s, sep);
    }
}

/// No field holds the separator.
pub proof fn lemma_fields_hold_no_separator(s: Seq<char>, sep: Seq<char>)
    requires
        sep.len() > 0,
    ensures
        forall|k: int|
            0 <= k < fields_of(s, sep).len() ==> !occurs_in(#[trigger] fields_of(s, sep)[k], sep),
    decreases s.len(),
{
    let fields = fields_of(s, sep);
    if occurs_in(s, sep) {
        lemma_first_occurrence_exists(s, sep);
        let i = first_occurrence(s, sep)->0;
        let head = s.take(i);
        let rest = s.skip(i + sep.len());
        assert forall|j: int| !occurs_at(head, sep, j) by {
            if occurs_at(head, sep, j) {
                assert(head.subrange(j, j + sep.len()) =~= s.subrange(j, j + sep.len()));
                assert(occurs_at(s, sep, j));
            }
        }
        lemma_fields_hold_no_separator(rest, sep);
        assert(fields == seq![head] + fields_of(rest, sep));
        assert forall|k: int| 0 <= k < fields.len() implies !occurs_in(
            #[trigger] fields[k],
            sep,
        ) by {
            if k > 0 {
                assert(fields[k] == fields_of(rest, sep)[k - 1]);
            }
        }
    } else {
        lemma_no_occurrence(s, sep);
    }
}

/// Taking a leading tag off brings no pattern in that was not there.
pub proof fn lemma_without_leading_holds_none(s: Seq<char>, tag: Seq<char>, pat: Seq<char>)
    requires
        !occurs_in(s, pat),
    ensures
        !occurs_in(without_leading(s, tag), pat),
{
    if occurs_at(s, tag, 0) {
        let k = tag.len() as int;
        assert forall|j: int| !occurs_at(s.skip(k), pat, j) by {
            if 0 <= j {
                lemma_occurs_in_suffix(s, pat, k, j);
            }
        }
    }
}

/// A tag that was put before a sequence is the one that is taken off.
pub proof fn lemma_without_leading_tag(tag: Seq<char>, s: Seq<char>)
    ensures
        without_leading(tag + s, tag) == s,
{
    let whole = tag + s;
    assert(whole.subrange(0, tag.len() as int) =~= tag);
    assert(whole.skip(tag.len() as int) =~= s);
}

/// The text ends with a line feed or is empty, so that what is added to it
/// begins a line.
pub open spec fn ends_lines(text: Seq<char>) -> bool {
    text.len() == 0 || text.last() == '\n'
}

/// The line feed stands exactly where the character is a line feed.
pub proof fn lemma_line_feed_at(s: Seq<char>, j: int)
    ensures
        occurs_at(s, line_feed(), j) <==> 0 <= j < s.len() && s[j] == '\n',
{
    if 0 <= j < s.len() {
        if s[j] == '\n' {
            assert(s.subrange(j, j + 1) =~= line_feed());
        } else {
            assert(s.subrange(j, j + 1)[0] == s[j]);
        }
    }
}

/// A text without a line feed is a text without the character.
pub proof fn lemma_no_line_feed(s: Seq<char>)
    ensures
        !occurs_in(s, line_feed()) <==> forall|k: int| 0 <= k < s.len() ==> s[k] != '\n',
{
    if !occurs_in(s, line_feed()) {
        assert forall|k: int| 0 <= k < s.len() implies s[k] != '\n' by {
            lemma_line_feed_at(s, k);
            assert(!occurs_at(s, line_feed(), k));
        }
    }
    if forall|k: int| 0 <= k < s.len() ==> s[k] != '\n' {
        assert forall|j: int| !occurs_at(s, line_feed(), j) by {
            lemma_line_feed_at(s, j);
        }
    }
}

/// A part of a text without a line feed holds none.
pub proof fn lemma_part_holds_no_line_feed(s: Seq<char>, from: int, to: int)
    requires
        !occurs_in(s, line_feed()),
        0 <= from <= to <= s.len(),
    ensures
        !occurs_in(s.subrange(from, to), line_feed()),
{
    lemma_no_line_feed(s);
    lemma_no_line_feed(s.subrange(from, to));
}

/// No line of a text holds a line feed.
pub proof fn lemma_lines_hold_no_line_feed(text: Seq<char>)
    ensures
        forall|k: int|
            0 <= k < lines_of(text).len() ==> !occurs_in(#[trigger] lines_of(text)[k], line_feed()),
    decreases text.len(),
{
    let feed = line_feed();
    let lines = lines_of(text);
    if text.len() > 0 {
        if occurs_in(text, feed) {
            lemma_first_occurrence_exists(text, feed);
            let i = first_occurrence(text, feed)->0;
            let head = without_carriage_return(text.take(i));
            let rest = text.skip(i + 1);
            assert(!occurs_in(head, feed)) by {
                lemma_no_line_feed(head);
                assert forall|k: int| 0 <= k < head.len() implies head[k] != '\n' by {
                    assert(head[k] == text[k]);
                    lemma_line_feed_at(text, k);
                }
            }
            lemma_lines_hold_no_line_feed(rest);
            assert(lines == seq![head] + lines_of(rest));
            assert forall|k: int| 0 <= k < lines.len() implies !occurs_in(
                #[trigger] lines[k],
                feed,
            ) by {
                if k > 0 {
                    assert(lines[k] == lines_of(rest)[k - 1]);
                }
            }
        } else {
            lemma_no_occurrence(text, feed);
        }
    }
}

/// No field of a text without a line feed holds one.
pub proof fn lemma_fields_hold_no_line_feed(s: Seq<char>, sep: Seq<char>)
    requires
        !occurs_in(s, line_feed()),
    ensures
        forall|k: int|
            0 <= k < fields_of(s, sep).len() ==> !occurs_in(
                #[trigger] fields_of(s, sep)[k],
                line_feed(),
            ),
    decreases s.len(),
{
    let feed = line_feed();
    let fields = fields_of(s, sep);
    if sep.len() > 0 && occurs_in(s, sep) {
        lemma_first_occurrence_exists(s, sep);
        let i = first_occurrence(s, sep)->0;
        let rest = s.skip(i + sep.len());
        lemma_part_holds_no_line_feed(s, 0, i);
        lemma_part_holds_no_line_feed(s, i + sep.len(), s.len() as int);
        lemma_fields_hold_no_line_feed(rest, sep);
        assert(fields == seq![s.take(i)] + fields_of(rest, sep));
        assert forall|k: int| 0 <= k < fields.len() implies !occurs_in(
            #[trigger] fields[k],
            feed,
        ) by {
            if k > 0 {
                assert(fields[k] == fields_of(rest, sep)[k - 1]);
            }
        }
    } else if !occurs_in(s, sep) {
        lemma_no_occurrence(s, sep);
    }
}

/// A text of one line that its line feed closes.
pub proof fn lemma_lines_of_one(line: Seq<char>)
    requires
        !occurs_in(line, line_feed()),
    ensures
        lines_of(line.push('\n')) == seq![without_carriage_return(line)],
{
    let feed = line_feed();
    let whole = line.push('\n');
    let n = line.len() as int;
    assert(is_first_occurrence(whole, feed, n)) by {
        lemma_line_feed_at(whole, n);
        assert forall|j: int| 0 <= j < n implies !occurs_at(whole, feed, j) by {
            lemma_line_feed_at(whole, j);
            lemma_line_feed_at(line, j);
            assert(!occurs_at(line, feed, j));
        }
    }
    lemma_first_occurrence(whole, feed, n);
    assert(whole.take(n) =~= line);
    assert(whole.skip(n + 1) =~= Seq::<char>::empty());
    assert(lines_of(whole) == seq![without_carriage_return(line)] + lines_of(whole.skip(n + 1)));
    assert(lines_of(whole) =~= seq![without_carriage_return(line)]);
}

/// Behind a text that ends its lines, the lines of what follows are read as
/// if nothing stood before them.
pub proof fn lemma_lines_of_concat(text: Seq<char>, more: Seq<char>)
    requires
        ends_lines(text),
    ensures
        lines_of(text + more) == lines_of(text) + lines_of(more),
    decreases text.len(),
{
    let feed = line_feed();
    let whole = text + more;
    if text.len() == 0 {
        assert(whole =~= more);
        assert(lines_of(text) + lines_of(more) =~= lines_of(more));
    } else {
        let m = text.len() - 1;
        assert(occurs_at(text, feed, m)) by {
            lemma_line_feed_at(text, m);
        }
        lemma_first_occurrence_exists(text, feed);
        let i = first_occurrence(text, feed)->0;
        assert(is_first_occurrence(whole, feed, i)) by {
            lemma_line_feed_at(text, i);
            lemma_line_feed_at(whole, i);
            assert forall|j: int| 0 <= j < i implies !occurs_at(whole, feed, j) by {
                lemma_line_feed_at(text, j);
                lemma_line_feed_at(whole, j);
            }
        }
        lemma_first_occurrence(whole, feed, i);
        let rest = text.skip(i + 1);
        assert(whole.take(i) =~= text.take(i));
        assert(whole.skip(i + 1) =~= rest + more);
        if rest.len() > 0 {
            assert(rest.last() == text.last());
        }
        lemma_lines_of_concat(rest, more);
        let head = without_carriage_return(text.take(i));
        assert(lines_of(whole) == seq![head] + lines_of(whole.skip(i + 1)));
        assert(lines_of(text) == seq![head] + lines_of(rest));
        assert(lines_of(whole) =~= lines_of(text) + lines_of(more));
    }
}

/// A line that its line feed closes is one piece.
pub proof fn lemma_pieces_of_one(line: Seq<char>)
    requires
        !occurs_in(line, line_feed()),
    ensures
        pieces_of(line.push('\n')) == seq![line.push('\n')],
{
    let feed = line_feed();
    let whole = line.push('\n');
    let n = line.len() as int;
    assert(is_first_occurrence(whole, feed, n)) by {
        lemma_line_feed_at(whole, n);
        assert forall|j: int| 0 <= j < n implies !occurs_at(whole, feed, j) by {
            lemma_line_feed_at(whole, j);
            lemma_line_feed_at(line, j);
            assert(!occurs_at(line, feed, j));
        }
    }
    lemma_first_occurrence(whole, feed, n);
    assert(whole.take(n + 1) =~= whole);
    assert(whole.skip(n + 1) =~= Seq::<char>::empty());
    assert(pieces_of(whole) == seq![whole] + pieces_of(whole.skip(n + 1)));
    assert(pieces_of(whole) =~= seq![whole]);
}

/// Behind a text that ends its lines, what follows is cut as if nothing
/// stood before it.
pub proof fn lemma_pieces_of_concat(text: Seq<char>, more: Seq<char>)
    requires
        ends_lines(text),
    ensures
        pieces_of(text + more) == pieces_of(text) + pieces_of(more),
    decreases text.len(),
{
    let feed = line_feed();
    let whole = text + more;
    if text.len() == 0 {
        assert(whole =~= more);
        assert(pieces_of(text) + pieces_of(more) =~= pieces_of(more));
    } else {
        let m = text.len() - 1;
        assert(occurs_at(text, feed, m)) by {
            lemma_line_feed_at(text, m);
        }
        lemma_first_occurrence_exists(text, feed);
        let i = first_occurrence(text, feed)->0;
        assert(is_first_occurrence(whole, feed, i)) by {
            lemma_line_feed_at(text, i);
            lemma_line_feed_at(whole, i);
            assert forall|j: int| 0 <= j < i implies !occurs_at(whole, feed, j) by {
                lemma_line_feed_at(text, j);
                lemma_line_feed_at(whole, j);
            }
        }
        lemma_first_occurrence(whole, feed, i);
        let rest = text.skip(i + 1);
        assert(whole.take(i + 1) =~= text.take(i + 1));
        assert(whole.skip(i + 1) =~= rest + more);
        if rest.len() > 0 {
            assert(rest.last() == text.last());
        }
        lemma_pieces_of_concat(rest, more);
        let head = text.take(i + 1);
        assert(pieces_of(whole) == seq![head] + pieces_of(whole.skip(i + 1)));
        assert(pieces_of(text) == seq![head] + pieces_of(rest));
        assert(pieces_of(whole) =~= pieces_of(text) + pieces_of(more));
    }
}

/// The pieces in a row are the text.
pub proof fn lemma_pieces_make_the_text(text: Seq<char>)
    ensures
        pieces_of(text).flatten() == text,
    decreases text.len(),
{
    let pieces = pieces_of(text);
    if text.len() == 0 {
        assert(pieces.flatten() =~= text);
    } else {
        match first_occurrence(text, line_feed()) {
            Some(i) => {
                let head = text.take(i + 1);
                let rest = text.skip(i + 1);
                lemma_pieces_make_the_text(rest);
                assert(pieces.first() == head);
                assert(pieces.drop_first() =~= pieces_of(rest));
                assert(head + rest =~= text);
            },
            None => {
                assert(pieces.first() == text);
                assert(pieces.drop_first() =~= Seq::<Seq<char>>::empty());
                assert(pieces.drop_first().flatten() =~= Seq::<char>::empty());
                assert(text + Seq::<char>::empty() =~= text);
            },
        }
    }
}

/// The characters of a string slice, one by one.
pub fn chars_of(s: &str) -> (v: Vec<char>)
    ensures
        v@ == s@,
{
    let mut v: Vec<char> = Vec::new();
    for c in it: s.chars()
        invariant
            v@ == it.seq().take(it.index() as int),
            it.seq() == s@,
    {
        v.push(c);
    }
    v
}

/// Whether `pat` stands in `hay` at offset `at`.
pub fn matches_at(hay: &Vec<char>, pat: &Vec<char>, at: usize) -> (r: bool)
    ensures
        r == occurs_at(hay@, pat@, at as int),
{
    if at > hay.len() || pat.len() > hay.len() - at {
        return false;
    }
    let mut k: usize = 0;
    while k < pat.len()
        invariant
            k <= pat.len(),
            at + pat.len() <= hay.len(),
            forall|j: int| 0 <= j < k ==> hay@[at + j] == pat@[j],
        decreases pat.len() - k,
    {
        if hay[at + k] != pat[k] {
            assert(hay@.subrange(at as int, at + pat.len())[k as int] == hay@[at + k]);
            return false;
        }
        k += 1;
    }
    assert(hay@.subrange(at as int, at + pat.len()) =~= pat@);
    true
}

/// The leftmost offset at or after `from` at which `pat` stands in `hay`.
pub fn find(hay: &Vec<char>, pat: &Vec<char>, from: usize) -> (r: Option<usize>)
    ensures
        match r {
            Some(i) => {
                &&& from <= i
                &&& occurs_at(hay@, pat@, i as int)
                &&& forall|j: int| from <= j < i ==> !occurs_at(hay@, pat@, j)
            },
            None => forall|j: int| from <= j ==> !occurs_at(hay@, pat@, j),
        },
{
    let n: usize = hay.len();
    if from > n {
        return None;
    }
    let mut i: usize = from;
    while i < n
        invariant
            from <= i <= n,
            n == hay.len(),
            forall|j: int| from <= j < i ==> !occurs_at(hay@, pat@, j),
        decreases n - i,
    {
        if matches_at(hay, pat, i) {
            return Some(i);
        }
        i += 1;
    }
    if matches_at(hay, pat, n) {
        Some(n)
    } else {
        None
    }
}

/// Whether `pat` stands somewhere in `text`.
pub fn contains(text: &str, pat: &str) -> (r: bool)
    ensures
        r == occurs_in(text@, pat@),
{
    let hay = chars_of(text);
    let needle = chars_of(pat);
    match find(&hay, &needle, 0) {
        Some(i) => {
            assert(occurs_at(text@, pat@, i as int));
            true
        },
        None => false,
    }
}

/// Splits `text` at every occurrence of `sep`.
pub fn split(text: &str, sep: &str) -> (fields: Vec<String>)
    ensures
        fields.deep_view() == fields_of(text@, sep@),
{
    let hay = chars_of(text);
    let pat = chars_of(sep);
    let n: usize = hay.len();
    let mut fields: Vec<String> = Vec::new();
    if pat.len() == 0 {
        fields.push(text.to_owned());
        assert(fields.deep_view() =~= seq![text@]);
        return fields;
    }
    let mut start: usize = 0;
    assert(text@.skip(0) =~= text@);
    assert(fields.deep_view() =~= Seq::<Seq<char>>::empty());
    loop
        invariant
            hay@ == text@,
            pat@ == sep@,
            pat.len() > 0,
            n == hay.len(),
            start <= n,
            fields_of(text@, sep@) == fields.deep_view() + fields_of(
                text@.skip(start as int),
                sep@,
            ),
        decreases n - start,
    {
        let ghost rest = text@.skip(start as int);
        let ghost before = fields.deep_view();
        match find(&hay, &pat, start) {
            Some(i) => {
                let field = text.substring_char(start, i).to_owned();
                proof {
                    lemma_first_occurrence_in_suffix(text@, sep@, start as int, i as int);
                    assert(rest.take(i - start) =~= text@.subrange(start as int, i as int));
                    assert(rest.skip(i - start + sep@.len()) =~= text@.skip(i + sep@.len()));
                }
                fields.push(field);
                assert(fields.deep_view() =~= before.push(field@));
                start = i + pat.len();
            },
            None => {
                let field = text.substring_char(start, n).to_owned();
                proof {
                    lemma_no_occurrence_in_suffix(text@, sep@, start as int);
                    assert(rest =~= text@.subrange(start as int, n as int));
                }
                fields.push(field);
                assert(fields.deep_view() =~= before.push(field@));
                return fields;
            },
        }
    }
}

/// `text` without `tag` at its start, or `text` as it is where it does not
/// begin with `tag`.
pub fn strip_leading(text: &str, tag: &str) -> (out: String)
    ensures
        out@ == without_leading(text@, tag@),
{
    let hay = chars_of(text);
    let pat = chars_of(tag);
    if matches_at(&hay, &pat, 0) {
        let out = text.substring_char(pat.len(), hay.len()).to_owned();
        assert(out@ =~= text@.skip(tag@.len() as int));
        out
    } else {
        text.to_owned()
    }
}

/// The lines of `text`.
pub fn split_lines(text: &str) -> (lines: Vec<String>)
    ensures
        lines.deep_view() == lines_of(text@),
{
    let hay = chars_of(text);
    let feed: Vec<char> = vec!['\n'];
    let n: usize = hay.len();
    let mut lines: Vec<String> = Vec::new();
    let mut start: usize = 0;
    assert(text@.skip(0) =~= text@);
    assert(lines.deep_view() =~= Seq::<Seq<char>>::empty());
    assert(feed@ =~= line_feed());
    while start < n
        invariant
            hay@ == text@,
            feed@ == line_feed(),
            n == hay.len(),
            start <= n,
            lines_of(text@) == lines.deep_view() + lines_of(text@.skip(start as int)),
        decreases n - start,
    {
        let ghost rest = text@.skip(start as int);
        let ghost before = lines.deep_view();
        match find(&hay, &feed, start) {
            Some(i) => {
                let end: usize = if i > start && hay[i - 1] == '\r' {
                    i - 1
                } else {
                    i
                };
                let line = text.substring_char(start, end).to_owned();
                proof {
                    lemma_first_occurrence_in_suffix(text@, line_feed(), start as int, i as int);
                    assert(rest.take(i - start) =~= text@.subrange(start as int, i as int));
                    assert(rest.skip(i - start + 1) =~= text@.skip(i + 1));
                    assert(line@ =~= without_carriage_return(rest.take(i - start)));
                }
                lines.push(line);
                assert(lines.deep_view() =~= before.push(line@));
                start = i + 1;
            },
            None => {
                let line = text.substring_char(start, n).to_owned();
                proof {
                    lemma_no_occurrence_in_suffix(text@, line_feed(), start as int);
                    assert(rest =~= text@.subrange(start as int, n as int));
                }
                lines.push(line);
                assert(lines.deep_view() =~= before.push(line@));
                return lines;
            },
        }
    }
    assert(text@.skip(start as int).len() == 0);
    lines
}

/// The pieces of `text`, cut behind each line feed.
pub fn split_pieces(text: &str) -> (pieces: Vec<String>)
    ensures
        pieces.deep_view() == pieces_of(text@),
{
    let hay = chars_of(text);
    let feed: Vec<char> = vec!['\n'];
    let n: usize = hay.len();
    let mut pieces: Vec<String> = Vec::new();
    let mut start: usize = 0;
    assert(text@.skip(0) =~= text@);
    assert(pieces.deep_view() =~= Seq::<Seq<char>>::empty());
    assert(feed@ =~= line_feed());
    while start < n
        invariant
            hay@ == text@,
            feed@ == line_feed(),
            n == hay.len(),
            start <= n,
            pieces_of(text@) == pieces.deep_view() + pieces_of(text@.skip(start as int)),
        decreases n - start,
    {
        let ghost rest = text@.skip(start as int);
        let ghost before = pieces.deep_view();
        match find(&hay, &feed, start) {
            Some(i) => {
                let piece = text.substring_char(start, i + 1).to_owned();
                proof {
                    lemma_first_occurrence_in_suffix(text@, line_feed(), start as int, i as int);
                    assert(rest.take(i - start + 1) =~= text@.subrange(start as int, i + 1));
                    assert(rest.skip(i - start + 1) =~= text@.skip(i + 1));
                }
                pieces.push(piece);
                assert(pieces.deep_view() =~= before.push(piece@));
                start = i + 1;
            },
            None => {
                let piece = text.substring_char(start, n).to_owned();
                proof {
                    lemma_no_occurrence_in_suffix(text@, line_feed(), start as int);
                    assert(rest =~= text@.subrange(start as int, n as int));
                }
                pieces.push(piece);
                assert(pieces.deep_view() =~= before.push(piece@));
                return pieces;
            },
        }
    }
    assert(text@.skip(start as int).len() == 0);
    pieces
}

/// The one-character text of a decimal digit.
fn digit_text(d: usize) -> (r: &'static str)
    requires
        d < 10,
    ensures
        r@ == seq![digit_of(d as nat)],
{
    let r = if d == 0 {
        "0"
    } else if d == 1 {
        "1"
    } else if d == 2 {
        "2"
    } else if d == 3 {
        "3"
    } else if d == 4 {
        "4"
    } else if d == 5 {
        "5"
    } else if d == 6 {
        "6"
    } else if d == 7 {
        "7"
    } else if d == 8 {
        "8"
    } else {
        "9"
    };
    proof {
        reveal_strlit("0");
        reveal_strlit("1");
        reveal_strlit("2");
        reveal_strlit("3");
        reveal_strlit("4");
        reveal_strlit("5");
        reveal_strlit("6");
        reveal_strlit("7");
        reveal_strlit("8");
        reveal_strlit("9");
        assert(r@ =~= seq![digit_of(d as nat)]);
    }
    r
}

/// `n` in decimal.
pub fn decimal(n: usize) -> (out: String)
    ensures
        out@ == decimal_of(n as nat),
    decreases n,
{
    if n < 10 {
        digit_text(n).to_owned()
    } else {
        let mut out = decimal(n / 10);
        out.append(digit_text(n % 10));
        assert(out@ =~= decimal_of(n as nat));
        out
    }
}

} // verus!
