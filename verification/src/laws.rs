//! What holds of the store whatever it holds: the laws that relate its
//! commands to one another.

use crate::error::StoreError;
use crate::store::{
    after_complete, after_edit, after_remove, commits, completed_at, content_of, edited_at,
    listing_of, load_of, tasks_of,
};
use crate::task::{
    completed_tag, description_tag, field_separator, flag_of, line_of, parse_of, record_of,
    TodoView,
};
use crate::text::{
    ends_lines, fields_of, first_occurrence, is_first_occurrence, lemma_fields_hold_no_line_feed,
    lemma_fields_hold_no_separator, lemma_fields_of_len, lemma_fields_of_unsplit,
    lemma_first_occurrence, lemma_first_occurrence_exists, lemma_lines_hold_no_line_feed,
    lemma_lines_of_concat, lemma_lines_of_one, lemma_no_line_feed, lemma_occurrence_chars,
    lemma_pieces_make_the_text, lemma_pieces_of_concat, lemma_pieces_of_one, pieces_of,
    lemma_occurs_in_suffix, lemma_without_leading_holds_none, lemma_without_leading_tag,
    line_feed, lines_of, occurs_at, occurs_in, without_carriage_return, without_leading,
};
use vstd::prelude::*;

verus! {

/// A description that a store gives back as it took it: one that holds no
/// field separator and no line feed.
pub open spec fn is_plain(description: Seq<char>) -> bool {
    &&& !occurs_in(description, field_separator())
    &&& !occurs_in(description, line_feed())
}

/// Every description of the list is plain.
pub open spec fn all_plain(tasks: Seq<TodoView>) -> bool {
    forall|i: int| 0 <= i < tasks.len() ==> is_plain(#[trigger] tasks[i].description)
}

/// The characters of the fixed parts of a line.
proof fn lemma_fixed_parts()
    ensures
        description_tag() == seq!['d', 'e', 's', 'c', 'r', 'i', 'p', 't', 'i', 'o', 'n', ':', ' '],
        field_separator() == seq![',', ' '],
        completed_tag() == seq!['c', 'o', 'm', 'p', 'l', 'e', 't', 'e', 'd', ':', ' '],
        flag_of(true) == seq!['t', 'r', 'u', 'e'],
        flag_of(false) == seq!['f', 'a', 'l', 's', 'e'],
{
    reveal_strlit("description: ");
    reveal_strlit(", ");
    reveal_strlit("completed: ");
    reveal_strlit("true");
    reveal_strlit("false");
    assert(description_tag() =~= seq![
        'd',
        'e',
        's',
        'c',
        'r',
        'i',
        'p',
        't',
        'i',
        'o',
        'n',
        ':',
        ' ',
    ]);
    assert(field_separator() =~= seq![',', ' ']);
    assert(completed_tag() =~= seq!['c', 'o', 'm', 'p', 'l', 'e', 't', 'e', 'd', ':', ' ']);
    assert(flag_of(true) =~= seq!['t', 'r', 'u', 'e']);
    assert(flag_of(false) =~= seq!['f', 'a', 'l', 's', 'e']);
}

/// The field separator is a comma and a space.
proof fn lemma_separator_chars()
    ensures
        field_separator().len() == 2,
        field_separator()[0] == ',',
        field_separator()[1] == ' ',
{
    reveal_strlit(", ");
}

/// The description tag holds neither a comma nor a line feed.
proof fn lemma_description_tag_chars()
    ensures
        description_tag().len() == 13,
        forall|k: int|
            0 <= k < 13 ==> (#[trigger] description_tag()[k]) != ',' && description_tag()[k]
                != '\n',
{
    lemma_fixed_parts();
}

/// A separator can only stand where a comma stands.
proof fn lemma_separator_needs_comma(s: Seq<char>, j: int)
    requires
        occurs_at(s, field_separator(), j),
    ensures
        0 <= j,
        j + 2 <= s.len(),
        s[j] == ',',
        s[j + 1] == ' ',
{
    lemma_separator_chars();
    lemma_occurrence_chars(s, field_separator(), j);
    assert(s[j + 0] == field_separator()[0]);
    assert(s[j + 1] == field_separator()[1]);
}

/// Behind a sequence without a comma, a separator stands only inside what
/// follows.
proof fn lemma_separator_behind_commaless(a: Seq<char>, b: Seq<char>)
    requires
        forall|k: int| 0 <= k < a.len() ==> (#[trigger] a[k]) != ',',
        !occurs_in(b, field_separator()),
    ensures
        !occurs_in(a + b, field_separator()),
{
    let sep = field_separator();
    lemma_separator_chars();
    assert forall|j: int| !occurs_at(a + b, sep, j) by {
        if occurs_at(a + b, sep, j) {
            lemma_separator_needs_comma(a + b, j);
            if j < a.len() {
                assert((a + b)[j] == a[j]);
            } else {
                assert(b.subrange(j - a.len(), j - a.len() + 2) =~= (a + b).subrange(j, j + 2));
                assert(occurs_at(b, sep, j - a.len()));
            }
        }
    }
}

/// Where two sequences are joined by a separator and the first holds none,
/// the leftmost separator of the whole is the one that joins them.
proof fn lemma_joining_separator(first: Seq<char>, second: Seq<char>)
    requires
        !occurs_in(first, field_separator()),
    ensures
        is_first_occurrence(
            first + field_separator() + second,
            field_separator(),
            first.len() as int,
        ),
{
    let sep = field_separator();
    let line = first + sep + second;
    let at = first.len() as int;
    lemma_separator_chars();
    assert(line.subrange(at, at + 2) =~= sep);
    assert forall|j: int| 0 <= j < at implies !occurs_at(line, sep, j) by {
        if occurs_at(line, sep, j) {
            lemma_separator_needs_comma(line, j);
            if j + 1 < at {
                assert(first.subrange(j, j + 2) =~= line.subrange(j, j + 2));
                assert(occurs_at(first, sep, j));
            } else {
                assert(line[j + 1] == sep[0]);
            }
        }
    }
}

/// Two sequences without a separator, joined by one, are the two fields of
/// the whole.
proof fn lemma_two_fields(first: Seq<char>, second: Seq<char>)
    requires
        !occurs_in(first, field_separator()),
        !occurs_in(second, field_separator()),
    ensures
        fields_of(first + field_separator() + second, field_separator()) == seq![first, second],
{
    let sep = field_separator();
    let line = first + sep + second;
    let at = first.len() as int;
    assert(sep.len() == 2) by {
        lemma_separator_chars();
    }
    assert(first_occurrence(line, sep) == Some(at)) by {
        lemma_joining_separator(first, second);
        lemma_first_occurrence(line, sep, at);
    }
    assert(line.take(at) == first) by {
        assert(line.take(at) =~= first);
    }
    assert(line.skip(at + 2) == second) by {
        assert(line.skip(at + 2) =~= second);
    }
    assert(fields_of(second, sep) == seq![second]) by {
        lemma_fields_of_unsplit(second, sep);
    }
    assert(fields_of(line, sep) == seq![first] + seq![second]);
    assert(seq![first] + seq![second] =~= seq![first, second]);
}

/// The second field of the line of a task: the tag and the flag.
proof fn lemma_flag_field(completed: bool)
    ensures
        !occurs_in(completed_tag() + flag_of(completed), field_separator()),
        !occurs_in(completed_tag() + flag_of(completed), line_feed()),
        without_leading(completed_tag() + flag_of(completed), completed_tag()) == flag_of(
            completed,
        ),
        flag_of(completed).len() > 0,
        flag_of(completed).last() == 'e',
        flag_of(true) != flag_of(false),
{
    lemma_fixed_parts();
    let tag = completed_tag();
    let flag = flag_of(completed);
    let field = tag + flag;
    assert(flag_of(true).len() != flag_of(false).len());
    assert forall|k: int| 0 <= k < field.len() implies (#[trigger] field[k]) != ',' && field[k]
        != '\n' by {
        if k < tag.len() {
            assert(field[k] == tag[k]);
        } else {
            assert(field[k] == flag[k - tag.len()]);
        }
    }
    assert(!occurs_in(Seq::<char>::empty(), field_separator())) by {
        lemma_separator_chars();
    }
    lemma_separator_behind_commaless(field, Seq::<char>::empty());
    assert(field + Seq::<char>::empty() =~= field);
    lemma_no_line_feed(field);
    lemma_without_leading_tag(tag, flag);
}

/// The line of a task whose description holds no separator falls into two
/// fields: the tagged description and the tagged flag.
proof fn lemma_fields_of_line(task: TodoView)
    requires
        !occurs_in(task.description, field_separator()),
    ensures
        fields_of(line_of(task), field_separator()) == seq![
            description_tag() + task.description,
            completed_tag() + flag_of(task.completed),
        ],
{
    let first = description_tag() + task.description;
    let second = completed_tag() + flag_of(task.completed);
    lemma_description_tag_chars();
    lemma_separator_behind_commaless(description_tag(), task.description);
    lemma_flag_field(task.completed);
    lemma_two_fields(first, second);
    assert(line_of(task) =~= first + field_separator() + second);
}

/// A line written for a task is read as that task, if the description
/// holds no field separator.
pub proof fn lemma_line_round_trip(task: TodoView)
    requires
        !occurs_in(task.description, field_separator()),
    ensures
        parse_of(line_of(task)) == Ok::<Option<TodoView>, StoreError>(Some(task)),
{
    let first = description_tag() + task.description;
    let second = completed_tag() + flag_of(task.completed);
    lemma_fields_of_line(task);
    lemma_flag_field(task.completed);
    lemma_without_leading_tag(description_tag(), task.description);
    let fields = fields_of(line_of(task), field_separator());
    assert(fields.len() == 2);
    assert(fields[0] == first);
    assert(fields[1] == second);
    assert(without_leading(fields[0], description_tag()) == task.description);
    assert(without_leading(fields[1], completed_tag()) == flag_of(task.completed));
}

/// The line of a task whose description holds no line feed holds none, and
/// does not end with a carriage return.
proof fn lemma_line_is_one_line(task: TodoView)
    requires
        !occurs_in(task.description, line_feed()),
    ensures
        !occurs_in(line_of(task), line_feed()),
        without_carriage_return(line_of(task)) == line_of(task),
{
    let tag = description_tag();
    let d = task.description;
    let sep = field_separator();
    let second = completed_tag() + flag_of(task.completed);
    let line = line_of(task);
    lemma_description_tag_chars();
    lemma_separator_chars();
    lemma_flag_field(task.completed);
    lemma_no_line_feed(d);
    lemma_no_line_feed(second);
    lemma_no_line_feed(line);
    assert(line =~= tag + d + sep + second);
    assert forall|k: int| 0 <= k < line.len() implies line[k] != '\n' by {
        if k < 13 {
            assert(line[k] == tag[k]);
        } else if k < 13 + d.len() {
            assert(line[k] == d[k - 13]);
        } else if k < 13 + d.len() + 2 {
            assert(line[k] == sep[k - 13 - d.len()]);
        } else {
            assert(line[k] == second[k - 13 - d.len() - 2]);
        }
    }
    assert(line.last() == flag_of(task.completed).last());
}

/// The text of a list ends its lines.
proof fn lemma_content_ends_lines(tasks: Seq<TodoView>)
    ensures
        ends_lines(content_of(tasks)),
{
    if tasks.len() > 0 {
        let record = record_of(tasks.last());
        assert(content_of(tasks).last() == record.last());
    }
}

/// What an append leaves in the store: behind a text that ends its lines,
/// the record of a task with a plain description is read as that task, after
/// the tasks that the text held before.
pub proof fn law_append_then_load(text: Seq<char>, task: TodoView)
    requires
        ends_lines(text),
        is_plain(task.description),
    ensures
        load_of(text + record_of(task)) == match load_of(text) {
            Ok(tasks) => Ok::<Seq<TodoView>, StoreError>(tasks.push(task)),
            Err(e) => Err(e),
        },
{
    let line = line_of(task);
    lemma_line_is_one_line(task);
    lemma_line_round_trip(task);
    lemma_lines_of_one(line);
    lemma_lines_of_concat(text, record_of(task));
    let lines = lines_of(text);
    let longer = lines_of(text + record_of(task));
    assert(longer =~= lines.push(line));
    assert(longer.drop_last() =~= lines);
    assert(longer.last() == line);
}

/// Reading gives back what was written: the text of a list of tasks with
/// plain descriptions holds that list.
pub proof fn law_replace_all_then_load(tasks: Seq<TodoView>)
    requires
        all_plain(tasks),
    ensures
        load_of(content_of(tasks)) == Ok::<Seq<TodoView>, StoreError>(tasks),
    decreases tasks.len(),
{
    if tasks.len() == 0 {
        assert(lines_of(content_of(tasks)) =~= Seq::<Seq<char>>::empty());
        assert(tasks =~= Seq::<TodoView>::empty());
    } else {
        let before = tasks.drop_last();
        assert forall|i: int| 0 <= i < before.len() implies is_plain(
            #[trigger] before[i].description,
        ) by {
            assert(before[i] == tasks[i]);
        }
        law_replace_all_then_load(before);
        lemma_content_ends_lines(before);
        assert(is_plain(tasks.last().description));
        law_append_then_load(content_of(before), tasks.last());
        assert(before.push(tasks.last()) =~= tasks);
    }
}

/// Nothing is lost or added where a store is written out piece by piece:
/// the pieces in a row are the text.
pub proof fn law_records_make_the_text(text: Seq<char>)
    ensures
        pieces_of(text).flatten() == text,
{
    lemma_pieces_make_the_text(text);
}

/// The text of a list is written out task by task: where no description
/// holds a line feed, the pieces of the text are the records of the tasks,
/// in order.
pub proof fn law_records_are_the_tasks(tasks: Seq<TodoView>)
    requires
        forall|i: int| 0 <= i < tasks.len() ==> !occurs_in(#[trigger] tasks[i].description, line_feed()),
    ensures
        pieces_of(content_of(tasks)) == tasks.map_values(|task: TodoView| record_of(task)),
    decreases tasks.len(),
{
    let records = tasks.map_values(|task: TodoView| record_of(task));
    if tasks.len() == 0 {
        assert(pieces_of(content_of(tasks)) =~= records);
    } else {
        let before = tasks.drop_last();
        let last = tasks.last();
        assert forall|i: int| 0 <= i < before.len() implies !occurs_in(
            #[trigger] before[i].description,
            line_feed(),
        ) by {
            assert(before[i] == tasks[i]);
        }
        law_records_are_the_tasks(before);
        lemma_content_ends_lines(before);
        assert(!occurs_in(tasks[tasks.len() - 1].description, line_feed()));
        lemma_line_is_one_line(last);
        lemma_pieces_of_one(line_of(last));
        lemma_pieces_of_concat(content_of(before), record_of(last));
        assert(pieces_of(content_of(tasks)) =~= records);
    }
}

/// A task as an append makes it: still to be done.
pub open spec fn fresh(description: Seq<char>) -> TodoView {
    TodoView { description, completed: false }
}

/// The text of a store after one append for each description, in order.
pub open spec fn appended(text: Seq<char>, descriptions: Seq<Seq<char>>) -> Seq<char>
    decreases descriptions.len(),
{
    if descriptions.len() == 0 {
        text
    } else {
        appended(text, descriptions.drop_last()) + record_of(fresh(descriptions.last()))
    }
}

/// Appends to the empty store write the text of the list of fresh tasks.
proof fn lemma_appended_is_content(descriptions: Seq<Seq<char>>)
    ensures
        appended(Seq::<char>::empty(), descriptions) == content_of(
            descriptions.map_values(|d: Seq<char>| fresh(d)),
        ),
    decreases descriptions.len(),
{
    let tasks = descriptions.map_values(|d: Seq<char>| fresh(d));
    if descriptions.len() > 0 {
        lemma_appended_is_content(descriptions.drop_last());
        assert(tasks.drop_last() =~= descriptions.drop_last().map_values(|d: Seq<char>| fresh(d)));
    }
}

/// Round trip: after any number of appends to an empty store, loading gives
/// the appended tasks, in the order of the appends and none of them done,
/// where the descriptions hold no field separator and no line feed. No
/// other description comes back as it went in: see
/// `law_only_plain_round_trips`.
pub proof fn law_round_trip(descriptions: Seq<Seq<char>>)
    requires
        forall|i: int| 0 <= i < descriptions.len() ==> is_plain(#[trigger] descriptions[i]),
    ensures
        load_of(appended(Seq::<char>::empty(), descriptions)) == Ok::<Seq<TodoView>, StoreError>(
            descriptions.map_values(|d: Seq<char>| fresh(d)),
        ),
{
    let tasks = descriptions.map_values(|d: Seq<char>| fresh(d));
    lemma_appended_is_content(descriptions);
    assert forall|i: int| 0 <= i < tasks.len() implies is_plain(#[trigger] tasks[i].description) by {
        assert(tasks[i].description == descriptions[i]);
    }
    law_replace_all_then_load(tasks);
}

/// What is read from a line without a line feed is plain.
proof fn lemma_parsed_is_plain(line: Seq<char>)
    requires
        !occurs_in(line, line_feed()),
    ensures
        parse_of(line) matches Ok(Some(task)) ==> is_plain(task.description),
{
    let sep = field_separator();
    let fields = fields_of(line, sep);
    lemma_separator_chars();
    lemma_fields_hold_no_line_feed(line, sep);
    lemma_fields_hold_no_separator(line, sep);
    if fields.len() == 2 {
        lemma_without_leading_holds_none(fields[0], description_tag(), sep);
        lemma_without_leading_holds_none(fields[0], description_tag(), line_feed());
    }
}

/// The tasks of lines without a line feed have plain descriptions.
proof fn lemma_tasks_are_plain(lines: Seq<Seq<char>>)
    requires
        forall|k: int| 0 <= k < lines.len() ==> !occurs_in(#[trigger] lines[k], line_feed()),
    ensures
        tasks_of(lines) matches Ok(tasks) ==> all_plain(tasks),
    decreases lines.len(),
{
    if lines.len() > 0 {
        let before = lines.drop_last();
        assert forall|k: int| 0 <= k < before.len() implies !occurs_in(
            #[trigger] before[k],
            line_feed(),
        ) by {
            assert(before[k] == lines[k]);
        }
        lemma_tasks_are_plain(before);
        lemma_parsed_is_plain(lines.last());
    }
}

/// Every list that a store gives back has plain descriptions.
proof fn lemma_loaded_is_plain(text: Seq<char>)
    ensures
        load_of(text) matches Ok(tasks) ==> all_plain(tasks),
{
    lemma_lines_hold_no_line_feed(text);
    lemma_tasks_are_plain(lines_of(text));
}

/// No description that a store gives back holds a line feed.
pub proof fn law_loaded_descriptions_are_lines(text: Seq<char>)
    ensures
        load_of(text) matches Ok(tasks) ==> forall|k: int|
            0 <= k < tasks.len() ==> !occurs_in(#[trigger] tasks[k].description, line_feed()),
{
    lemma_loaded_is_plain(text);
    if let Ok(tasks) = load_of(text) {
        assert forall|k: int| 0 <= k < tasks.len() implies !occurs_in(
            #[trigger] tasks[k].description,
            line_feed(),
        ) by {
            assert(is_plain(tasks[k].description));
        }
    }
}

/// No description that a store gives back holds a field separator.
pub proof fn law_loaded_descriptions_hold_no_separator(text: Seq<char>)
    ensures
        load_of(text) matches Ok(tasks) ==> forall|k: int|
            0 <= k < tasks.len() ==> !occurs_in(
                #[trigger] tasks[k].description,
                field_separator(),
            ),
{
    lemma_loaded_is_plain(text);
    if let Ok(tasks) = load_of(text) {
        assert forall|k: int| 0 <= k < tasks.len() implies !occurs_in(
            #[trigger] tasks[k].description,
            field_separator(),
        ) by {
            assert(is_plain(tasks[k].description));
        }
    }
}

/// What a store gives back, it gives back again: the text of a list that was
/// read from a store holds that list.
pub proof fn law_load_then_replace_all(text: Seq<char>, tasks: Seq<TodoView>)
    requires
        load_of(text) == Ok::<Seq<TodoView>, StoreError>(tasks),
    ensures
        all_plain(tasks),
        load_of(content_of(tasks)) == Ok::<Seq<TodoView>, StoreError>(tasks),
{
    lemma_loaded_is_plain(text);
    law_replace_all_then_load(tasks);
}

/// A store of one record that gives the task back: its line is read as the
/// task.
proof fn lemma_single_record_parses(task: TodoView)
    requires
        !occurs_in(task.description, line_feed()),
        load_of(record_of(task)) == Ok::<Seq<TodoView>, StoreError>(seq![task]),
    ensures
        parse_of(line_of(task)) == Ok::<Option<TodoView>, StoreError>(Some(task)),
{
    let line = line_of(task);
    let lines = lines_of(record_of(task));
    assert(lines == seq![line]) by {
        lemma_line_is_one_line(task);
        lemma_lines_of_one(line);
    }
    assert(lines.drop_last() =~= Seq::<Seq<char>>::empty());
    assert(lines.last() == line);
    assert(tasks_of(lines.drop_last()) == Ok::<Seq<TodoView>, StoreError>(Seq::empty()));
    match parse_of(line) {
        Ok(Some(other)) => {
            assert(tasks_of(lines) == Ok::<Seq<TodoView>, StoreError>(
                Seq::<TodoView>::empty().push(other),
            ));
            assert(Seq::<TodoView>::empty().push(other)[0] == seq![task][0]);
        },
        Ok(None) => {
            assert(Seq::<TodoView>::empty().len() != seq![task].len());
        },
        Err(_) => {},
    }
}

/// A separator in the description gives the line a third field.
proof fn lemma_separator_adds_a_field(task: TodoView)
    requires
        occurs_in(task.description, field_separator()),
    ensures
        fields_of(line_of(task), field_separator()).len() >= 3,
{
    let description = task.description;
    let sep = field_separator();
    let first = description_tag() + description;
    let second = completed_tag() + flag_of(task.completed);
    let line = first + sep + second;
    let joint = first.len() as int;
    let q = choose|q: int| occurs_at(description, sep, q);
    assert(sep.len() == 2) by {
        lemma_separator_chars();
    }
    assert(description_tag().len() == 13) by {
        lemma_description_tag_chars();
    }
    assert(line_of(task) == line) by {
        assert(line_of(task) =~= line);
    }
    assert(occurs_at(line, sep, 13 + q)) by {
        assert(line.subrange(13 + q, 13 + q + 2) =~= description.subrange(q, q + 2));
    }
    assert(occurs_at(line, sep, joint)) by {
        assert(line.subrange(joint, joint + 2) =~= sep);
    }
    lemma_first_occurrence_exists(line, sep);
    let p = first_occurrence(line, sep)->0;
    assert(p <= 13 + q);
    let rest = line.skip(p + 2);
    assert(occurs_at(rest, sep, joint - p - 2)) by {
        lemma_occurs_in_suffix(line, sep, p + 2, joint - p - 2);
    }
    assert(fields_of(rest, sep).len() >= 2) by {
        lemma_fields_of_len(rest, sep);
    }
    assert(fields_of(line, sep) == seq![line.take(p)] + fields_of(rest, sep));
}

/// Only plain descriptions make the round trip: where a store that holds
/// nothing but the record of a fresh task gives that task back, its
/// description is plain.
pub proof fn law_only_plain_round_trips(description: Seq<char>)
    requires
        load_of(record_of(fresh(description))) == Ok::<Seq<TodoView>, StoreError>(
            seq![fresh(description)],
        ),
    ensures
        is_plain(description),
{
    let task = fresh(description);
    assert(!occurs_in(description, line_feed())) by {
        law_loaded_descriptions_are_lines(record_of(task));
        let tasks = load_of(record_of(task))->Ok_0;
        assert(tasks.len() == 1 && tasks[0] == task);
        assert(!occurs_in(tasks[0].description, line_feed()));
    }
    lemma_single_record_parses(task);
    if occurs_in(description, field_separator()) {
        lemma_separator_adds_a_field(task);
    }
}

/// Listing is repeatable: a listing shows what the text of the store holds
/// and nothing else, so two listings of one text show the same.
pub proof fn law_listing_is_repeatable(
    text: Seq<char>,
    first: Result<Seq<(usize, TodoView)>, StoreError>,
    second: Result<Seq<(usize, TodoView)>, StoreError>,
)
    requires
        first == listing_of(text),
        second == listing_of(text),
    ensures
        first == second,
{
}

/// Removal shifts positions: removing the task at `index` leaves the tasks
/// before it where they were and moves each task behind it up by one. The
/// store gives the shorter list back, so that a second removal at `index`
/// takes the task that stood behind the removed one.
pub proof fn law_removal_shifts(text: Seq<char>, tasks: Seq<TodoView>, index: int)
    requires
        load_of(text) == Ok::<Seq<TodoView>, StoreError>(tasks),
        0 <= index < tasks.len(),
    ensures
        after_remove(text, index) == Ok::<Seq<char>, StoreError>(
            content_of(tasks.remove(index)),
        ),
        load_of(content_of(tasks.remove(index))) == Ok::<Seq<TodoView>, StoreError>(
            tasks.remove(index),
        ),
        tasks.remove(index).len() == tasks.len() - 1,
        forall|j: int| 0 <= j < index ==> tasks.remove(index)[j] == tasks[j],
        forall|j: int| index <= j < tasks.len() - 1 ==> tasks.remove(index)[j] == tasks[j + 1],
        index + 1 < tasks.len() ==> after_remove(content_of(tasks.remove(index)), index) == Ok::<
            Seq<char>,
            StoreError,
        >(content_of(tasks.take(index) + tasks.skip(index + 2))),
{
    let fewer = tasks.remove(index);
    lemma_loaded_is_plain(text);
    assert forall|i: int| 0 <= i < fewer.len() implies is_plain(#[trigger] fewer[i].description) by {
        if i < index {
            assert(fewer[i] == tasks[i]);
        } else {
            assert(fewer[i] == tasks[i + 1]);
        }
    }
    law_replace_all_then_load(fewer);
    if index + 1 < tasks.len() {
        assert(fewer.remove(index) =~= tasks.take(index) + tasks.skip(index + 2));
    }
}

/// Completion keeps the order and touches one task: marking the task at
/// `index` as done leaves a list of the same length in which that task is
/// done, its description is the same, and every other task is as it was.
/// The store gives that list back, and a second completion at `index`
/// succeeds and leaves the text as the first one wrote it.
pub proof fn law_completion_is_isolated(text: Seq<char>, tasks: Seq<TodoView>, index: int)
    requires
        load_of(text) == Ok::<Seq<TodoView>, StoreError>(tasks),
        0 <= index < tasks.len(),
    ensures
        after_complete(text, index) == Ok::<Seq<char>, StoreError>(
            content_of(completed_at(tasks, index)),
        ),
        load_of(content_of(completed_at(tasks, index))) == Ok::<Seq<TodoView>, StoreError>(
            completed_at(tasks, index),
        ),
        completed_at(tasks, index).len() == tasks.len(),
        completed_at(tasks, index)[index].completed,
        completed_at(tasks, index)[index].description == tasks[index].description,
        forall|j: int|
            0 <= j < tasks.len() && j != index ==> completed_at(tasks, index)[j] == tasks[j],
        after_complete(content_of(completed_at(tasks, index)), index) == Ok::<
            Seq<char>,
            StoreError,
        >(content_of(completed_at(tasks, index))),
{
    let done = completed_at(tasks, index);
    lemma_loaded_is_plain(text);
    assert forall|i: int| 0 <= i < done.len() implies is_plain(#[trigger] done[i].description) by {
        assert(done[i].description == tasks[i].description);
    }
    law_replace_all_then_load(done);
    assert(completed_at(done, index) =~= done);
}

/// An edit keeps the completion flag: the edited task has the new
/// description and the flag it had, and every other task is as it was.
/// Where the new description is plain, the store gives that list back; so a
/// task that was marked as done and then edited is still done when the
/// store is read again.
pub proof fn law_edit_keeps_completion(
    text: Seq<char>,
    tasks: Seq<TodoView>,
    index: int,
    description: Seq<char>,
)
    requires
        load_of(text) == Ok::<Seq<TodoView>, StoreError>(tasks),
        0 <= index < tasks.len(),
    ensures
        after_edit(text, index, description) == Ok::<Seq<char>, StoreError>(
            content_of(edited_at(tasks, index, description)),
        ),
        edited_at(tasks, index, description).len() == tasks.len(),
        edited_at(tasks, index, description)[index] == (TodoView {
            description,
            completed: tasks[index].completed,
        }),
        forall|j: int|
            0 <= j < tasks.len() && j != index ==> edited_at(tasks, index, description)[j]
                == tasks[j],
        is_plain(description) ==> load_of(content_of(edited_at(tasks, index, description)))
            == Ok::<Seq<TodoView>, StoreError>(edited_at(tasks, index, description)),
        is_plain(description) ==> {
            let done = completed_at(tasks, index);
            let edited = edited_at(done, index, description);
            &&& after_complete(text, index) == Ok::<Seq<char>, StoreError>(content_of(done))
            &&& after_edit(content_of(done), index, description) == Ok::<Seq<char>, StoreError>(
                content_of(edited),
            )
            &&& load_of(content_of(edited)) == Ok::<Seq<TodoView>, StoreError>(edited)
            &&& edited[index] == (TodoView { description, completed: true })
        },
{
    if is_plain(description) {
        lemma_loaded_is_plain(text);
        let changed = edited_at(tasks, index, description);
        assert forall|i: int| 0 <= i < changed.len() implies is_plain(
            #[trigger] changed[i].description,
        ) by {
            if i != index {
                assert(changed[i].description == tasks[i].description);
            }
        }
        law_replace_all_then_load(changed);
        let done = completed_at(tasks, index);
        law_completion_is_isolated(text, tasks, index);
        let edited = edited_at(done, index, description);
        assert forall|i: int| 0 <= i < edited.len() implies is_plain(
            #[trigger] edited[i].description,
        ) by {
            if i != index {
                assert(edited[i].description == tasks[i].description);
            }
        }
        law_replace_all_then_load(edited);
    }
}

/// Out of range is refused: where the index names no task of the list that
/// the store holds, every command that takes an index fails with
/// `IndexOutOfRange`, and a command that fails leaves the text of the store
/// as it was.
pub proof fn law_out_of_range_is_refused(
    text: Seq<char>,
    tasks: Seq<TodoView>,
    index: int,
    description: Seq<char>,
    r: Result<(), StoreError>,
    after: Seq<char>,
)
    requires
        load_of(text) == Ok::<Seq<TodoView>, StoreError>(tasks),
        index < 0 || index >= tasks.len(),
    ensures
        after_remove(text, index) == Err::<Seq<char>, StoreError>(StoreError::IndexOutOfRange),
        after_complete(text, index) == Err::<Seq<char>, StoreError>(StoreError::IndexOutOfRange),
        after_edit(text, index, description) == Err::<Seq<char>, StoreError>(
            StoreError::IndexOutOfRange,
        ),
        commits(text, after_remove(text, index), r, after) ==> r is Err && after == text,
        commits(text, after_complete(text, index), r, after) ==> r is Err && after == text,
        commits(text, after_edit(text, index, description), r, after) ==> r is Err && after
            == text,
{
}

/// How the tasks of two runs of lines make the tasks of the whole.
pub open spec fn joined(
    first: Result<Seq<TodoView>, StoreError>,
    second: Result<Seq<TodoView>, StoreError>,
) -> Result<Seq<TodoView>, StoreError> {
    match first {
        Err(e) => Err(e),
        Ok(tasks) => match second {
            Err(e) => Err(e),
            Ok(more) => Ok(tasks + more),
        },
    }
}

/// The tasks of lines in a row are the tasks of the first lines, then those
/// of the others.
pub proof fn lemma_tasks_of_concat(first: Seq<Seq<char>>, second: Seq<Seq<char>>)
    ensures
        tasks_of(first + second) == joined(tasks_of(first), tasks_of(second)),
    decreases second.len(),
{
    let whole = first + second;
    if second.len() == 0 {
        assert(whole =~= first);
        if let Ok(tasks) = tasks_of(first) {
            assert(tasks + Seq::<TodoView>::empty() =~= tasks);
        }
    } else {
        assert(whole.drop_last() =~= first + second.drop_last());
        assert(whole.last() == second.last());
        lemma_tasks_of_concat(first, second.drop_last());
        if let Ok(tasks) = tasks_of(first) {
            if let Ok(more) = tasks_of(second.drop_last()) {
                if let Ok(Some(task)) = parse_of(second.last()) {
                    assert((tasks + more).push(task) =~= tasks + more.push(task));
                }
            }
        }
    }
}

/// A malformed line is skipped: a line that does not fall into exactly two
/// fields adds no task and stops nothing. The lines before and behind it
/// are read as if it were not there.
pub proof fn law_malformed_line_is_skipped(
    before: Seq<Seq<char>>,
    line: Seq<char>,
    behind: Seq<Seq<char>>,
)
    requires
        fields_of(line, field_separator()).len() != 2,
    ensures
        parse_of(line) == Ok::<Option<TodoView>, StoreError>(None),
        tasks_of(before + seq![line] + behind) == tasks_of(before + behind),
{
    let first = before + seq![line];
    assert(first.drop_last() =~= before);
    assert(first.last() == line);
    assert(tasks_of(first) == tasks_of(before));
    lemma_tasks_of_concat(first, behind);
    lemma_tasks_of_concat(before, behind);
}

/// The same of the text of a store: a malformed line between lines that
/// are whole is read as if it were not there.
pub proof fn law_malformed_line_in_store(before: Seq<char>, line: Seq<char>, behind: Seq<char>)
    requires
        ends_lines(before),
        !occurs_in(line, line_feed()),
        fields_of(without_carriage_return(line), field_separator()).len() != 2,
    ensures
        load_of(before + line.push('\n') + behind) == load_of(before + behind),
{
    let record = line.push('\n');
    lemma_lines_of_one(line);
    lemma_lines_of_concat(before, record);
    assert(ends_lines(before + record)) by {
        assert((before + record).last() == '\n');
    }
    lemma_lines_of_concat(before + record, behind);
    lemma_lines_of_concat(before, behind);
    law_malformed_line_is_skipped(
        lines_of(before),
        without_carriage_return(line),
        lines_of(behind),
    );
}

} // verus!
