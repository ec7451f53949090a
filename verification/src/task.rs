//! A task and the line of text that stands for it.

use crate::error::StoreError;
use crate::text::{decimal, decimal_of, fields_of, split, strip_leading, without_leading};
use vstd::prelude::*;

verus! {

/// A task: what is to be done, and whether it has been done.
#[derive(Debug, PartialEq, Eq)]
pub struct Todo {
    pub description: String,
    pub completed: bool,
}

/// A task as a mathematical value.
pub struct TodoView {
    pub description: Seq<char>,
    pub completed: bool,
}

impl View for Todo {
    type V = TodoView;

    open spec fn view(&self) -> TodoView {
        TodoView { description: self.description@, completed: self.completed }
    }
}

impl DeepView for Todo {
    type V = TodoView;

    open spec fn deep_view(&self) -> TodoView {
        self@
    }
}

impl Clone for Todo {
    fn clone(&self) -> (task: Todo)
        ensures
            task == *self,
    {
        Todo { description: self.description.clone(), completed: self.completed }
    }
}

/// What parts the two fields of a line.
pub open spec fn field_separator() -> Seq<char> {
    ", "@
}

/// What stands before the description in a line.
pub open spec fn description_tag() -> Seq<char> {
    "description: "@
}

/// What stands before the completion flag in a line.
pub open spec fn completed_tag() -> Seq<char> {
    "completed: "@
}

/// The text of a completion flag.
pub open spec fn flag_of(completed: bool) -> Seq<char> {
    if completed {
        "true"@
    } else {
        "false"@
    }
}

/// The line that stands for a task.
pub open spec fn line_of(task: TodoView) -> Seq<char> {
    description_tag() + task.description + field_separator() + completed_tag() + flag_of(
        task.completed,
    )
}

/// The line of a task, closed by a line feed.
pub open spec fn record_of(task: TodoView) -> Seq<char> {
    line_of(task).push('\n')
}

/// What a line holds. A line that does not fall into exactly two fields
/// holds nothing. In a line of two fields, the first field without its
/// leading tag is the description, and the second field without its leading
/// tag must be a flag. A field that does not begin with its tag is taken as
/// it is, and a tag anywhere else in a field is part of it.
pub open spec fn parse_of(line: Seq<char>) -> Result<Option<TodoView>, StoreError> {
    let fields = fields_of(line, field_separator());
    if fields.len() != 2 {
        Ok(None)
    } else {
        let description = without_leading(fields[0], description_tag());
        let flag = without_leading(fields[1], completed_tag());
        if flag == flag_of(true) {
            Ok(Some(TodoView { description, completed: true }))
        } else if flag == flag_of(false) {
            Ok(Some(TodoView { description, completed: false }))
        } else {
            Err(StoreError::MalformedFlag)
        }
    }
}

/// The mark that a listing shows for a completion flag.
pub open spec fn mark_of(completed: bool) -> Seq<char> {
    if completed {
        "✅"@
    } else {
        "❌"@
    }
}

/// The line that a listing shows for the task at `position`.
pub open spec fn listing_line_of(position: nat, task: TodoView) -> Seq<char> {
    decimal_of(position) + ": "@ + task.description + " "@ + mark_of(task.completed)
}

impl Todo {
    /// A task that is still to be done.
    pub fn new(description: String) -> (task: Todo)
        ensures
            task.description == description,
            !task.completed,
    {
        Todo { description, completed: false }
    }

    /// The line that stands for the task in a store.
    pub fn to_line(&self) -> (line: String)
        ensures
            line@ == line_of(self@),
    {
        let mut line = String::from_str("description: ");
        line.append(self.description.as_str());
        line.append(", ");
        line.append("completed: ");
        line.append(
            if self.completed {
                "true"
            } else {
                "false"
            },
        );
        line
    }

    /// The line of the task with the line feed that closes it: what an
    /// append adds to the text of a store.
    pub fn record(&self) -> (record: String)
        ensures
            record@ == record_of(self@),
    {
        let mut record = self.to_line();
        proof {
            reveal_strlit("\n");
            assert("\n"@ =~= seq!['\n']);
        }
        record.append("\n");
        assert(record@ =~= record_of(self@));
        record
    }

    /// The line that a listing shows for the task at `position`.
    pub fn listing_line(&self, position: usize) -> (line: String)
        ensures
            line@ == listing_line_of(position as nat, self@),
    {
        let mut line = decimal(position);
        line.append(": ");
        line.append(self.description.as_str());
        line.append(" ");
        line.append(
            if self.completed {
                "✅"
            } else {
                "❌"
            },
        );
        line
    }
}

/// Reads one line of a store.
pub fn parse_line(line: &str) -> (r: Result<Option<Todo>, StoreError>)
    ensures
        match parse_of(line@) {
            Ok(Some(task)) => r matches Ok(Some(t)) && t@ == task,
            Ok(None) => r matches Ok(None),
            Err(e) => r == Err::<Option<Todo>, StoreError>(e),
        },
{
    let fields = split(line, ", ");
    if fields.len() != 2 {
        return Ok(None);
    }
    let description = strip_leading(fields[0].as_str(), "description: ");
    let flag = strip_leading(fields[1].as_str(), "completed: ");
    if flag == String::from_str("true") {
        Ok(Some(Todo { description, completed: true }))
    } else if flag == String::from_str("false") {
        Ok(Some(Todo { description, completed: false }))
    } else {
        Err(StoreError::MalformedFlag)
    }
}

} // verus!
