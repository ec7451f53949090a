//! The store: the text that holds the list, and the commands on it.
//!
//! A store is nothing but its text. Every command reads the whole text,
//! changes the list once, and writes the whole text anew; a command that is
//! refused leaves the text as it was. Lines that hold no task are passed
//! over in reading, so the first command that writes leaves them out.

use crate::error::StoreError;
use crate::task::{parse_line, parse_of, record_of, Todo, TodoView};
use crate::text::{lines_of, pieces_of, split_lines, split_pieces};
use vstd::prelude::*;

verus! {

/// The tasks that a sequence of lines holds, in the order of the lines.
/// Lines that hold nothing are passed over; one malformed flag spoils the
/// whole.
pub open spec fn tasks_of(lines: Seq<Seq<char>>) -> Result<Seq<TodoView>, StoreError>
    decreases lines.len(),
{
    if lines.len() == 0 {
        Ok(Seq::empty())
    } else {
        match tasks_of(lines.drop_last()) {
            Err(e) => Err(e),
            Ok(tasks) => match parse_of(lines.last()) {
                Err(e) => Err(e),
                Ok(None) => Ok(tasks),
                Ok(Some(task)) => Ok(tasks.push(task)),
            },
        }
    }
}

/// The list that the text of a store holds.
pub open spec fn load_of(text: Seq<char>) -> Result<Seq<TodoView>, StoreError> {
    tasks_of(lines_of(text))
}

/// The text that holds a list: one record for each task, in order.
pub open spec fn content_of(tasks: Seq<TodoView>) -> Seq<char>
    decreases tasks.len(),
{
    if tasks.len() == 0 {
        Seq::empty()
    } else {
        content_of(tasks.drop_last()) + record_of(tasks.last())
    }
}

/// The list with the task at `index` marked as done.
pub open spec fn completed_at(tasks: Seq<TodoView>, index: int) -> Seq<TodoView> {
    tasks.update(index, TodoView { description: tasks[index].description, completed: true })
}

/// The list with the description of the task at `index` replaced.
pub open spec fn edited_at(tasks: Seq<TodoView>, index: int, description: Seq<char>) -> Seq<
    TodoView,
> {
    tasks.update(index, TodoView { description, completed: tasks[index].completed })
}

/// The text of a store after the task at `index` was removed from it.
pub open spec fn after_remove(text: Seq<char>, index: int) -> Result<Seq<char>, StoreError> {
    match load_of(text) {
        Err(e) => Err(e),
        Ok(tasks) => if 0 <= index < tasks.len() {
            Ok(content_of(tasks.remove(index)))
        } else {
            Err(StoreError::IndexOutOfRange)
        },
    }
}

/// The text of a store after the task at `index` was marked as done.
pub open spec fn after_complete(text: Seq<char>, index: int) -> Result<Seq<char>, StoreError> {
    match load_of(text) {
        Err(e) => Err(e),
        Ok(tasks) => if 0 <= index < tasks.len() {
            Ok(content_of(completed_at(tasks, index)))
        } else {
            Err(StoreError::IndexOutOfRange)
        },
    }
}

/// The text of a store after the task at `index` got a new description.
pub open spec fn after_edit(text: Seq<char>, index: int, description: Seq<char>) -> Result<
    Seq<char>,
    StoreError,
> {
    match load_of(text) {
        Err(e) => Err(e),
        Ok(tasks) => if 0 <= index < tasks.len() {
            Ok(content_of(edited_at(tasks, index, description)))
        } else {
            Err(StoreError::IndexOutOfRange)
        },
    }
}

/// The tasks of a list, each with its position counted from one.
pub open spec fn numbered(tasks: Seq<TodoView>) -> Seq<(usize, TodoView)> {
    Seq::new(tasks.len(), |i: int| ((i + 1) as usize, tasks[i]))
}

/// What a listing of the text of a store shows.
pub open spec fn listing_of(text: Seq<char>) -> Result<Seq<(usize, TodoView)>, StoreError> {
    match load_of(text) {
        Ok(tasks) => Ok(numbered(tasks)),
        Err(e) => Err(e),
    }
}

/// How a command ends: with the new text in the store, or refused with the
/// store unchanged.
pub open spec fn commits(
    before: Seq<char>,
    outcome: Result<Seq<char>, StoreError>,
    r: Result<(), StoreError>,
    after: Seq<char>,
) -> bool {
    match outcome {
        Ok(text) => r is Ok && after == text,
        Err(e) => r == Err::<(), StoreError>(e) && after == before,
    }
}

/// A failure among the first lines is the failure of the whole.
pub proof fn lemma_failure_persists(lines: Seq<Seq<char>>, k: int)
    requires
        0 <= k <= lines.len(),
        tasks_of(lines.take(k)) is Err,
    ensures
        tasks_of(lines) == tasks_of(lines.take(k)),
    decreases lines.len() - k,
{
    if k == lines.len() {
        assert(lines.take(k) =~= lines);
    } else {
        assert(lines.take(k + 1).drop_last() =~= lines.take(k));
        lemma_failure_persists(lines, k + 1);
    }
}

/// The index of the task that a position counted from one names.
pub fn index_of_position(position: u16) -> (r: Result<usize, StoreError>)
    ensures
        position == 0 ==> r == Err::<usize, StoreError>(StoreError::IndexOutOfRange),
        position > 0 ==> r == Ok::<usize, StoreError>((position - 1) as usize),
{
    if position == 0 {
        Err(StoreError::IndexOutOfRange)
    } else {
        Ok((position - 1) as usize)
    }
}

/// The text of a to-do list.
pub struct Store {
    content: String,
}

impl View for Store {
    type V = Seq<char>;

    closed spec fn view(&self) -> Seq<char> {
        self.content@
    }
}

impl Store {
    /// A store without text, as before the first append.
    pub fn new() -> (store: Store)
        ensures
            store@ == Seq::<char>::empty(),
    {
        Store { content: String::new() }
    }

    /// The store with the given text.
    pub fn from_content(content: String) -> (store: Store)
        ensures
            store@ == content@,
    {
        Store { content }
    }

    /// The text of the store.
    pub fn content(&self) -> (content: &str)
        ensures
            content@ == self@,
    {
        self.content.as_str()
    }

    /// The text of the store in the pieces in which it is written out, one
    /// behind the other: each ends with a line feed, so that a writer that
    /// fails between two of them leaves whole lines.
    pub fn records(&self) -> (records: Vec<String>)
        ensures
            records.deep_view() == pieces_of(self@),
    {
        split_pieces(self.content.as_str())
    }

    /// Adds a task that is still to be done at the end of the store. The
    /// description is taken as it is.
    pub fn append(&mut self, description: String) -> (task: Todo)
        ensures
            task.description == description,
            !task.completed,
            final(self)@ == old(self)@ + record_of(task@),
    {
        let task = Todo::new(description);
        let record = task.record();
        self.content.append(record.as_str());
        task
    }

    /// Reads the list that the store holds.
    pub fn load(&self) -> (r: Result<Vec<Todo>, StoreError>)
        ensures
            match load_of(self@) {
                Ok(tasks) => r matches Ok(todos) && todos.deep_view() == tasks,
                Err(e) => r matches Err(f) && f == e,
            },
    {
        let lines = split_lines(self.content.as_str());
        let mut todos: Vec<Todo> = Vec::new();
        let mut k: usize = 0;
        assert(todos.deep_view() =~= Seq::<TodoView>::empty());
        while k < lines.len()
            invariant
                k <= lines.len(),
                lines.deep_view() == lines_of(self@),
                tasks_of(lines.deep_view().take(k as int)) == Ok::<Seq<TodoView>, StoreError>(
                    todos.deep_view(),
                ),
            decreases lines.len() - k,
        {
            let ghost all = lines.deep_view();
            let ghost before = todos.deep_view();
            assert(all.take(k + 1).drop_last() =~= all.take(k as int));
            assert(all.take(k + 1).last() == lines[k as int]@);
            match parse_line(lines[k].as_str()) {
                Ok(Some(todo)) => {
                    todos.push(todo);
                    assert(todos.deep_view() =~= before.push(todo@));
                },
                Ok(None) => {},
                Err(e) => {
                    proof {
                        lemma_failure_persists(all, k + 1);
                    }
                    return Err(e);
                },
            }
            k += 1;
        }
        assert(lines.deep_view().take(k as int) =~= lines.deep_view());
        Ok(todos)
    }

    /// Replaces the text of the store by the text of the given list.
    pub fn replace_all(&mut self, todos: &Vec<Todo>)
        ensures
            final(self)@ == content_of(todos.deep_view()),
    {
        let mut content = String::new();
        let mut k: usize = 0;
        assert(todos.deep_view().take(0) =~= Seq::<TodoView>::empty());
        while k < todos.len()
            invariant
                k <= todos.len(),
                content@ == content_of(todos.deep_view().take(k as int)),
            decreases todos.len() - k,
        {
            let ghost all = todos.deep_view();
            assert(all.take(k + 1).drop_last() =~= all.take(k as int));
            assert(all.take(k + 1).last() == todos[k as int]@);
            let record = todos[k].record();
            content.append(record.as_str());
            k += 1;
        }
        assert(todos.deep_view().take(k as int) =~= todos.deep_view());
        self.content = content;
    }

    /// Removes the task at `index`; the tasks behind it move up by one.
    pub fn remove_at(&mut self, index: usize) -> (r: Result<(), StoreError>)
        ensures
            commits(old(self)@, after_remove(old(self)@, index as int), r, final(self)@),
    {
        let mut todos = match self.load() {
            Ok(todos) => todos,
            Err(e) => {
                return Err(e);
            },
        };
        if index < todos.len() {
            let ghost tasks = todos.deep_view();
            todos.remove(index);
            assert(todos.deep_view() =~= tasks.remove(index as int));
            self.replace_all(&todos);
            Ok(())
        } else {
            Err(StoreError::IndexOutOfRange)
        }
    }

    /// Marks the task at `index` as done, whether or not it was so before.
    pub fn mark_complete(&mut self, index: usize) -> (r: Result<(), StoreError>)
        ensures
            commits(old(self)@, after_complete(old(self)@, index as int), r, final(self)@),
    {
        let mut todos = match self.load() {
            Ok(todos) => todos,
            Err(e) => {
                return Err(e);
            },
        };
        if index < todos.len() {
            let ghost tasks = todos.deep_view();
            todos[index].completed = true;
            assert(todos.deep_view() =~= completed_at(tasks, index as int));
            self.replace_all(&todos);
            Ok(())
        } else {
            Err(StoreError::IndexOutOfRange)
        }
    }

    /// Gives the task at `index` a new description and leaves its flag as it
    /// is. The description is taken as it is.
    pub fn edit_description(&mut self, index: usize, description: String) -> (r: Result<
        (),
        StoreError,
    >)
        ensures
            commits(
                old(self)@,
                after_edit(old(self)@, index as int, description@),
                r,
                final(self)@,
            ),
    {
        let mut todos = match self.load() {
            Ok(todos) => todos,
            Err(e) => {
                return Err(e);
            },
        };
        if index < todos.len() {
            let ghost tasks = todos.deep_view();
            let ghost text = description@;
            todos[index].description = description;
            assert(todos.deep_view() =~= edited_at(tasks, index as int, text));
            self.replace_all(&todos);
            Ok(())
        } else {
            Err(StoreError::IndexOutOfRange)
        }
    }

    /// The tasks of the store in order, each with its position counted from
    /// one.
    pub fn list(&self) -> (r: Result<Vec<(usize, Todo)>, StoreError>)
        ensures
            match listing_of(self@) {
                Ok(listing) => r matches Ok(entries) && entries.deep_view() == listing,
                Err(e) => r matches Err(f) && f == e,
            },
    {
        let todos = match self.load() {
            Ok(todos) => todos,
            Err(e) => {
                return Err(e);
            },
        };
        let ghost tasks = todos.deep_view();
        let mut entries: Vec<(usize, Todo)> = Vec::new();
        let mut k: usize = 0;
        while k < todos.len()
            invariant
                k <= todos.len(),
                todos.deep_view() == tasks,
                entries.len() == k,
                forall|i: int|
                    0 <= i < k ==> (#[trigger] entries[i]).0 == i + 1 && entries[i].1@ == tasks[i],
            decreases todos.len() - k,
        {
            let todo = todos[k].clone();
            entries.push((k + 1, todo));
            k += 1;
        }
        assert(entries.deep_view() =~= numbered(tasks));
        Ok(entries)
    }
}

} // verus!
