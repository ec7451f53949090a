use todo_store::error::StoreError;
use todo_store::store::{index_of_position, Store};
use todo_store::task::Todo;

fn todo(description: &str, completed: bool) -> Todo {
    Todo { description: description.to_string(), completed }
}

fn store_of(descriptions: &[&str]) -> Store {
    let mut store = Store::new();
    for d in descriptions {
        store.append(d.to_string());
    }
    store
}

#[test]
fn new_store_is_empty() {
    let store = Store::new();
    assert_eq!(store.content(), "");
    assert_eq!(store.load(), Ok(vec![]));
    assert_eq!(store.list(), Ok(vec![]));
}

#[test]
fn from_content_keeps_the_text() {
    let text = "anything at all\r\n, , ,\n";
    let store = Store::from_content(text.to_string());
    assert_eq!(store.content(), text);
}

#[test]
fn append_returns_an_open_task_and_adds_one_record() {
    let mut store = Store::new();
    let task = store.append("buy milk".to_string());
    assert_eq!(task, todo("buy milk", false));
    assert_eq!(store.content(), "description: buy milk, completed: false\n");
    let task = store.append("walk the dog".to_string());
    assert_eq!(task, todo("walk the dog", false));
    assert_eq!(
        store.content(),
        "description: buy milk, completed: false\ndescription: walk the dog, completed: false\n"
    );
}

#[test]
fn round_trip_of_appended_tasks() {
    let store = store_of(&["A", "B", "C"]);
    assert_eq!(
        store.load(),
        Ok(vec![todo("A", false), todo("B", false), todo("C", false)])
    );
}

#[test]
fn round_trip_of_many_appended_tasks() {
    let mut store = Store::new();
    let mut expected = Vec::new();
    for i in 0..40 {
        let d = format!("task number {} with a comma,and a colon:", i);
        store.append(d.clone());
        expected.push(Todo { description: d, completed: false });
    }
    assert_eq!(store.load(), Ok(expected));
}

#[test]
fn round_trip_of_text_beyond_ascii() {
    let store = store_of(&["café ☕ übermorgen", "日本語のタスク", "tab\there \r inside"]);
    assert_eq!(
        store.load(),
        Ok(vec![
            todo("café ☕ übermorgen", false),
            todo("日本語のタスク", false),
            todo("tab\there \r inside", false),
        ])
    );
}

#[test]
fn round_trip_of_the_empty_description() {
    let store = store_of(&[""]);
    assert_eq!(store.content(), "description: , completed: false\n");
    assert_eq!(store.load(), Ok(vec![todo("", false)]));
}

#[test]
fn list_twice_gives_the_same() {
    let mut store = store_of(&["A", "B", "C"]);
    store.mark_complete(1).unwrap();
    let before = store.content().to_string();
    let first = store.list();
    let second = store.list();
    assert_eq!(first, second);
    assert_eq!(store.content(), before);
    assert_eq!(
        first,
        Ok(vec![(1, todo("A", false)), (2, todo("B", true)), (3, todo("C", false))])
    );
}

#[test]
fn removal_shifts_indices() {
    let mut store = store_of(&["A", "B", "C"]);
    let second = index_of_position(2).unwrap();
    assert_eq!(store.remove_at(second), Ok(()));
    assert_eq!(store.load(), Ok(vec![todo("A", false), todo("C", false)]));
    assert_eq!(
        store.content(),
        "description: A, completed: false\ndescription: C, completed: false\n"
    );
    assert_eq!(store.remove_at(second), Ok(()));
    assert_eq!(store.load(), Ok(vec![todo("A", false)]));
    assert_eq!(store.remove_at(0), Ok(()));
    assert_eq!(store.load(), Ok(vec![]));
    assert_eq!(store.content(), "");
}

#[test]
fn completion_is_order_preserving_and_isolated() {
    let mut store = store_of(&["A", "B", "C"]);
    assert_eq!(store.mark_complete(index_of_position(2).unwrap()), Ok(()));
    assert_eq!(
        store.load(),
        Ok(vec![todo("A", false), todo("B", true), todo("C", false)])
    );
    assert_eq!(
        store.content(),
        "description: A, completed: false\ndescription: B, completed: true\ndescription: C, completed: false\n"
    );
}

#[test]
fn completion_twice_is_completion_once() {
    let mut store = store_of(&["A", "B"]);
    store.mark_complete(0).unwrap();
    let once = store.content().to_string();
    assert_eq!(store.mark_complete(0), Ok(()));
    assert_eq!(store.content(), once);
    assert_eq!(store.load(), Ok(vec![todo("A", true), todo("B", false)]));
}

#[test]
fn edit_preserves_completion_flag() {
    let mut store = store_of(&["A", "B", "C"]);
    let first = index_of_position(1).unwrap();
    store.mark_complete(first).unwrap();
    assert_eq!(store.edit_description(first, "A, second thoughts".replace(", ", " - ")), Ok(()));
    assert_eq!(
        store.load(),
        Ok(vec![todo("A - second thoughts", true), todo("B", false), todo("C", false)])
    );
}

#[test]
fn edit_of_an_open_task_leaves_it_open() {
    let mut store = store_of(&["A", "B"]);
    assert_eq!(store.edit_description(1, "Z".to_string()), Ok(()));
    assert_eq!(store.load(), Ok(vec![todo("A", false), todo("Z", false)]));
    assert_eq!(
        store.content(),
        "description: A, completed: false\ndescription: Z, completed: false\n"
    );
}

#[test]
fn out_of_bounds_is_refused_and_the_store_is_unchanged() {
    let mut store = store_of(&["A", "B", "C"]);
    let before = store.content().to_string();
    assert_eq!(store.remove_at(3), Err(StoreError::IndexOutOfRange));
    assert_eq!(store.content(), before);
    assert_eq!(store.mark_complete(3), Err(StoreError::IndexOutOfRange));
    assert_eq!(store.content(), before);
    assert_eq!(store.edit_description(3, "X".to_string()), Err(StoreError::IndexOutOfRange));
    assert_eq!(store.content(), before);
    assert_eq!(store.remove_at(usize::MAX), Err(StoreError::IndexOutOfRange));
    assert_eq!(store.content(), before);
    assert_eq!(
        store.load(),
        Ok(vec![todo("A", false), todo("B", false), todo("C", false)])
    );
}

#[test]
fn every_index_is_out_of_bounds_in_an_empty_store() {
    let mut store = Store::new();
    assert_eq!(store.remove_at(0), Err(StoreError::IndexOutOfRange));
    assert_eq!(store.mark_complete(0), Err(StoreError::IndexOutOfRange));
    assert_eq!(store.edit_description(0, "X".to_string()), Err(StoreError::IndexOutOfRange));
    assert_eq!(store.content(), "");
}

#[test]
fn position_zero_names_no_task() {
    assert_eq!(index_of_position(0), Err(StoreError::IndexOutOfRange));
}

#[test]
fn positions_count_from_one() {
    assert_eq!(index_of_position(1), Ok(0));
    assert_eq!(index_of_position(2), Ok(1));
    assert_eq!(index_of_position(u16::MAX), Ok(65534));
}

#[test]
fn malformed_line_is_skipped() {
    let text = "no separator here\n\
                description: A, completed: false\n\
                one, two, three\n\
                \n\
                description: B, completed: true\n";
    let store = Store::from_content(text.to_string());
    assert_eq!(store.load(), Ok(vec![todo("A", false), todo("B", true)]));
    assert_eq!(
        store.list(),
        Ok(vec![(1, todo("A", false)), (2, todo("B", true))])
    );
}

#[test]
fn malformed_flag_is_an_error() {
    let text = "description: A, completed: false\ndescription: B, completed: maybe\n";
    let store = Store::from_content(text.to_string());
    assert_eq!(store.load(), Err(StoreError::MalformedFlag));
    assert_eq!(store.list(), Err(StoreError::MalformedFlag));
}

#[test]
fn malformed_flag_anywhere_spoils_the_load() {
    for text in [
        "description: A, completed: True\ndescription: B, completed: true\n",
        "description: A, completed: true\ndescription: B, completed: \n",
        "description: A, completed: true\nskipped\ndescription: B, completed:  false\n",
        "x, y\n",
    ] {
        let store = Store::from_content(text.to_string());
        assert_eq!(store.load(), Err(StoreError::MalformedFlag), "{:?}", text);
    }
}

#[test]
fn malformed_flag_refuses_every_command_and_leaves_the_store() {
    let text = "description: A, completed: perhaps\n";
    let mut store = Store::from_content(text.to_string());
    assert_eq!(store.remove_at(0), Err(StoreError::MalformedFlag));
    assert_eq!(store.content(), text);
    assert_eq!(store.mark_complete(0), Err(StoreError::MalformedFlag));
    assert_eq!(store.content(), text);
    assert_eq!(store.edit_description(0, "B".to_string()), Err(StoreError::MalformedFlag));
    assert_eq!(store.content(), text);
    assert_eq!(store.remove_at(7), Err(StoreError::MalformedFlag));
    assert_eq!(store.content(), text);
}

#[test]
fn a_command_writes_the_whole_store_anew() {
    let text = "stray line\ndescription: A, completed: false\r\ndescription: B, completed: false";
    let mut store = Store::from_content(text.to_string());
    assert_eq!(store.mark_complete(1), Ok(()));
    assert_eq!(
        store.content(),
        "description: A, completed: false\ndescription: B, completed: true\n"
    );
}

#[test]
fn replace_all_writes_one_record_for_each_task() {
    let mut store = store_of(&["gone"]);
    store.replace_all(&vec![todo("A", true), todo("B", false)]);
    assert_eq!(
        store.content(),
        "description: A, completed: true\ndescription: B, completed: false\n"
    );
    store.replace_all(&vec![]);
    assert_eq!(store.content(), "");
}

#[test]
fn load_reads_lines_that_end_with_carriage_return_and_line_feed() {
    let text = "description: A, completed: true\r\ndescription: B, completed: false\r\n";
    let store = Store::from_content(text.to_string());
    assert_eq!(store.load(), Ok(vec![todo("A", true), todo("B", false)]));
}

#[test]
fn load_reads_a_last_line_without_line_feed() {
    let text = "description: A, completed: true\ndescription: B, completed: false";
    let store = Store::from_content(text.to_string());
    assert_eq!(store.load(), Ok(vec![todo("A", true), todo("B", false)]));
}

#[test]
fn carriage_return_at_the_very_end_belongs_to_the_flag() {
    let text = "description: A, completed: true\r";
    let store = Store::from_content(text.to_string());
    assert_eq!(store.load(), Err(StoreError::MalformedFlag));
}

#[test]
fn append_behind_an_open_line_runs_into_it() {
    let mut store = Store::from_content("description: A, completed: false".to_string());
    store.append("B".to_string());
    assert_eq!(
        store.content(),
        "description: A, completed: falsedescription: B, completed: false\n"
    );
    assert_eq!(store.load(), Ok(vec![]));
}

#[test]
fn description_with_a_separator_is_lost_on_load() {
    let mut store = store_of(&["A"]);
    let task = store.append("eggs, flour".to_string());
    assert_eq!(task, todo("eggs, flour", false));
    assert_eq!(
        store.content(),
        "description: A, completed: false\ndescription: eggs, flour, completed: false\n"
    );
    assert_eq!(store.load(), Ok(vec![todo("A", false)]));
}

#[test]
fn description_with_a_line_feed_breaks_its_record() {
    let store = store_of(&["first\nsecond"]);
    assert_eq!(store.load(), Ok(vec![todo("second", false)]));
}

#[test]
fn description_with_the_tag_comes_back_as_it_went_in() {
    let store = store_of(&[
        "fix description: field",
        "description: at the start",
        "completed: true",
        "x,description:  y",
    ]);
    assert_eq!(
        store.load(),
        Ok(vec![
            todo("fix description: field", false),
            todo("description: at the start", false),
            todo("completed: true", false),
            todo("x,description:  y", false),
        ])
    );
}

#[test]
fn replace_all_then_load_gives_the_list_back() {
    let list = vec![
        todo("write description: short", false),
        todo("description: description: ", true),
        todo("a,b ,c :", true),
        todo("", false),
    ];
    let mut store = Store::new();
    store.replace_all(&list);
    assert_eq!(store.load(), Ok(list));
}

#[test]
fn a_command_keeps_the_tasks_it_does_not_touch() {
    let odd = "x,description:  y";

    let mut store = store_of(&[odd]);
    assert_eq!(store.mark_complete(0), Ok(()));
    assert_eq!(store.load(), Ok(vec![todo(odd, true)]));
    let once = store.content().to_string();
    assert_eq!(store.mark_complete(0), Ok(()));
    assert_eq!(store.content(), once);

    let mut store = store_of(&["A", odd]);
    assert_eq!(store.remove_at(0), Ok(()));
    assert_eq!(store.load(), Ok(vec![todo(odd, false)]));

    let mut store = store_of(&["A", odd]);
    assert_eq!(store.edit_description(0, "Z".to_string()), Ok(()));
    assert_eq!(store.load(), Ok(vec![todo("Z", false), todo(odd, false)]));

    let mut store = store_of(&[odd, "A"]);
    assert_eq!(store.mark_complete(1), Ok(()));
    assert_eq!(store.load(), Ok(vec![todo(odd, false), todo("A", true)]));

    let mut store = store_of(&[odd, "A", "B"]);
    assert_eq!(store.mark_complete(1), Ok(()));
    assert_eq!(store.edit_description(1, "Z".to_string()), Ok(()));
    assert_eq!(
        store.load(),
        Ok(vec![todo(odd, false), todo("Z", true), todo("B", false)])
    );
}

#[test]
fn what_was_loaded_is_loaded_again_after_a_command() {
    let text = "A, true\n\
                descripdescription: tion: B, completed: false\n\
                ,description:  C, completed: true\n\
                description: description: D, false\n\
                junk\n";
    let mut store = Store::from_content(text.to_string());
    let before = store.load().unwrap();
    assert_eq!(
        before,
        vec![
            todo("A", true),
            todo("descripdescription: tion: B", false),
            todo(",description:  C", true),
            todo("description: D", false),
        ]
    );
    assert_eq!(store.mark_complete(3), Ok(()));
    assert_eq!(
        store.load(),
        Ok(vec![
            todo("A", true),
            todo("descripdescription: tion: B", false),
            todo(",description:  C", true),
            todo("description: D", true),
        ])
    );
    assert_eq!(store.remove_at(0), Ok(()));
    assert_eq!(
        store.load(),
        Ok(vec![
            todo("descripdescription: tion: B", false),
            todo(",description:  C", true),
            todo("description: D", true),
        ])
    );
}

#[test]
fn edit_with_a_separator_loses_the_task_on_load() {
    let mut store = store_of(&["A", "B"]);
    assert_eq!(store.edit_description(0, "eggs, flour".to_string()), Ok(()));
    assert_eq!(
        store.content(),
        "description: eggs, flour, completed: false\ndescription: B, completed: false\n"
    );
    assert_eq!(store.load(), Ok(vec![todo("B", false)]));
}

#[test]
fn records_are_the_text_cut_behind_each_line_feed() {
    let mut store = store_of(&["A", "B"]);
    store.mark_complete(1).unwrap();
    assert_eq!(
        store.records(),
        vec!["description: A, completed: false\n", "description: B, completed: true\n"]
    );
    assert_eq!(store.records().concat(), store.content());
    assert_eq!(Store::new().records(), Vec::<String>::new());
    let open = Store::from_content("one\r\ntwo\n\nlast".to_string());
    assert_eq!(open.records(), vec!["one\r\n", "two\n", "\n", "last"]);
}

#[test]
fn list_numbers_the_tasks_from_one() {
    let store = store_of(&["A", "B", "C"]);
    let entries = store.list().unwrap();
    let positions: Vec<usize> = entries.iter().map(|e| e.0).collect();
    assert_eq!(positions, vec![1, 2, 3]);
    let lines: Vec<String> = entries.iter().map(|e| e.1.listing_line(e.0)).collect();
    assert_eq!(lines, vec!["1: A ❌", "2: B ❌", "3: C ❌"]);
}
