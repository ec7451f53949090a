use todo_store::cli::{parse_command, parse_position, recognize, Command, UsageError, Verb};

fn args(words: &[&str]) -> Vec<String> {
    words.iter().map(|w| w.to_string()).collect()
}

#[test]
fn no_command_without_arguments() {
    assert_eq!(parse_command(&args(&[])), Err(UsageError::NoCommand));
    assert_eq!(parse_command(&args(&["todo"])), Err(UsageError::NoCommand));
}

#[test]
fn help_is_named_by_either_flag() {
    assert_eq!(parse_command(&args(&["todo", "-h"])), Ok(Command::Help));
    assert_eq!(parse_command(&args(&["todo", "-help"])), Ok(Command::Help));
    assert_eq!(parse_command(&args(&["todo", "-h", "more", "words"])), Ok(Command::Help));
}

#[test]
fn add_joins_the_words_with_spaces() {
    assert_eq!(
        parse_command(&args(&["todo", "-add", "buy", "milk", "today"])),
        Ok(Command::Add { description: "buy milk today".to_string() })
    );
    assert_eq!(
        parse_command(&args(&["todo", "-add", "one"])),
        Ok(Command::Add { description: "one".to_string() })
    );
    assert_eq!(
        parse_command(&args(&["todo", "-add", "", "x", ""])),
        Ok(Command::Add { description: " x ".to_string() })
    );
}

#[test]
fn add_needs_a_task() {
    assert_eq!(
        parse_command(&args(&["todo", "-add"])),
        Err(UsageError::MissingArgument(Verb::Add))
    );
}

#[test]
fn drop_takes_a_position() {
    assert_eq!(parse_command(&args(&["todo", "-drop", "2"])), Ok(Command::Drop { position: 2 }));
    assert_eq!(parse_command(&args(&["todo", "-drop", "0"])), Ok(Command::Drop { position: 0 }));
    assert_eq!(
        parse_command(&args(&["todo", "-drop", "2", "ignored"])),
        Ok(Command::Drop { position: 2 })
    );
}

#[test]
fn drop_needs_a_position() {
    assert_eq!(
        parse_command(&args(&["todo", "-drop"])),
        Err(UsageError::MissingArgument(Verb::Drop))
    );
    assert_eq!(parse_command(&args(&["todo", "-drop", "two"])), Err(UsageError::InvalidPosition));
    assert_eq!(parse_command(&args(&["todo", "-drop", "65536"])), Err(UsageError::InvalidPosition));
}

#[test]
fn complete_takes_a_position() {
    assert_eq!(
        parse_command(&args(&["todo", "-complete", "17"])),
        Ok(Command::Complete { position: 17 })
    );
    assert_eq!(
        parse_command(&args(&["todo", "-complete"])),
        Err(UsageError::MissingArgument(Verb::Complete))
    );
    assert_eq!(
        parse_command(&args(&["todo", "-complete", "-1"])),
        Err(UsageError::InvalidPosition)
    );
}

#[test]
fn edit_takes_a_position_and_one_word() {
    assert_eq!(
        parse_command(&args(&["todo", "-edit", "3", "new text", "ignored"])),
        Ok(Command::Edit { position: 3, description: "new text".to_string() })
    );
}

#[test]
fn edit_needs_both() {
    assert_eq!(
        parse_command(&args(&["todo", "-edit"])),
        Err(UsageError::MissingArgument(Verb::Edit))
    );
    assert_eq!(parse_command(&args(&["todo", "-edit", "3"])), Err(UsageError::MissingDescription));
    assert_eq!(
        parse_command(&args(&["todo", "-edit", "x"])),
        Err(UsageError::MissingDescription)
    );
    assert_eq!(
        parse_command(&args(&["todo", "-edit", "x", "text"])),
        Err(UsageError::InvalidPosition)
    );
}

#[test]
fn list_takes_nothing() {
    assert_eq!(parse_command(&args(&["todo", "-list"])), Ok(Command::List));
    assert_eq!(parse_command(&args(&["todo", "-list", "extra"])), Ok(Command::List));
}

#[test]
fn an_argument_without_flag_does_nothing() {
    assert_eq!(parse_command(&args(&["todo", "list"])), Ok(Command::Nothing));
    assert_eq!(parse_command(&args(&["todo", ""])), Ok(Command::Nothing));
    assert_eq!(parse_command(&args(&["todo", "-x", "1"])), Ok(Command::Nothing));
}

#[test]
fn a_flag_is_found_anywhere_in_the_argument() {
    assert_eq!(recognize("-list"), Some(Verb::List));
    assert_eq!(recognize("--list"), Some(Verb::List));
    assert_eq!(recognize("x-dropx"), Some(Verb::Drop));
    assert_eq!(recognize("-adds"), Some(Verb::Add));
    assert_eq!(recognize("-complete"), Some(Verb::Complete));
    assert_eq!(recognize("-edit"), Some(Verb::Edit));
    assert_eq!(recognize("-"), None);
    assert_eq!(recognize("add"), None);
}

#[test]
fn the_first_flag_in_rank_wins() {
    assert_eq!(recognize("-list-h"), Some(Verb::Help));
    assert_eq!(recognize("-list-add"), Some(Verb::Add));
    assert_eq!(recognize("-list-edit-drop"), Some(Verb::Drop));
    assert_eq!(recognize("-edit-complete"), Some(Verb::Complete));
    assert_eq!(recognize("-list-edit"), Some(Verb::Edit));
}

#[test]
fn positions_are_decimal_numbers() {
    assert_eq!(parse_position("0"), Some(0));
    assert_eq!(parse_position("1"), Some(1));
    assert_eq!(parse_position("42"), Some(42));
    assert_eq!(parse_position("007"), Some(7));
    assert_eq!(parse_position("+5"), Some(5));
    assert_eq!(parse_position("65535"), Some(65535));
    assert_eq!(parse_position("0000065535"), Some(65535));
}

#[test]
fn what_is_no_position() {
    for text in ["", "+", "-", "-1", "-0", "65536", "99999999999999999999", "1 ", " 1", "1a", "a1", "++1", "1+", "٣", "1.0", "0x10"] {
        assert_eq!(parse_position(text), None, "{:?}", text);
    }
}

#[test]
fn positions_agree_with_the_standard_parsing() {
    for n in 0..=70000u32 {
        let text = n.to_string();
        assert_eq!(parse_position(&text), text.parse::<u16>().ok(), "{:?}", text);
    }
    for text in ["", "+", "+0", "+65535", "+65536", "-5", "00", "1_0", "１"] {
        assert_eq!(parse_position(text), text.parse::<u16>().ok(), "{:?}", text);
    }
}
