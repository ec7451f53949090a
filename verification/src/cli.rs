//! The command line: which command the arguments name.
//!
//! The first argument is the name of the program and is not looked at. The
//! second names the command; a command is named by any argument that holds
//! its flag, and where it holds several, the first of help, add, drop,
//! complete, edit and list wins.

use crate::text::{chars_of, contains, occurs_in};
use vstd::prelude::*;

verus! {

/// What a command does.
#[derive(Clone, Copy, Debug, PartialEq, Eq, Structural)]
pub enum Verb {
    Help,
    Add,
    Drop,
    Complete,
    Edit,
    List,
}

/// Why the arguments name no command that can be run.
#[derive(Clone, Copy, Debug, PartialEq, Eq, Structural)]
pub enum UsageError {
    /// Nothing follows the name of the program.
    NoCommand,
    /// Nothing follows the flag of a command that needs a task or a
    /// position.
    MissingArgument(Verb),
    /// An edit with a position and no new description.
    MissingDescription,
    /// What should be a position is no number from 0 to 65535.
    InvalidPosition,
}

/// A command with what it needs. Positions count from one, as the user
/// gave them.
#[derive(Clone, Debug, PartialEq, Eq)]
pub enum Command {
    Help,
    Add { description: String },
    Drop { position: u16 },
    Complete { position: u16 },
    Edit { position: u16, description: String },
    List,
    /// The second argument holds no flag: there is nothing to do.
    Nothing,
}

/// A command as a mathematical value.
pub enum CommandView {
    Help,
    Add { description: Seq<char> },
    Drop { position: u16 },
    Complete { position: u16 },
    Edit { position: u16, description: Seq<char> },
    List,
    Nothing,
}

impl View for Command {
    type V = CommandView;

    open spec fn view(&self) -> CommandView {
        match *self {
            Command::Help => CommandView::Help,
            Command::Add { description } => CommandView::Add { description: description@ },
            Command::Drop { position } => CommandView::Drop { position },
            Command::Complete { position } => CommandView::Complete { position },
            Command::Edit { position, description } => CommandView::Edit {
                position,
                description: description@,
            },
            Command::List => CommandView::List,
            Command::Nothing => CommandView::Nothing,
        }
    }
}

/// The command that an argument names.
pub open spec fn verb_of(arg: Seq<char>) -> Option<Verb> {
    if occurs_in(arg, "-h"@) {
        Some(Verb::Help)
    } else if occurs_in(arg, "-add"@) {
        Some(Verb::Add)
    } else if occurs_in(arg, "-drop"@) {
        Some(Verb::Drop)
    } else if occurs_in(arg, "-complete"@) {
        Some(Verb::Complete)
    } else if occurs_in(arg, "-edit"@) {
        Some(Verb::Edit)
    } else if occurs_in(arg, "-list"@) {
        Some(Verb::List)
    } else {
        None
    }
}

/// The character is a decimal digit.
pub open spec fn is_digit(c: char) -> bool {
    '0' <= c <= '9'
}

/// The number that a decimal digit stands for.
pub open spec fn digit_value(c: char) -> nat {
    (c as u32 - '0' as u32) as nat
}

/// The number that a sequence of decimal digits stands for.
pub open spec fn digits_value(digits: Seq<char>) -> nat
    decreases digits.len(),
{
    if digits.len() == 0 {
        0
    } else {
        digits_value(digits.drop_last()) * 10 + digit_value(digits.last())
    }
}

/// Every character is a decimal digit.
pub open spec fn all_digits(digits: Seq<char>) -> bool {
    forall|i: int| 0 <= i < digits.len() ==> is_digit(#[trigger] digits[i])
}

/// The number up to 65535 that one or more decimal digits stand for.
pub open spec fn number_of(digits: Seq<char>) -> Option<u16> {
    if digits.len() > 0 && all_digits(digits) && digits_value(digits) <= u16::MAX {
        Some(digits_value(digits) as u16)
    } else {
        None
    }
}

/// The position that an argument gives: one or more decimal digits, after a
/// plus sign or not, that stand for a number up to 65535.
pub open spec fn position_of(arg: Seq<char>) -> Option<u16> {
    if arg.len() > 0 && arg[0] == '+' {
        number_of(arg.skip(1))
    } else {
        number_of(arg)
    }
}

/// The words in a row, with one space between each two.
pub open spec fn spaced(words: Seq<Seq<char>>) -> Seq<char>
    decreases words.len(),
{
    if words.len() == 0 {
        Seq::empty()
    } else if words.len() == 1 {
        words[0]
    } else {
        spaced(words.drop_last()) + " "@ + words.last()
    }
}

/// The command that the arguments name.
pub open spec fn command_of(args: Seq<Seq<char>>) -> Result<CommandView, UsageError> {
    if args.len() < 2 {
        Err(UsageError::NoCommand)
    } else {
        match verb_of(args[1]) {
            None => Ok(CommandView::Nothing),
            Some(Verb::Help) => Ok(CommandView::Help),
            Some(Verb::List) => Ok(CommandView::List),
            Some(Verb::Add) => if args.len() < 3 {
                Err(UsageError::MissingArgument(Verb::Add))
            } else {
                Ok(CommandView::Add { description: spaced(args.skip(2)) })
            },
            Some(Verb::Drop) => if args.len() < 3 {
                Err(UsageError::MissingArgument(Verb::Drop))
            } else {
                match position_of(args[2]) {
                    Some(position) => Ok(CommandView::Drop { position }),
                    None => Err(UsageError::InvalidPosition),
                }
            },
            Some(Verb::Complete) => if args.len() < 3 {
                Err(UsageError::MissingArgument(Verb::Complete))
            } else {
                match position_of(args[2]) {
                    Some(position) => Ok(CommandView::Complete { position }),
                    None => Err(UsageError::InvalidPosition),
                }
            },
            Some(Verb::Edit) => if args.len() < 3 {
                Err(UsageError::MissingArgument(Verb::Edit))
            } else if args.len() < 4 {
                Err(UsageError::MissingDescription)
            } else {
                match position_of(args[2]) {
                    Some(position) => Ok(CommandView::Edit { position, description: args[3] }),
                    None => Err(UsageError::InvalidPosition),
                }
            },
        }
    }
}

/// Digits that are added behind make the number no smaller.
proof fn lemma_digits_value_grows(digits: Seq<char>, k: int)
    requires
        0 <= k <= digits.len(),
    ensures
        digits_value(digits.take(k)) <= digits_value(digits),
    decreases digits.len() - k,
{
    if k == digits.len() {
        assert(digits.take(k) =~= digits);
    } else {
        lemma_digits_value_grows(digits.drop_last(), k);
        assert(digits.drop_last().take(k) =~= digits.take(k));
    }
}

/// Which command an argument names.
pub fn recognize(arg: &str) -> (verb: Option<Verb>)
    ensures
        verb == verb_of(arg@),
{
    if contains(arg, "-h") {
        Some(Verb::Help)
    } else if contains(arg, "-add") {
        Some(Verb::Add)
    } else if contains(arg, "-drop") {
        Some(Verb::Drop)
    } else if contains(arg, "-complete") {
        Some(Verb::Complete)
    } else if contains(arg, "-edit") {
        Some(Verb::Edit)
    } else if contains(arg, "-list") {
        Some(Verb::List)
    } else {
        None
    }
}

/// Reads a position.
pub fn parse_position(arg: &str) -> (position: Option<u16>)
    ensures
        position == position_of(arg@),
{
    let all = chars_of(arg);
    let n: usize = all.len();
    let start: usize = if n > 0 && all[0] == '+' {
        1
    } else {
        0
    };
    let ghost digits = all@.subrange(start as int, n as int);
    assert(digits =~= if start == 1 {
        arg@.skip(1)
    } else {
        arg@
    });
    if start == n {
        return None;
    }
    let mut value: u32 = 0;
    let mut k: usize = start;
    assert(digits.take(0) =~= Seq::<char>::empty());
    while k < n
        invariant
            start <= k <= n,
            n == all.len(),
            digits == all@.subrange(start as int, n as int),
            position_of(arg@) == number_of(digits),
            value <= u16::MAX,
            forall|i: int| 0 <= i < k - start ==> is_digit(#[trigger] digits[i]),
            value == digits_value(digits.take(k - start)),
        decreases n - k,
    {
        let c = all[k];
        assert(c == digits[k - start]);
        if c < '0' || c > '9' {
            assert(!is_digit(digits[k - start]));
            return None;
        }
        let d: u32 = c as u32 - '0' as u32;
        let next: u32 = value * 10 + d;
        proof {
            let longer = digits.take(k - start + 1);
            assert(longer.drop_last() =~= digits.take(k - start));
            assert(longer.last() == c);
            assert(next == digits_value(longer));
            lemma_digits_value_grows(digits, k - start + 1);
        }
        if next > 65535 {
            return None;
        }
        value = next;
        k += 1;
    }
    assert(digits.take(k - start) =~= digits);
    Some(value as u16)
}

/// The arguments from `from` on in a row, with one space between each two.
fn join_from(args: &Vec<String>, from: usize) -> (text: String)
    requires
        from <= args.len(),
    ensures
        text@ == spaced(args.deep_view().skip(from as int)),
{
    let ghost words = args.deep_view().skip(from as int);
    let mut text = String::new();
    let mut k: usize = from;
    assert(words.take(0) =~= Seq::<Seq<char>>::empty());
    while k < args.len()
        invariant
            from <= k <= args.len(),
            words == args.deep_view().skip(from as int),
            text@ == spaced(words.take(k - from)),
        decreases args.len() - k,
    {
        let ghost shorter = words.take(k - from);
        let ghost longer = words.take(k - from + 1);
        assert(longer.drop_last() =~= shorter);
        assert(longer.last() == args[k as int]@);
        if k > from {
            text.append(" ");
        } else {
            assert(text@ + args[k as int]@ =~= args[k as int]@);
        }
        text.append(args[k].as_str());
        k += 1;
    }
    assert(words.take(k - from) =~= words);
    text
}

/// Which command the arguments name, and with what.
pub fn parse_command(args: &Vec<String>) -> (r: Result<Command, UsageError>)
    ensures
        match command_of(args.deep_view()) {
            Ok(command) => r matches Ok(c) && c@ == command,
            Err(e) => r matches Err(f) && f == e,
        },
{
    if args.len() < 2 {
        return Err(UsageError::NoCommand);
    }
    let verb = match recognize(args[1].as_str()) {
        Some(verb) => verb,
        None => {
            return Ok(Command::Nothing);
        },
    };
    match verb {
        Verb::Help => Ok(Command::Help),
        Verb::List => Ok(Command::List),
        Verb::Add => {
            if args.len() < 3 {
                Err(UsageError::MissingArgument(Verb::Add))
            } else {
                Ok(Command::Add { description: join_from(args, 2) })
            }
        },
        Verb::Drop => {
            if args.len() < 3 {
                Err(UsageError::MissingArgument(Verb::Drop))
            } else {
                match parse_position(args[2].as_str()) {
                    Some(position) => Ok(Command::Drop { position }),
                    None => Err(UsageError::InvalidPosition),
                }
            }
        },
        Verb::Complete => {
            if args.len() < 3 {
                Err(UsageError::MissingArgument(Verb::Complete))
            } else {
                match parse_position(args[2].as_str()) {
                    Some(position) => Ok(Command::Complete { position }),
                    None => Err(UsageError::InvalidPosition),
                }
            }
        },
        Verb::Edit => {
            if args.len() < 3 {
                Err(UsageError::MissingArgument(Verb::Edit))
            } else if args.len() < 4 {
                Err(UsageError::MissingDescription)
            } else {
                match parse_position(args[2].as_str()) {
                    Some(position) => Ok(
                        Command::Edit { position, description: args[3].clone() },
                    ),
                    None => Err(UsageError::InvalidPosition),
                }
            }
        },
    }
}

} // verus!
