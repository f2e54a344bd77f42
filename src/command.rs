//! The command grammar of the interactive client: one line of user input
//! becomes one navigation intent.

use vstd::prelude::*;
use crate::text::{
    collect_string, find, find_char, is_digit, same_chars, sub_chars, to_chars, trim, trimmed,
};

verus! {

/// What a line of user input asks for.
#[derive(Debug, PartialEq, Eq)]
pub enum Commands {
    Up,
    Back,
    GoURL(String),
    GoIndex(String),
    DisplayBookmarks,
    AddBookmark(String),
    RemoveBookmark(String),
    GoBookmarkIndex(String),
    Help,
    Quit,
}

/// A command as mathematical values.
pub enum CommandView {
    Up,
    Back,
    GoURL(Seq<char>),
    GoIndex(Seq<char>),
    DisplayBookmarks,
    AddBookmark(Seq<char>),
    RemoveBookmark(Seq<char>),
    GoBookmarkIndex(Seq<char>),
    Help,
    Quit,
}

impl View for Commands {
    type V = CommandView;

    open spec fn view(&self) -> CommandView {
        match self {
            Commands::Up => CommandView::Up,
            Commands::Back => CommandView::Back,
            Commands::GoURL(s) => CommandView::GoURL(s@),
            Commands::GoIndex(s) => CommandView::GoIndex(s@),
            Commands::DisplayBookmarks => CommandView::DisplayBookmarks,
            Commands::AddBookmark(s) => CommandView::AddBookmark(s@),
            Commands::RemoveBookmark(s) => CommandView::RemoveBookmark(s@),
            Commands::GoBookmarkIndex(s) => CommandView::GoBookmarkIndex(s@),
            Commands::Help => CommandView::Help,
            Commands::Quit => CommandView::Quit,
        }
    }
}

pub open spec fn command_result(r: Result<Commands, String>) -> Result<CommandView, Seq<char>> {
    match r {
        Ok(c) => Ok(c@),
        Err(e) => Err(e@),
    }
}

/// The first word of `s`: everything before its first space.
pub open spec fn first_word(s: Seq<char>) -> Seq<char> {
    s.subrange(0, find(s, ' '))
}

/// What follows the first word of `s`, trimmed; empty when `s` has no space.
pub open spec fn after_first_word(s: Seq<char>) -> Seq<char> {
    if find(s, ' ') < s.len() {
        trimmed(s.subrange(find(s, ' '), s.len() as int))
    } else {
        Seq::empty()
    }
}

/// Whether `s` starts with an ASCII digit; other numeric characters do not count.
pub open spec fn starts_with_digit(s: Seq<char>) -> bool {
    s.len() > 0 && is_digit(s[0])
}

/// The bookmark subcommand that `args` (not empty, not a number) asks for;
/// `add` and `rm` need an argument after them.
pub open spec fn bookmark_command(args: Seq<char>) -> Result<CommandView, Seq<char>> {
    let sub = first_word(args);
    let rest = after_first_word(args);
    if sub == "add"@ {
        if rest.len() == 0 {
            Err("No URL to bookmark"@)
        } else {
            Ok(CommandView::AddBookmark(rest))
        }
    } else if sub == "rm"@ {
        if rest.len() == 0 {
            Err("No bookmark index to remove"@)
        } else {
            Ok(CommandView::RemoveBookmark(rest))
        }
    } else {
        Err("Bookmark subcommand not found"@)
    }
}

/// The command that a line of input asks for. The line is trimmed; its first
/// word names the command and the rest, trimmed, is the argument. A word that
/// starts with an ASCII digit (`0` to `9`; no other numeric character counts)
/// follows a link; an unknown word asks for help.
pub open spec fn command_of(input: Seq<char>) -> Result<CommandView, Seq<char>> {
    let line = trimmed(input);
    let word = first_word(line);
    let args = after_first_word(line);
    if word == "up"@ {
        Ok(CommandView::Up)
    } else if word == "back"@ {
        Ok(CommandView::Back)
    } else if word == "quit"@ {
        Ok(CommandView::Quit)
    } else if word == "go"@ {
        if args.len() == 0 {
            Err("No URL to go to"@)
        } else {
            Ok(CommandView::GoURL(args))
        }
    } else if word == "bk"@ || word == "bookmarks"@ {
        if args.len() == 0 {
            Ok(CommandView::DisplayBookmarks)
        } else if starts_with_digit(args) {
            Ok(CommandView::GoBookmarkIndex(args))
        } else {
            bookmark_command(args)
        }
    } else if starts_with_digit(word) {
        Ok(CommandView::GoIndex(word))
    } else {
        Ok(CommandView::Help)
    }
}

fn all_string(v: &Vec<char>) -> (r: String)
    ensures
        r@ == v@,
{
    let r = collect_string(v, 0, v.len());
    assert(r@ =~= v@);
    r
}

/// Splits `s` into its first word and what follows it, trimmed; the second
/// part is `None` when `s` has no space.
fn split_word(s: &Vec<char>) -> (r: (Vec<char>, Option<Vec<char>>))
    ensures
        r.0@ == first_word(s@),
        match r.1 {
            Some(rest) => find(s@, ' ') < s@.len() && rest@ == after_first_word(s@),
            None => find(s@, ' ') == s@.len(),
        },
{
    let sp = find_char(s, ' ', 0);
    let word = sub_chars(s, 0, sp);
    if sp < s.len() {
        let tail = sub_chars(s, sp, s.len());
        (word, Some(trim(&tail)))
    } else {
        (word, None)
    }
}

fn starts_with_digit_exec(s: &Vec<char>) -> (r: bool)
    ensures
        r == starts_with_digit(s@),
{
    s.len() > 0 && '0' <= s[0] && s[0] <= '9'
}

impl Commands {
    /// The command that a line of input asks for.
    pub fn parse(input: String) -> (r: Result<Commands, String>)
        ensures
            command_result(r) == command_of(input@),
    {
        let chars = to_chars(input.as_str());
        let line = trim(&chars);
        let (word, rest) = split_word(&line);
        let args = match rest {
            Some(a) => a,
            None => Vec::new(),
        };
        assert(args@ =~= after_first_word(line@));
        if same_chars(&word, &to_chars("up")) {
            return Ok(Commands::Up);
        }
        if same_chars(&word, &to_chars("back")) {
            return Ok(Commands::Back);
        }
        if same_chars(&word, &to_chars("quit")) {
            return Ok(Commands::Quit);
        }
        if same_chars(&word, &to_chars("go")) {
            if args.len() == 0 {
                return Err(String::from_str("No URL to go to"));
            }
            return Ok(Commands::GoURL(all_string(&args)));
        }
        if same_chars(&word, &to_chars("bk")) || same_chars(&word, &to_chars("bookmarks")) {
            if args.len() == 0 {
                return Ok(Commands::DisplayBookmarks);
            }
            if starts_with_digit_exec(&args) {
                return Ok(Commands::GoBookmarkIndex(all_string(&args)));
            }
            let (sub, tail) = split_word(&args);
            let argument = match tail {
                Some(t) => t,
                None => Vec::new(),
            };
            assert(argument@ =~= after_first_word(args@));
            if same_chars(&sub, &to_chars("add")) {
                if argument.len() == 0 {
                    return Err(String::from_str("No URL to bookmark"));
                }
                return Ok(Commands::AddBookmark(all_string(&argument)));
            }
            if same_chars(&sub, &to_chars("rm")) {
                if argument.len() == 0 {
                    return Err(String::from_str("No bookmark index to remove"));
                }
                return Ok(Commands::RemoveBookmark(all_string(&argument)));
            }
            return Err(String::from_str("Bookmark subcommand not found"));
        }
        if starts_with_digit_exec(&word) {
            return Ok(Commands::GoIndex(all_string(&word)));
        }
        Ok(Commands::Help)
    }
}

} // verus!
