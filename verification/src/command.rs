//! Choosing what to do from the word given on the command line, and the texts shown
//! to the user.

use vstd::prelude::*;

use crate::chars::texts;
use crate::setting::Config;

verus! {

/// What the program can be asked to do.
#[derive(Clone, Copy, Debug, PartialEq, Eq, Structural)]
pub enum Command {
    /// Run the probe cycles and append to the log.
    Run,
    /// Show the averages of the log.
    Show,
    /// Empty the log.
    Clear,
    /// Draw the chart of the log.
    Metric,
    /// List the commands.
    Help,
    /// The word selects no command.
    Unknown,
}

/// The command that the word `name` selects under `config`: the first of run, show,
/// clear, chart, help whose configured word equals `name`.
pub open spec fn command_of(name: Seq<char>, config: &Config) -> Command {
    if name == config.command_run@ {
        Command::Run
    } else if name == config.command_show@ {
        Command::Show
    } else if name == config.command_cls@ {
        Command::Clear
    } else if name == config.command_metric@ {
        Command::Metric
    } else if name == config.command_help@ {
        Command::Help
    } else {
        Command::Unknown
    }
}

/// The two lines shown for a word that selects no command.
pub open spec fn unknown_lines(name: Seq<char>) -> Seq<Seq<char>> {
    seq![
        "Error: Command '"@ + name + "' not exist"@,
        "Run help command to see available commands"@,
    ]
}

/// One line of the command list: what the command does, and its word in angle brackets.
pub open spec fn help_entry(what: Seq<char>, word: Seq<char>) -> Seq<char> {
    what + seq!['<'] + word + seq!['>']
}

/// The lines of the command list.
pub open spec fn help_lines(config: &Config) -> Seq<Seq<char>> {
    seq![
        "-----------------------------------------------"@,
        "Commands action program"@,
        "-----------------------------------------------"@,
        help_entry("  Execute create report:"@, config.command_run@),
        help_entry("  Execute show report:"@, config.command_show@),
        help_entry("  Execute generate metric image:"@, config.command_metric@),
        help_entry("  Execute clear report:"@, config.command_cls@),
        "-----------------------------------------------"@,
    ]
}

/// Tests two strings for holding the same characters.
pub fn same_text(a: &str, b: &str) -> (r: bool)
    ensures
        r == (a@ == b@),
{
    let x = crate::chars::to_chars(a);
    let y = crate::chars::to_chars(b);
    if x.len() != y.len() {
        return false;
    }
    let r = crate::chars::has_at(&x, 0, &y);
    proof {
        if r {
            assert(x@ =~= y@);
        }
    }
    r
}

/// Chooses the command that the word `command` selects.
pub fn run_program(command: &str, config: &Config) -> (r: Command)
    ensures
        r == command_of(command@, config),
{
    if same_text(command, config.command_run.as_str()) {
        Command::Run
    } else if same_text(command, config.command_show.as_str()) {
        Command::Show
    } else if same_text(command, config.command_cls.as_str()) {
        Command::Clear
    } else if same_text(command, config.command_metric.as_str()) {
        Command::Metric
    } else if same_text(command, config.command_help.as_str()) {
        Command::Help
    } else {
        Command::Unknown
    }
}

/// Writes the two lines shown for a word that selects no command.
pub fn unknown_command(command: &str) -> (lines: Vec<String>)
    ensures
        texts(lines@) == unknown_lines(command@),
{
    let mut first = String::from_str("Error: Command '");
    first.append(command);
    first.append("' not exist");
    let mut lines: Vec<String> = Vec::new();
    lines.push(first);
    lines.push(String::from_str("Run help command to see available commands"));
    assert(texts(lines@) =~= unknown_lines(command@));
    lines
}

/// Writes one line of the command list.
pub fn write_entry(what: &str, word: &str) -> (line: String)
    ensures
        line@ == help_entry(what@, word@),
{
    proof {
        reveal_strlit("<");
        reveal_strlit(">");
    }
    let mut line = String::from_str(what);
    line.append("<");
    assert("<"@ =~= seq!['<']);
    line.append(word);
    line.append(">");
    assert(">"@ =~= seq!['>']);
    line
}

/// Writes the command list.
pub fn help(config: &Config) -> (lines: Vec<String>)
    ensures
        texts(lines@) == help_lines(config),
{
    let mut lines: Vec<String> = Vec::new();
    lines.push(String::from_str("-----------------------------------------------"));
    lines.push(String::from_str("Commands action program"));
    lines.push(String::from_str("-----------------------------------------------"));
    lines.push(write_entry("  Execute create report:", config.command_run.as_str()));
    lines.push(write_entry("  Execute show report:", config.command_show.as_str()));
    lines.push(write_entry("  Execute generate metric image:", config.command_metric.as_str()));
    lines.push(write_entry("  Execute clear report:", config.command_cls.as_str()));
    lines.push(String::from_str("-----------------------------------------------"));
    assert(texts(lines@) =~= help_lines(config));
    lines
}

} // verus!
