use vstd::prelude::*;

use crate::text::{parse_u64, parsed_unsigned, text_of};

verus! {

/// A training limit as given on the command line: a number of mazes, or
/// the text of a number of hours, which the caller reads as a real number.
#[derive(Debug)]
pub enum LimitArgument {
    Mazes(u64),
    Hours(String),
}

/// A command of the Theseus program.
#[derive(Debug)]
pub enum Command {
    TrainNew(LimitArgument),
    TrainResume(LimitArgument),
    TrainingStats,
    Solve,
    Help,
}

/// The message for a limit that is not one option and its value.
pub open spec fn limit_usage_text() -> Seq<char> {
    "Supply exactly one training limit:\n--mazes <count>\n--hours <hours>"@
}

/// What reading the arguments after a training command gives.
pub open spec fn limit_outcome(arguments: Seq<String>) -> Result<LimitArgument, Seq<char>> {
    if arguments.len() != 2 {
        Err(limit_usage_text())
    } else if arguments[0]@ == "--mazes"@ {
        match parsed_unsigned(arguments[1]@, u64::MAX as nat) {
            None => Err("Maze count must be a whole number."@),
            Some(v) => if v == 0 {
                Err("Maze count must be greater than zero."@)
            } else {
                Ok(LimitArgument::Mazes(v as u64))
            },
        }
    } else if arguments[0]@ == "--hours"@ {
        Ok(LimitArgument::Hours(arguments[1]))
    } else {
        Err("Unknown training limit \""@ + arguments[0]@ + "\".\nUse --mazes <count> or --hours <hours>."@)
    }
}

/// `result` is what `outcome` describes, an error by its message.
pub open spec fn limit_result_is(result: Result<LimitArgument, String>, outcome: Result<LimitArgument, Seq<char>>) -> bool {
    match (result, outcome) {
        (Ok(LimitArgument::Mazes(a)), Ok(LimitArgument::Mazes(b))) => a == b,
        (Ok(LimitArgument::Hours(a)), Ok(LimitArgument::Hours(b))) => a@ == b@,
        (Err(message), Err(text)) => message@ == text,
        _ => false,
    }
}

fn same_text(a: &String, b: &str) -> (same: bool)
    ensures
        same == (a@ == b@),
{
    let b = text_of(b);
    *a == b
}

/// Reads the training limit that follows a training command: `--mazes`
/// with a whole number above zero, or `--hours` with a number of hours.
pub fn parse_training_limit(arguments: &[String]) -> (result: Result<LimitArgument, String>)
    ensures
        limit_result_is(result, limit_outcome(arguments@)),
{
    if arguments.len() != 2 {
        return Err(text_of("Supply exactly one training limit:\n--mazes <count>\n--hours <hours>"));
    }
    if same_text(&arguments[0], "--mazes") {
        let mazes = match parse_u64(arguments[1].as_str()) {
            Some(mazes) => mazes,
            None => {
                return Err(text_of("Maze count must be a whole number."));
            },
        };
        if mazes == 0 {
            return Err(text_of("Maze count must be greater than zero."));
        }
        Ok(LimitArgument::Mazes(mazes))
    } else if same_text(&arguments[0], "--hours") {
        Ok(LimitArgument::Hours(arguments[1].clone()))
    } else {
        let mut message = text_of("Unknown training limit \"");
        message.append(arguments[0].as_str());
        message.append("\".\nUse --mazes <count> or --hours <hours>.");
        proof {
            assert(message@ =~= "Unknown training limit \""@ + arguments@[0]@ + "\".\nUse --mazes <count> or --hours <hours>."@);
        }
        Err(message)
    }
}

/// The kind of command a first argument names, if any.
pub open spec fn command_kind(name: Seq<char>) -> int {
    if name == "train-new"@ {
        1
    } else if name == "train-resume"@ {
        2
    } else if name == "training-stats"@ {
        3
    } else if name == "solve"@ {
        4
    } else if name == "help"@ || name == "--help"@ || name == "-h"@ {
        5
    } else {
        0
    }
}

/// Reads a command line (the program's name left out): its first argument
/// names the command, and a training command is followed by its limit.
pub fn parse_command(arguments: &[String]) -> (result: Result<Command, String>)
    requires
        arguments@.len() >= 1,
    ensures
        ({
            let kind = command_kind(arguments@[0]@);
            let rest = arguments@.subrange(1, arguments@.len() as int);
            &&& kind == 1 ==> match limit_outcome(rest) {
                Ok(_) => (result matches Ok(Command::TrainNew(limit)) && limit_result_is(Ok(limit), limit_outcome(rest))),
                Err(text) => (result matches Err(message) && message@ == text),
            }
            &&& kind == 2 ==> match limit_outcome(rest) {
                Ok(_) => (result matches Ok(Command::TrainResume(limit)) && limit_result_is(Ok(limit), limit_outcome(rest))),
                Err(text) => (result matches Err(message) && message@ == text),
            }
            &&& kind == 3 ==> (result matches Ok(Command::TrainingStats))
            &&& kind == 4 ==> (result matches Ok(Command::Solve))
            &&& kind == 5 ==> (result matches Ok(Command::Help))
            &&& kind == 0 ==> (result matches Err(message) && message@ == "Unknown command \""@ + arguments@[0]@
                + "\".\nRun `cargo run -p theseus -- help`."@)
        }),
{
    let name = &arguments[0];
    let mut rest_arguments: Vec<String> = Vec::new();
    let mut i: usize = 1;
    while i < arguments.len()
        invariant
            1 <= i <= arguments@.len(),
            rest_arguments@ == arguments@.subrange(1, i as int),
        decreases arguments@.len() - i,
    {
        rest_arguments.push(arguments[i].clone());
        proof {
            assert(rest_arguments@ =~= arguments@.subrange(1, i + 1));
        }
        i = i + 1;
    }
    let rest = rest_arguments.as_slice();
    if same_text(name, "train-new") {
        match parse_training_limit(rest) {
            Ok(limit) => Ok(Command::TrainNew(limit)),
            Err(message) => Err(message),
        }
    } else if same_text(name, "train-resume") {
        match parse_training_limit(rest) {
            Ok(limit) => Ok(Command::TrainResume(limit)),
            Err(message) => Err(message),
        }
    } else if same_text(name, "training-stats") {
        Ok(Command::TrainingStats)
    } else if same_text(name, "solve") {
        Ok(Command::Solve)
    } else if same_text(name, "help") || same_text(name, "--help") || same_text(name, "-h") {
        Ok(Command::Help)
    } else {
        let mut message = text_of("Unknown command \"");
        message.append(name.as_str());
        message.append("\".\nRun `cargo run -p theseus -- help`.");
        proof {
            assert(message@ =~= "Unknown command \""@ + arguments@[0]@ + "\".\nRun `cargo run -p theseus -- help`."@);
        }
        Err(message)
    }
}

} // verus!
