//! What the program is asked to do.

use vstd::prelude::*;

use crate::cli;
use crate::cli::CliCommand;
use crate::error::CommandError;
use crate::text;
use crate::updater;
use crate::updater::UpdateRun;

verus! {

/// What the program is asked to do.
#[derive(Debug, PartialEq, Eq)]
pub enum Task {
    /// To update itself.
    Update(UpdateRun),
    /// To do something else.
    Command(CliCommand),
}

/// Whether arguments ask for an update.
pub open spec fn asks_for_update(args: Seq<Seq<char>>) -> bool {
    args.len() > 0 && args[0] == "update"@
}

/// What the arguments of the program ask it to do.
pub fn parse_task(args: &[String]) -> (r: Result<Task, CommandError>)
    ensures
        asks_for_update(cli::words(args@)) ==> match updater::options_of(
            cli::words(args@).skip(1),
        ) {
            Some((check, version)) => r matches Ok(Task::Update(run)) && run.options.check == check
                && run.options.version.deep_view() == version && run.usage.deep_view() == (
            if updater::asks_for_usage(cli::words(args@).skip(1)) {
                Some(updater::usage_text())
            } else {
                None::<Seq<char>>
            }),
            None => r matches Err(e) && e.is(
                "usage: chatgpt-bridge update [--check | --version VERSION]"@,
            ),
        },
        !asks_for_update(cli::words(args@)) ==> match cli::command_of(cli::words(args@)) {
            Ok(command) => r matches Ok(Task::Command(c)) && c@ == command,
            Err(message) => r matches Err(e) && e.is(message),
        },
{
    let ghost all = cli::words(args@);
    if args.len() > 0 {
        assert(all[0] == args@[0]@);
        if text::text_eq(args[0].as_str(), "update") {
            let rest = vstd::slice::slice_subrange(args, 1, args.len());
            assert(cli::words(rest@) =~= all.skip(1));
            return match updater::run_args(rest) {
                Ok(run) => Ok(Task::Update(run)),
                Err(e) => Err(e),
            };
        }
    }
    match cli::parse_args(args) {
        Ok(command) => Ok(Task::Command(command)),
        Err(e) => Err(e),
    }
}

/// Arguments ask for an update by their first word, and by nothing else.
pub proof fn law_the_first_word_asks_for_an_update(word: Seq<char>, rest: Seq<Seq<char>>)
    ensures
        asks_for_update(seq![word] + rest) <==> word == "update"@,
        !asks_for_update(seq![]),
{
    assert((seq![word] + rest)[0] == word);
}

} // verus!
