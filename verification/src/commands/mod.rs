//! Subcommand handlers, and the dispatch from a parsed command to the work it stands for.

pub mod accounts;
pub mod email;
pub mod message_box;
pub mod slack;
pub mod system;

use vstd::prelude::*;

use crate::cli::{AccountsCommand, Command, EmailArgs, MessageBoxArgs, SlackArgs, SystemArgs};

verus! {

/// The work a parsed command stands for.
pub enum Task {
    Slack(SlackArgs),
    Email(EmailArgs),
    System(SystemArgs),
    MessageBox(MessageBoxArgs),
    Accounts(AccountsCommand),
    AgentReadme,
}

/// Dispatches a command to its handler: each subcommand to its own, and `login` to
/// `accounts add` with the same arguments.
pub fn run(cmd: Command) -> (r: Task)
    ensures
        match cmd {
            Command::Slack(a) => r == Task::Slack(a),
            Command::Email(a) => r == Task::Email(a),
            Command::System(a) => r == Task::System(a),
            Command::MessageBox(a) => r == Task::MessageBox(a),
            Command::Login(a) => r == Task::Accounts(AccountsCommand::Add(a)),
            Command::Accounts { command } => r == Task::Accounts(command),
            Command::AgentReadme => r == Task::AgentReadme,
        },
{
    match cmd {
        Command::Slack(a) => Task::Slack(a),
        Command::Email(a) => Task::Email(a),
        Command::System(a) => Task::System(a),
        Command::MessageBox(a) => Task::MessageBox(a),
        Command::Login(a) => Task::Accounts(AccountsCommand::Add(a)),
        Command::Accounts { command } => Task::Accounts(command),
        Command::AgentReadme => Task::AgentReadme,
    }
}

} // verus!
