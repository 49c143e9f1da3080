//! The command line: global flags, subcommands and their arguments.

use vstd::prelude::*;

verus! {

/// The parsed command line.
pub struct Cli {
    /// Output JSON instead of YAML.
    pub json: bool,
    pub command: Command,
}

/// The subcommands.
pub enum Command {
    /// Send a Slack message using a webhook URL or config profile.
    Slack(SlackArgs),
    /// Send an email through the Gmail API or a config profile.
    Email(EmailArgs),
    /// Show a native desktop notification.
    System(SystemArgs),
    /// Show a native message box dialog.
    MessageBox(MessageBoxArgs),
    /// Add an account (same as `accounts add`).
    Login(Box<AddAccountArgs>),
    /// Manage notification accounts and keystore credentials.
    Accounts { command: AccountsCommand },
    /// Print the agent operating manual.
    AgentReadme,
}

/// Arguments of `notify slack`.
pub struct SlackArgs {
    pub profile: Option<String>,
    pub account: Option<String>,
    pub webhook_url: Option<String>,
    pub message: Option<String>,
    pub json_payload: Option<String>,
    pub json_file: Option<String>,
    pub channel: Option<String>,
    pub username: Option<String>,
    pub icon_emoji: Option<String>,
}

/// Arguments of `notify email`.
pub struct EmailArgs {
    pub profile: Option<String>,
    pub account: Option<String>,
    pub to: Vec<String>,
    pub cc: Vec<String>,
    pub bcc: Vec<String>,
    pub subject: Option<String>,
    pub body: Option<String>,
    pub file: Option<String>,
    pub attach: Vec<String>,
    pub draft: bool,
    pub provider: Option<String>,
    pub endpoint: Option<String>,
    pub token: Option<String>,
}

/// Arguments of `notify system`.
pub struct SystemArgs {
    pub title: String,
    pub description: String,
}

/// Arguments of `notify message-box`.
pub struct MessageBoxArgs {
    pub title: String,
    pub message: String,
}

/// The `accounts` subcommands.
pub enum AccountsCommand {
    List { check: bool },
    Add(Box<AddAccountArgs>),
    Test { name: String },
    Remove { name: String, yes: bool },
}

/// Arguments of `notify accounts add` and `notify login`.
pub struct AddAccountArgs {
    pub name: String,
    pub account_type: String,
    pub webhook_url: Option<String>,
    pub api_key: Option<String>,
    pub api_key_stdin: bool,
    pub channel: Option<String>,
    pub username: Option<String>,
    pub icon_emoji: Option<String>,
    pub from: Option<String>,
    pub default_to: Option<String>,
    pub provider: Option<String>,
    pub endpoint: Option<String>,
    pub force: bool,
}

} // verus!
