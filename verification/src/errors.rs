//! What the players are told when a command cannot be carried out.

use vstd::prelude::*;

verus! {

/// The number of a module on a bomb.
pub type ModuleNumber = u8;

/// The reasons for which a command of a player fails.
pub enum ErrorMessage {
    NoBomb,
    BombAlreadyRunning { guild: bool },
    NoLastView,
    TooManyModules,
    TrailingParameters(String),
    NoSuchGlobalCommand { command: String, input: String, last: Option<ModuleNumber> },
    NoSuchModuleCommand { command: String, module: &'static str, hint: String },
    MissingModuleList,
    MissingModuleCount { specifier: String },
    UnparseableModuleCount { found: String },
    NeedCommaAfterModuleCount { found: String, allow_each: bool },
    /// Holds the module set as it was written.
    EmptyModuleSet(String),
    UnknownModuleName(String),
    ModuleGroupStartsWithOp { input: String },
    ModuleGroupEndsWithOp { input: String },
    ModuleGroupTwoOpsInARow { input: String, index: usize },
    RepeatedRuleSeedParameter,
    RepeatedTimerParameter,
    RuleSeedParameterTooLarge,
    RuleSeedParameterUnparseable(String),
    TimerParameterUnparseable(String),
    UnknownNamedParameter(String),
    ModuleNumberZero,
    ModuleNumberTooLarge { num: String, max: ModuleNumber },
    ModuleAlreadySolved(ModuleNumber),
    WireNumberZero,
    WireNumberTooLarge { max: u8 },
    WireNumberUnparseable(String),
    CutParameterMissing,
}

impl ErrorMessage {
    /// The heading under which the message is shown.
    pub open spec fn title_text(self) -> Seq<char> {
        match self {
            ErrorMessage::NoBomb => "No bomb in this channel"@,
            ErrorMessage::BombAlreadyRunning { .. } => "Bomb already running"@,
            ErrorMessage::NoLastView => "You didn't view any modules"@,
            ErrorMessage::TooManyModules => "Count too large"@,
            ErrorMessage::TrailingParameters(_) => "Trailing parameters"@,
            ErrorMessage::NoSuchGlobalCommand { .. } => "No such command"@,
            ErrorMessage::NoSuchModuleCommand { .. } => "No such command"@,
            ErrorMessage::MissingModuleList => "Missing module list"@,
            ErrorMessage::MissingModuleCount { .. } => "Missing count"@,
            ErrorMessage::UnparseableModuleCount { .. } => "Syntax error"@,
            ErrorMessage::NeedCommaAfterModuleCount { .. } => "Syntax error"@,
            ErrorMessage::EmptyModuleSet(_) => "Empty module set"@,
            ErrorMessage::UnknownModuleName(_) => "Unknown module name"@,
            ErrorMessage::ModuleGroupStartsWithOp { .. } => "Syntax error"@,
            ErrorMessage::ModuleGroupEndsWithOp { .. } => "Syntax error"@,
            ErrorMessage::ModuleGroupTwoOpsInARow { .. } => "Syntax error"@,
            ErrorMessage::RepeatedRuleSeedParameter => "Repeated parameter"@,
            ErrorMessage::RepeatedTimerParameter => "Repeated parameter"@,
            ErrorMessage::RuleSeedParameterTooLarge => "Rule seed too large"@,
            ErrorMessage::RuleSeedParameterUnparseable(_) => "Invalid rule seed"@,
            ErrorMessage::TimerParameterUnparseable(_) => "Invalid timer parameter"@,
            ErrorMessage::UnknownNamedParameter(_) => "Unknown named parameter"@,
            ErrorMessage::ModuleNumberZero => "Module numbers start at 1"@,
            ErrorMessage::ModuleNumberTooLarge { .. } => "Module number too large"@,
            ErrorMessage::ModuleAlreadySolved(_) => "Module already solved"@,
            ErrorMessage::WireNumberZero => "Invalid wire number"@,
            ErrorMessage::WireNumberTooLarge { .. } => "Invalid wire number"@,
            ErrorMessage::WireNumberUnparseable(_) => "Invalid wire number"@,
            ErrorMessage::CutParameterMissing => "Missing parameter"@,
        }
    }

    /// The heading under which the message is shown.
    pub fn title(&self) -> (text: &'static str)
        ensures
            text@ == self.title_text(),
    {
        match self {
            ErrorMessage::NoBomb => "No bomb in this channel",
            ErrorMessage::BombAlreadyRunning { .. } => "Bomb already running",
            ErrorMessage::NoLastView => "You didn't view any modules",
            ErrorMessage::TooManyModules => "Count too large",
            ErrorMessage::TrailingParameters(_) => "Trailing parameters",
            ErrorMessage::NoSuchGlobalCommand { .. } | ErrorMessage::NoSuchModuleCommand {
                ..
            } => "No such command",
            ErrorMessage::MissingModuleList => "Missing module list",
            ErrorMessage::MissingModuleCount { .. } => "Missing count",
            ErrorMessage::UnparseableModuleCount { .. }
            | ErrorMessage::NeedCommaAfterModuleCount { .. } => "Syntax error",
            ErrorMessage::EmptyModuleSet(_) => "Empty module set",
            ErrorMessage::UnknownModuleName(_) => "Unknown module name",
            ErrorMessage::ModuleGroupStartsWithOp { .. }
            | ErrorMessage::ModuleGroupEndsWithOp { .. }
            | ErrorMessage::ModuleGroupTwoOpsInARow { .. } => "Syntax error",
            ErrorMessage::RepeatedRuleSeedParameter | ErrorMessage::RepeatedTimerParameter => {
                "Repeated parameter"
            },
            ErrorMessage::RuleSeedParameterTooLarge => "Rule seed too large",
            ErrorMessage::RuleSeedParameterUnparseable(_) => "Invalid rule seed",
            ErrorMessage::TimerParameterUnparseable(_) => "Invalid timer parameter",
            ErrorMessage::UnknownNamedParameter(_) => "Unknown named parameter",
            ErrorMessage::ModuleNumberZero => "Module numbers start at 1",
            ErrorMessage::ModuleNumberTooLarge { .. } => "Module number too large",
            ErrorMessage::ModuleAlreadySolved(_) => "Module already solved",
            ErrorMessage::WireNumberZero
            | ErrorMessage::WireNumberTooLarge { .. }
            | ErrorMessage::WireNumberUnparseable(_) => "Invalid wire number",
            ErrorMessage::CutParameterMissing => "Missing parameter",
        }
    }
}

/// The message for a command that needs a bomb where none is running.
pub fn no_bomb() -> (message: ErrorMessage)
    ensures
        message == ErrorMessage::NoBomb,
{
    ErrorMessage::NoBomb
}

} // verus!
