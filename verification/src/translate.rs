use vstd::prelude::*;

verus! {

/// The display languages of the surrounding shell.
#[derive(Debug, Clone, Copy, PartialEq, Eq, Structural)]
pub enum Lang {
    En,
    Fr,
    It,
}

/// The message tags of the derivation presenter and of the shell's help;
/// the surrounding shell renders each tag in the chosen language.  The core
/// itself never produces user-facing text.
#[derive(Debug, Clone, Copy, PartialEq, Eq, Structural)]
pub enum Translate {
    WeKnow,
    WeAlreadyKnow,
    NoRule,
    Rule,
    And,
    So,
    Help,
    HelpLanguage,
    HelpTrace,
    HelpReset,
    HelpQuit,
    HelpVariables,
    HelpRules,
    HelpClear,
    HelpFile,
    HelpRun,
    HelpRemoveAll,
    HelpRemoveVar,
    HelpRemoveRule,
    HelpRemoveRequest,
    HelpRemoveSet,
    HelpSet,
    HelpRequest,
    HelpDef,
    HelpIf,
    UnknownCommand,
}

} // verus!
