//! What an insertion decides to do, and how it can fail.
//!
//! An insertion is planned before anything is written: one command says what
//! happens to the history of the link, another what happens to the index of
//! values. Only a plan without an error is carried out.

use vstd::prelude::*;

verus! {

/// What an insertion does to the history of its link.
#[derive(Debug, PartialEq, Eq)]
pub enum LinkInsertionCommand<C, L, V> {
    /// The link has no history yet: start one with a record that carries
    /// the value.
    NewLink { context: C, link: L, value: V },
    /// The context is later than the latest of the link: append a record
    /// that carries the value.
    Update { context: C, link: L, value: V },
    /// The context is the latest of the link, where the link is associated
    /// with nothing: the record there gets the value.
    Overwrite { context: C, link: L, value: V },
    /// The link and the value are indexed to the same history already.
    NoChange,
}

/// What an insertion does to the index of values.
#[derive(Debug, PartialEq, Eq)]
pub enum ValueInsertionCommand<C, V> {
    /// Index the new value to the history of the link.
    AddValue { new_value: V },
    /// The history that `existing_value` is indexed to belongs to another
    /// link: retire it with a record without a value at `new_context`, take
    /// `existing_value` out of the index, and index `new_value` to the
    /// history of the link.
    RemoveExistingValueAddNewValue { existing_value: V, new_context: C, new_value: V },
}

/// Why an insertion was rejected. A rejected insertion changes nothing.
#[derive(Clone, Copy, Debug, PartialEq, Eq, Structural)]
pub enum InsertionError {
    /// The context comes before the latest context of the history of the
    /// link, or of the history that the value is indexed to.
    OutdatedContext,
    /// The link already carries a value at this very context.
    OverwritingSome,
    /// The value is indexed to the history of another link whose latest
    /// record is at this very context, so retiring it would destroy that
    /// record.
    NullifyingSome,
}

impl InsertionError {
    /// The name of the error, as it is shown to a reader.
    pub open spec fn name(self) -> Seq<char> {
        match self {
            InsertionError::OutdatedContext => "OutdatedContext"@,
            InsertionError::OverwritingSome => "OverwritingSome"@,
            InsertionError::NullifyingSome => "NullifyingSome"@,
        }
    }

    /// The error as text: its name.
    pub fn to_string(&self) -> (text: String)
        ensures
            text@ == self.name(),
    {
        match self {
            InsertionError::OutdatedContext => "OutdatedContext".to_owned(),
            InsertionError::OverwritingSome => "OverwritingSome".to_owned(),
            InsertionError::NullifyingSome => "NullifyingSome".to_owned(),
        }
    }
}

/// What a successful insertion did.
#[derive(Clone, Copy, Debug, PartialEq, Eq, Structural)]
pub enum InsertionOutcome {
    /// A history was started for the link.
    NewLink,
    /// A record was appended to the history of the link.
    Update,
    /// The latest record of the link, which carried no value, got one.
    Overwrite,
    /// The value was taken from another link, whose history was retired
    /// with a record without a value, and given to this link.
    NullifyAndRepoint,
    /// The association was there already; nothing was written.
    NoChange,
}

/// Why an insertion that must not overwrite was rejected.
#[derive(Clone, Copy, Debug, PartialEq, Eq, Structural)]
pub enum StrictInsertionError {
    /// The insertion is rejected whether or not overwriting is allowed.
    Rejected(InsertionError),
    /// The insertion would give a value to the latest record of the link.
    Overwrite,
}

impl<C, L, V> LinkInsertionCommand<C, L, V> {
    /// The link whose history the command writes to, if it writes at all.
    pub open spec fn link(self) -> Option<L> {
        match self {
            LinkInsertionCommand::NewLink { link, .. } => Some(link),
            LinkInsertionCommand::Update { link, .. } => Some(link),
            LinkInsertionCommand::Overwrite { link, .. } => Some(link),
            LinkInsertionCommand::NoChange => None,
        }
    }

    /// What this command amounts to for the caller when it is carried out
    /// together with `value_command`.
    pub fn outcome_with(&self, value_command: &ValueInsertionCommand<C, V>) -> (outcome:
        InsertionOutcome)
        ensures
            outcome == outcome_of(*self, *value_command),
    {
        let retires = match value_command {
            ValueInsertionCommand::AddValue { .. } => false,
            ValueInsertionCommand::RemoveExistingValueAddNewValue { .. } => true,
        };
        match self {
            LinkInsertionCommand::NoChange => InsertionOutcome::NoChange,
            _ if retires => InsertionOutcome::NullifyAndRepoint,
            LinkInsertionCommand::NewLink { .. } => InsertionOutcome::NewLink,
            LinkInsertionCommand::Update { .. } => InsertionOutcome::Update,
            LinkInsertionCommand::Overwrite { .. } => InsertionOutcome::Overwrite,
        }
    }
}

/// What the pair of commands amounts to for the caller. Retiring the history
/// of another link is named before anything else, since it changes what
/// that link is associated with.
pub open spec fn outcome_of<C, L, V>(
    link_command: LinkInsertionCommand<C, L, V>,
    value_command: ValueInsertionCommand<C, V>,
) -> InsertionOutcome {
    match link_command {
        LinkInsertionCommand::NoChange => InsertionOutcome::NoChange,
        LinkInsertionCommand::NewLink { .. } => match value_command {
            ValueInsertionCommand::AddValue { .. } => InsertionOutcome::NewLink,
            _ => InsertionOutcome::NullifyAndRepoint,
        },
        LinkInsertionCommand::Update { .. } => match value_command {
            ValueInsertionCommand::AddValue { .. } => InsertionOutcome::Update,
            _ => InsertionOutcome::NullifyAndRepoint,
        },
        LinkInsertionCommand::Overwrite { .. } => match value_command {
            ValueInsertionCommand::AddValue { .. } => InsertionOutcome::Overwrite,
            _ => InsertionOutcome::NullifyAndRepoint,
        },
    }
}

} // verus!
