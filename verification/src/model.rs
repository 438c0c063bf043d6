//! The mathematical model of the map.
//!
//! To its callers the map is two things: for every link that was ever
//! inserted the history of that link, and for every value in the index of
//! values the link whose history the value is indexed to. An insertion is a
//! function from one such state to the next, written down here once, and the
//! executable map is proved to compute it.

use crate::command::{
    outcome_of, InsertionError, InsertionOutcome, LinkInsertionCommand, StrictInsertionError,
    ValueInsertionCommand,
};
use crate::order::{lemma_trichotomy, precedes, total_order};
use crate::record::ContextRecord;
use crate::registry::{
    as_of, chronological, lemma_append_keeps_chronological, lemma_replace_keeps_chronological,
};
use vstd::prelude::*;

verus! {

/// Some record of `records` carries `value`.
pub open spec fn once_held<C, L, V>(records: Seq<ContextRecord<C, L, V>>, value: V) -> bool {
    exists|i: int| 0 <= i < records.len() && (#[trigger] records[i]).value == Some(value)
}

/// Every record of `records` is about `link`.
pub open spec fn all_about<C, L, V>(records: Seq<ContextRecord<C, L, V>>, link: L) -> bool {
    forall|i: int| 0 <= i < records.len() ==> (#[trigger] records[i]).link == link
}

/// What a map holds.
#[verifier::reject_recursive_types(L)]
#[verifier::reject_recursive_types(V)]
pub struct ContextMapView<L, C, V> {
    /// The history of every link that was ever inserted, earliest record
    /// first.
    pub histories: Map<L, Seq<ContextRecord<C, L, V>>>,
    /// For every value in the index of values, the link whose history the
    /// value is indexed to. A value is indexed to the link that it was last
    /// inserted for, until it is inserted for another link.
    pub holders: Map<V, L>,
}

impl<L: Copy, C: Ord + Copy, V: Copy> ContextMapView<L, C, V> {
    /// The map without any link or value.
    pub open spec fn empty() -> Self {
        ContextMapView { histories: Map::empty(), holders: Map::empty() }
    }

    /// The invariant of the map.
    ///
    /// Every history starts with a record that carries a value, is
    /// chronological and is about its own link. Every indexed value is
    /// indexed to the history of a link that carried it at some time. And a
    /// link that carries a value now is the one that the value is indexed
    /// to.
    pub open spec fn wf(self) -> bool {
        &&& total_order::<C>()
        &&& forall|link: L| #[trigger]
            self.histories.contains_key(link) ==> {
                &&& self.histories[link].len() > 0
                &&& self.histories[link][0].value is Some
                &&& chronological(self.histories[link])
                &&& all_about(self.histories[link], link)
            }
        &&& forall|value: V| #[trigger]
            self.holders.contains_key(value) ==> {
                &&& self.histories.contains_key(self.holders[value])
                &&& once_held(self.histories[self.holders[value]], value)
            }
        &&& forall|link: L| #[trigger]
            self.histories.contains_key(link) ==> match self.histories[link].last().value {
                Some(value) => self.holders.contains_key(value) && self.holders[value] == link,
                None => true,
            }
    }

    /// What `link` is associated with now.
    pub open spec fn live_value(self, link: L) -> Option<V> {
        if self.histories.contains_key(link) {
            self.histories[link].last().value
        } else {
            None
        }
    }

    /// The link whose history `value` is indexed to.
    pub open spec fn live_link(self, value: V) -> Option<L> {
        if self.holders.contains_key(value) {
            Some(self.holders[value])
        } else {
            None
        }
    }

    /// The record of `link` that was in force at `context`.
    pub open spec fn query(self, context: C, link: L) -> Option<ContextRecord<C, L, V>> {
        if self.histories.contains_key(link) {
            as_of(self.histories[link], context)
        } else {
            None
        }
    }

    /// `link` has a history and `value` is indexed to that very history.
    pub open spec fn same_history(self, link: L, value: V) -> bool {
        &&& self.histories.contains_key(link)
        &&& self.holders.contains_key(value)
        &&& self.holders[value] == link
    }

    /// What inserting `(context, link, value)` asks of the history of `link`,
    /// judged by the latest record of that history.
    pub open spec fn link_command(self, context: C, link: L, value: V) -> Result<
        LinkInsertionCommand<C, L, V>,
        InsertionError,
    > {
        if self.same_history(link, value) {
            Ok(LinkInsertionCommand::NoChange)
        } else if !self.histories.contains_key(link) {
            Ok(LinkInsertionCommand::NewLink { context, link, value })
        } else {
            let latest = self.histories[link].last();
            if precedes(context, latest.context) {
                Err(InsertionError::OutdatedContext)
            } else if context == latest.context {
                if latest.value is None {
                    Ok(LinkInsertionCommand::Overwrite { context, link, value })
                } else {
                    Err(InsertionError::OverwritingSome)
                }
            } else {
                Ok(LinkInsertionCommand::Update { context, link, value })
            }
        }
    }

    /// What inserting `(context, link, value)` asks of the index of values,
    /// judged by the latest record of the history that `value` is indexed to.
    pub open spec fn value_command(self, context: C, link: L, value: V) -> Result<
        ValueInsertionCommand<C, V>,
        InsertionError,
    > {
        if !self.holders.contains_key(value) || self.holders[value] == link {
            Ok(ValueInsertionCommand::AddValue { new_value: value })
        } else {
            let latest = self.histories[self.holders[value]].last();
            if precedes(context, latest.context) {
                Err(InsertionError::OutdatedContext)
            } else if context == latest.context {
                Err(InsertionError::NullifyingSome)
            } else {
                Ok(
                    ValueInsertionCommand::RemoveExistingValueAddNewValue {
                        existing_value: value,
                        new_context: context,
                        new_value: value,
                    },
                )
            }
        }
    }

    /// The plan of inserting `(context, link, value)`: both commands, or the
    /// error of the link's side, or else the error of the value's side.
    pub open spec fn commands(self, context: C, link: L, value: V) -> Result<
        (LinkInsertionCommand<C, L, V>, ValueInsertionCommand<C, V>),
        InsertionError,
    > {
        match self.link_command(context, link, value) {
            Err(error) => Err(error),
            Ok(link_command) => match self.value_command(context, link, value) {
                Err(error) => Err(error),
                Ok(value_command) => Ok((link_command, value_command)),
            },
        }
    }

    /// The map after `command` was carried out on the histories.
    pub open spec fn apply_link_command(self, command: LinkInsertionCommand<C, L, V>) -> Self {
        match command {
            LinkInsertionCommand::NewLink { context, link, value } => ContextMapView {
                histories: self.histories.insert(
                    link,
                    seq![ContextRecord::some(context, link, value)],
                ),
                ..self
            },
            LinkInsertionCommand::Update { context, link, value } => ContextMapView {
                histories: self.histories.insert(
                    link,
                    self.histories[link].push(ContextRecord::some(context, link, value)),
                ),
                ..self
            },
            LinkInsertionCommand::Overwrite { context, link, value } => ContextMapView {
                histories: self.histories.insert(
                    link,
                    self.histories[link].drop_last().push(
                        ContextRecord::some(context, link, value),
                    ),
                ),
                ..self
            },
            LinkInsertionCommand::NoChange => self,
        }
    }

    /// The map after `command` was carried out on the index of values, where
    /// `link` is the link that the new value goes to.
    pub open spec fn apply_value_command(self, command: ValueInsertionCommand<C, V>, link: L) -> Self {
        match command {
            ValueInsertionCommand::AddValue { new_value } => ContextMapView {
                holders: self.holders.insert(new_value, link),
                ..self
            },
            ValueInsertionCommand::RemoveExistingValueAddNewValue {
                existing_value,
                new_context,
                new_value,
            } => {
                let retired = self.holders[existing_value];
                ContextMapView {
                    histories: self.histories.insert(
                        retired,
                        self.histories[retired].push(ContextRecord::none(new_context, retired)),
                    ),
                    holders: self.holders.remove(existing_value).insert(new_value, link),
                }
            },
        }
    }

    /// The map after both commands were carried out: first the one on the
    /// histories, then the one on the index of values. Where the link needs
    /// no change, nothing is done at all.
    pub open spec fn apply_commands(
        self,
        link_command: LinkInsertionCommand<C, L, V>,
        value_command: ValueInsertionCommand<C, V>,
    ) -> Self {
        match link_command {
            LinkInsertionCommand::NoChange => self,
            LinkInsertionCommand::NewLink { link, .. } => self.apply_link_command(
                link_command,
            ).apply_value_command(value_command, link),
            LinkInsertionCommand::Update { link, .. } => self.apply_link_command(
                link_command,
            ).apply_value_command(value_command, link),
            LinkInsertionCommand::Overwrite { link, .. } => self.apply_link_command(
                link_command,
            ).apply_value_command(value_command, link),
        }
    }

    /// `command` is what some insertion into this map asks of the history of
    /// its link.
    pub open spec fn admits_link_command(self, command: LinkInsertionCommand<C, L, V>) -> bool {
        match command {
            LinkInsertionCommand::NoChange => true,
            LinkInsertionCommand::NewLink { context, link, value } => self.link_command(
                context,
                link,
                value,
            ) == Ok::<_, InsertionError>(command),
            LinkInsertionCommand::Update { context, link, value } => self.link_command(
                context,
                link,
                value,
            ) == Ok::<_, InsertionError>(command),
            LinkInsertionCommand::Overwrite { context, link, value } => self.link_command(
                context,
                link,
                value,
            ) == Ok::<_, InsertionError>(command),
        }
    }

    /// `command` can be carried out: where it retires a history, that
    /// history exists and ends before the context of the command.
    pub open spec fn admits_value_command(self, command: ValueInsertionCommand<C, V>) -> bool {
        match command {
            ValueInsertionCommand::AddValue { .. } => true,
            ValueInsertionCommand::RemoveExistingValueAddNewValue {
                existing_value,
                new_context,
                ..
            } => {
                &&& self.holders.contains_key(existing_value)
                &&& self.histories.contains_key(self.holders[existing_value])
                &&& precedes(
                    self.histories[self.holders[existing_value]].last().context,
                    new_context,
                )
            },
        }
    }

    /// The commands are the plan of some insertion into this map, or ask
    /// for no change.
    pub open spec fn admits(
        self,
        link_command: LinkInsertionCommand<C, L, V>,
        value_command: ValueInsertionCommand<C, V>,
    ) -> bool {
        match link_command {
            LinkInsertionCommand::NoChange => true,
            LinkInsertionCommand::NewLink { context, link, value } => self.commands(
                context,
                link,
                value,
            ) == Ok::<_, InsertionError>((link_command, value_command)),
            LinkInsertionCommand::Update { context, link, value } => self.commands(
                context,
                link,
                value,
            ) == Ok::<_, InsertionError>((link_command, value_command)),
            LinkInsertionCommand::Overwrite { context, link, value } => self.commands(
                context,
                link,
                value,
            ) == Ok::<_, InsertionError>((link_command, value_command)),
        }
    }

    /// What inserting `(context, link, value)` returns.
    pub open spec fn insert_result(self, context: C, link: L, value: V) -> Result<
        InsertionOutcome,
        InsertionError,
    > {
        match self.commands(context, link, value) {
            Err(error) => Err(error),
            Ok((link_command, value_command)) => Ok(outcome_of(link_command, value_command)),
        }
    }

    /// What inserting `(context, link, value)` returns where overwriting is
    /// not allowed.
    pub open spec fn strict_insert_result(self, context: C, link: L, value: V) -> Result<
        InsertionOutcome,
        StrictInsertionError,
    > {
        match self.commands(context, link, value) {
            Err(error) => Err(StrictInsertionError::Rejected(error)),
            Ok((link_command, value_command)) => if link_command is Overwrite {
                Err(StrictInsertionError::Overwrite)
            } else {
                Ok(outcome_of(link_command, value_command))
            },
        }
    }

    /// The map after `(context, link, value)` was inserted where overwriting
    /// is not allowed: as after an ordinary insertion where this one
    /// succeeds, else as it was.
    pub open spec fn after_strict_insert(self, context: C, link: L, value: V) -> Self {
        if self.strict_insert_result(context, link, value) is Ok {
            self.after_insert(context, link, value)
        } else {
            self
        }
    }

    /// The map after `(context, link, value)` was inserted: the plan carried
    /// out, or the map as it was where the insertion is rejected.
    pub open spec fn after_insert(self, context: C, link: L, value: V) -> Self {
        match self.commands(context, link, value) {
            Err(_) => self,
            Ok((link_command, value_command)) => self.apply_commands(link_command, value_command),
        }
    }
}

/// A value that some record carries is still carried after a record was
/// appended.
proof fn lemma_append_keeps_once_held<C, L, V>(
    records: Seq<ContextRecord<C, L, V>>,
    record: ContextRecord<C, L, V>,
    value: V,
)
    requires
        once_held(records, value),
    ensures
        once_held(records.push(record), value),
{
    let i = choose|i: int| 0 <= i < records.len() && (#[trigger] records[i]).value == Some(value);
    assert(records.push(record)[i] == records[i]);
}

/// A value that some record carries is still carried after the latest
/// record, which carried none, was replaced.
proof fn lemma_replace_keeps_once_held<C, L, V>(
    records: Seq<ContextRecord<C, L, V>>,
    record: ContextRecord<C, L, V>,
    value: V,
)
    requires
        records.len() > 0,
        records.last().value is None,
        once_held(records, value),
    ensures
        once_held(records.drop_last().push(record), value),
{
    let i = choose|i: int| 0 <= i < records.len() && (#[trigger] records[i]).value == Some(value);
    assert(records.drop_last().push(record)[i] == records[i]);
}

impl<L: Copy, C: Ord + Copy, V: Copy> ContextMapView<L, C, V> {
    /// The history of `link` is what the invariant asks of a history, and
    /// its latest record gives `link` the value `value`.
    spec fn history_gives(self, link: L, value: V) -> bool {
        &&& self.histories.contains_key(link)
        &&& self.histories[link].len() > 0
        &&& self.histories[link][0].value is Some
        &&& chronological(self.histories[link])
        &&& all_about(self.histories[link], link)
        &&& self.histories[link].last().value == Some(value)
        &&& once_held(self.histories[link], value)
    }

    /// Carrying out the link's command of a plan leaves every other history
    /// and the index of values as they were, and gives the link a sound
    /// history that ends with the new value.
    proof fn lemma_link_command_applied(
        self,
        context: C,
        link: L,
        value: V,
        link_command: LinkInsertionCommand<C, L, V>,
    )
        requires
            self.wf(),
            self.link_command(context, link, value) == Ok::<_, InsertionError>(link_command),
            !(link_command is NoChange),
        ensures
            self.apply_link_command(link_command).holders == self.holders,
            self.apply_link_command(link_command).histories.dom() == self.histories.dom().insert(
                link,
            ),
            forall|other: L|
                other != link && self.histories.contains_key(other) ==> self.apply_link_command(
                    link_command,
                ).histories[other] == #[trigger] self.histories[other],
            self.apply_link_command(link_command).history_gives(link, value),
            forall|held: V|
                self.histories.contains_key(link) && once_held(self.histories[link], held)
                    ==> #[trigger] once_held(
                    self.apply_link_command(link_command).histories[link],
                    held,
                ),
    {
        let record = ContextRecord::some(context, link, value);
        let history = self.apply_link_command(link_command).histories[link];
        match link_command {
            LinkInsertionCommand::Update { .. } => {
                let before = self.histories[link];
                lemma_trichotomy(context, before.last().context);
                lemma_append_keeps_chronological(before, record);
                assert forall|held: V| once_held(before, held) implies #[trigger] once_held(
                    history,
                    held,
                ) by {
                    lemma_append_keeps_once_held(before, record, held);
                }
            },
            LinkInsertionCommand::Overwrite { .. } => {
                let before = self.histories[link];
                lemma_replace_keeps_chronological(before, record);
                assert forall|held: V| once_held(before, held) implies #[trigger] once_held(
                    history,
                    held,
                ) by {
                    lemma_replace_keeps_once_held(before, record, held);
                }
            },
            _ => {},
        }
    }

    /// An insertion keeps the invariant of the map.
    pub proof fn lemma_insert_preserves_wf(self, context: C, link: L, value: V)
        requires
            self.wf(),
        ensures
            self.after_insert(context, link, value).wf(),
    {
        match self.commands(context, link, value) {
            Ok((link_command, value_command)) => {
                if !(link_command is NoChange) {
                    self.lemma_link_command_applied(context, link, value, link_command);
                    match value_command {
                        ValueInsertionCommand::AddValue { .. } => {},
                        ValueInsertionCommand::RemoveExistingValueAddNewValue { .. } => {
                            let retired = self.holders[value];
                            let before = self.histories[retired];
                            let record = ContextRecord::<C, L, V>::none(context, retired);
                            lemma_trichotomy(context, before.last().context);
                            lemma_append_keeps_chronological(before, record);
                            assert forall|held: V| once_held(before, held) implies #[trigger] once_held(
                                before.push(record),
                                held,
                            ) by {
                                lemma_append_keeps_once_held(before, record, held);
                            }
                        },
                    }
                }
            },
            Err(_) => {},
        }
    }

    /// A plan that the map admits can be carried out, and leaves a map that
    /// meets the invariant: after the command for the link, the command for
    /// the index of values finds the history that it retires, ending before
    /// its context.
    pub proof fn lemma_admitted_plan_is_sound(
        self,
        link_command: LinkInsertionCommand<C, L, V>,
        value_command: ValueInsertionCommand<C, V>,
    )
        requires
            self.wf(),
            self.admits(link_command, value_command),
        ensures
            self.apply_commands(link_command, value_command).wf(),
            !(link_command is NoChange) ==> self.apply_link_command(
                link_command,
            ).admits_value_command(value_command),
    {
        match link_command {
            LinkInsertionCommand::NewLink { context, link, value } => {
                self.lemma_planned_insertion_is_sound(context, link, value);
            },
            LinkInsertionCommand::Update { context, link, value } => {
                self.lemma_planned_insertion_is_sound(context, link, value);
            },
            LinkInsertionCommand::Overwrite { context, link, value } => {
                self.lemma_planned_insertion_is_sound(context, link, value);
            },
            LinkInsertionCommand::NoChange => {},
        }
    }

    /// The plan of an insertion can be carried out, and leaves a map that
    /// meets the invariant.
    proof fn lemma_planned_insertion_is_sound(self, context: C, link: L, value: V)
        requires
            self.wf(),
            self.commands(context, link, value) is Ok,
        ensures
            self.after_insert(context, link, value).wf(),
            !(self.commands(context, link, value).unwrap().0 is NoChange)
                ==> self.apply_link_command(
                self.commands(context, link, value).unwrap().0,
            ).admits_value_command(self.commands(context, link, value).unwrap().1),
    {
        self.lemma_insert_preserves_wf(context, link, value);
        if self.holders.contains_key(value) {
            lemma_trichotomy(context, self.histories[self.holders[value]].last().context);
        }
    }
}

} // verus!
