//! The map itself: all histories in one arena, and two indices into it.

use crate::command::{
    outcome_of, InsertionError, InsertionOutcome, LinkInsertionCommand, StrictInsertionError,
    ValueInsertionCommand,
};
use crate::model::ContextMapView;
use crate::order::{compare, lemma_trichotomy, precedes, total_order, Chronology};
use crate::record::ContextRecord;
use crate::registry::{with_record, ContextRegistry};
use std::collections::HashMap;
use std::hash::Hash;
use vstd::prelude::*;
use vstd::std_specs::hash::obeys_key_model;

verus! {

/// A time-varying partial bijection between links and values.
///
/// The registries live in an arena and are never removed from it. The index
/// of links and the index of values hold positions in the arena, so that a
/// link and a value can be indexed to one and the same registry.
#[derive(Debug)]
pub struct ContextMap<L, C, V> {
    registries: Vec<ContextRegistry<C, L, V>>,
    links_to_registries: HashMap<L, usize>,
    values_to_registries: HashMap<V, usize>,
}

impl<L: Copy + Hash + Eq, C: Ord + Copy, V: Copy + Hash + Eq> View for ContextMap<L, C, V> {
    type V = ContextMapView<L, C, V>;

    /// The histories by link, and for each indexed value the link of the
    /// registry that it is indexed to.
    closed spec fn view(&self) -> ContextMapView<L, C, V> {
        ContextMapView {
            histories: Map::new(
                |link: L| self.links_to_registries@.contains_key(link),
                |link: L| self.registries@[self.links_to_registries@[link] as int].history(),
            ),
            holders: Map::new(
                |value: V| self.values_to_registries@.contains_key(value),
                |value: V| self.owner(self.values_to_registries@[value] as int),
            ),
        }
    }
}

impl<L: Copy + Hash + Eq, C: Ord + Copy, V: Copy + Hash + Eq> ContextMap<L, C, V> {
    /// What the map asks of its type parameters: contexts are totally
    /// ordered, and links and values can serve as keys of a hash map.
    pub open spec fn lawful() -> bool {
        &&& total_order::<C>()
        &&& obeys_key_model::<L>()
        &&& obeys_key_model::<V>()
    }

    /// The link that the registry at `position` belongs to.
    closed spec fn owner(&self, position: int) -> L {
        self.registries@[position].history().last().link
    }

    /// The arena and the two indices fit together: every registry is sound
    /// and is the one that its link is indexed to, and both indices hold
    /// positions of the arena only.
    pub closed spec fn structure(&self) -> bool {
        &&& Self::lawful()
        &&& forall|position: int|
            0 <= position < self.registries@.len() ==> {
                &&& (#[trigger] self.registries@[position]).wf()
                &&& self.links_to_registries@.contains_key(self.owner(position))
                &&& self.links_to_registries@[self.owner(position)] == position
            }
        &&& forall|link: L| #[trigger]
            self.links_to_registries@.contains_key(link) ==> {
                &&& self.links_to_registries@[link] < self.registries@.len()
                &&& self.owner(self.links_to_registries@[link] as int) == link
            }
        &&& forall|value: V| #[trigger]
            self.values_to_registries@.contains_key(value) ==> self.values_to_registries@[value]
                < self.registries@.len()
    }

    /// The invariant of the map: its parts fit together, what it holds
    /// meets the invariant of the model, and no value is carried by two
    /// links at one and the same context.
    pub open spec fn wf(&self) -> bool {
        &&& self.structure()
        &&& self@.wf()
        &&& self@.one_link_at_a_time()
    }

    /// Creates a map without any link or value.
    pub fn new() -> (map: Self)
        requires
            Self::lawful(),
        ensures
            map.wf(),
            map@ == ContextMapView::<L, C, V>::empty(),
    {
        let map = ContextMap {
            registries: Vec::new(),
            links_to_registries: HashMap::new(),
            values_to_registries: HashMap::new(),
        };
        proof {
            assert(map@.histories =~= Map::empty());
            assert(map@.holders =~= Map::empty());
        }
        map
    }

    /// The record of `link` that was in force at `context`: the one with the
    /// greatest context that is `context` or earlier. There is none for a
    /// link that was never inserted, or before its first record.
    pub fn query(&self, context: &C, link: &L) -> (found: Option<ContextRecord<C, L, V>>)
        requires
            self.wf(),
        ensures
            found == self@.query(*context, *link),
    {
        match self.links_to_registries.get(link) {
            Some(position) => match self.registries[*position].query(context) {
                Some(record) => Some(*record),
                None => None,
            },
            None => None,
        }
    }

    /// What `link` is associated with now, if it is associated with
    /// anything.
    pub fn get_live_value(&self, link: &L) -> (value: Option<V>)
        requires
            self.wf(),
        ensures
            value == self@.live_value(*link),
    {
        match self.links_to_registries.get(link) {
            Some(position) => self.registries[*position].value(),
            None => None,
        }
    }

    /// The link of the registry that `value` is indexed to, if it is
    /// indexed. A value is indexed to the link that it was last inserted
    /// for, also after that link was given another value; it leaves that
    /// link only when it is inserted for another one.
    pub fn get_live_link(&self, value: &V) -> (link: Option<L>)
        requires
            self.wf(),
        ensures
            link == self@.live_link(*value),
    {
        match self.values_to_registries.get(value) {
            Some(position) => Some(self.registries[*position].link()),
            None => None,
        }
    }

    /// Decides what inserting `(context, link, value)` asks of the registry
    /// of `link`. Nothing is written.
    pub fn generate_link_insertion_command(&self, context: &C, link: &L, value: &V) -> (command:
        Result<LinkInsertionCommand<C, L, V>, InsertionError>)
        requires
            self.wf(),
        ensures
            command == self@.link_command(*context, *link, *value),
    {
        let position: usize = match self.links_to_registries.get(link) {
            Some(position) => *position,
            None => {
                return Ok(
                    LinkInsertionCommand::NewLink { context: *context, link: *link, value: *value },
                );
            },
        };
        // The link and the value are indexed to the same registry: they are
        // associated already.
        match self.values_to_registries.get(value) {
            Some(indexed) => {
                if *indexed == position {
                    return Ok(LinkInsertionCommand::NoChange);
                }
            },
            None => {},
        }
        let latest = self.registries[position].last_record();
        match compare(context, &latest.context) {
            Chronology::Earlier => Err(InsertionError::OutdatedContext),
            Chronology::Same => match latest.value {
                None => Ok(
                    LinkInsertionCommand::Overwrite {
                        context: *context,
                        link: *link,
                        value: *value,
                    },
                ),
                Some(_) => Err(InsertionError::OverwritingSome),
            },
            Chronology::Later => Ok(
                LinkInsertionCommand::Update { context: *context, link: *link, value: *value },
            ),
        }
    }

    /// Decides what inserting `(context, link, value)` asks of the index of
    /// values. Nothing is written.
    pub fn generate_value_insertion_command(&self, context: &C, link: &L, value: &V) -> (command:
        Result<ValueInsertionCommand<C, V>, InsertionError>)
        requires
            self.wf(),
        ensures
            command == self@.value_command(*context, *link, *value),
    {
        let position: usize = match self.values_to_registries.get(value) {
            Some(position) => *position,
            None => {
                return Ok(ValueInsertionCommand::AddValue { new_value: *value });
            },
        };
        let latest = self.registries[position].last_record();
        match self.links_to_registries.get(link) {
            Some(linked) => {
                if *linked == position {
                    return Ok(ValueInsertionCommand::AddValue { new_value: *value });
                }
            },
            None => {},
        }
        // The registry to retire carries a value at its latest context, so
        // only a later context may retire it.
        match compare(context, &latest.context) {
            Chronology::Earlier => Err(InsertionError::OutdatedContext),
            Chronology::Same => Err(InsertionError::NullifyingSome),
            Chronology::Later => Ok(
                ValueInsertionCommand::RemoveExistingValueAddNewValue {
                    existing_value: *value,
                    new_context: *context,
                    new_value: *value,
                },
            ),
        }
    }

    /// Plans the insertion of `(context, link, value)`: the command for the
    /// registry of the link and the command for the index of values, or the
    /// first error among the two. Nothing is written.
    pub fn generate_insertion_commands(&self, context: &C, link: &L, value: &V) -> (commands: Result<
        (LinkInsertionCommand<C, L, V>, ValueInsertionCommand<C, V>),
        InsertionError,
    >)
        requires
            self.wf(),
        ensures
            commands == self@.commands(*context, *link, *value),
    {
        let link_command = match self.generate_link_insertion_command(context, link, value) {
            Ok(command) => command,
            Err(error) => {
                return Err(error);
            },
        };
        let value_command = match self.generate_value_insertion_command(context, link, value) {
            Ok(command) => command,
            Err(error) => {
                return Err(error);
            },
        };
        Ok((link_command, value_command))
    }

    /// The registry at `position` exists and belongs to `link`.
    closed spec fn is_registry_of(&self, position: usize, link: L) -> bool {
        &&& position < self.registries@.len()
        &&& self.owner(position as int) == link
    }

    /// Carries out the command for the registry of the link, and returns
    /// the position of that registry: the one to index the value to. Where
    /// nothing is to change there is no such position.
    fn execute_link_insertion_command(&mut self, command: LinkInsertionCommand<C, L, V>) -> (position:
        Option<usize>)
        requires
            old(self).wf(),
            old(self)@.admits_link_command(command),
        ensures
            final(self).structure(),
            final(self)@ == old(self)@.apply_link_command(command),
            match (command.link(), position) {
                (Some(link), Some(position)) => final(self).is_registry_of(position, link),
                (None, None) => true,
                _ => false,
            },
    {
        match command {
            LinkInsertionCommand::NewLink { context, link, value } => {
                let registry = ContextRegistry::new(context, link, value);
                let position: usize = self.registries.len();
                self.registries.push(registry);
                self.links_to_registries.insert(link, position);
                proof {
                    assert(self@.histories =~= old(self)@.apply_link_command(command).histories);
                    assert(self@.holders =~= old(self)@.holders);
                }
                Some(position)
            },
            LinkInsertionCommand::Update { context, link, value } => {
                let record = ContextRecord::new_some(&context, &link, &value);
                self.write_record(&link, record)
            },
            LinkInsertionCommand::Overwrite { context, link, value } => {
                let record = ContextRecord::new_some(&context, &link, &value);
                self.write_record(&link, record)
            },
            LinkInsertionCommand::NoChange => None,
        }
    }

    /// Writes `record` at the end of the registry of `link`, and returns the
    /// position of that registry.
    fn write_record(&mut self, link: &L, record: ContextRecord<C, L, V>) -> (position: Option<
        usize,
    >)
        requires
            old(self).structure(),
            old(self)@.histories.contains_key(*link),
            record.link == *link,
            !precedes(record.context, old(self)@.histories[*link].last().context),
        ensures
            final(self).structure(),
            final(self)@.holders == old(self)@.holders,
            final(self)@.histories == old(self)@.histories.insert(
                *link,
                with_record(old(self)@.histories[*link], record),
            ),
            position is Some,
            final(self).is_registry_of(position.unwrap(), *link),
    {
        match self.links_to_registries.get(link) {
            Some(position) => {
                let position: usize = *position;
                proof {
                    lemma_trichotomy(
                        record.context,
                        self.registries@[position as int].history().last().context,
                    );
                }
                self.registries[position].insert(record.context, record);
                Some(position)
            },
            None => None,
        }
    }

    /// Carries out the command for the index of values, where
    /// `new_registry` is the position of the registry that the new value is
    /// indexed to.
    fn execute_value_insertion_command(
        &mut self,
        command: ValueInsertionCommand<C, V>,
        new_registry: usize,
    )
        requires
            old(self).structure(),
            new_registry < old(self).registries@.len(),
            old(self)@.admits_value_command(command),
        ensures
            final(self).structure(),
            final(self)@ == old(self)@.apply_value_command(
                command,
                old(self).owner(new_registry as int),
            ),
    {
        match command {
            ValueInsertionCommand::AddValue { new_value } => {
                self.values_to_registries.insert(new_value, new_registry);
                proof {
                    assert(self@.holders =~= old(self)@.holders.insert(
                        new_value,
                        old(self).owner(new_registry as int),
                    ));
                }
            },
            ValueInsertionCommand::RemoveExistingValueAddNewValue {
                existing_value,
                new_value,
                new_context,
            } => {
                match self.values_to_registries.remove(&existing_value) {
                    Some(existing_registry) => {
                        let existing_link = self.registries[existing_registry].link();
                        let null_record = ContextRecord::new_none(&new_context, &existing_link);
                        proof {
                            lemma_trichotomy(
                                new_context,
                                self.registries@[existing_registry as int].history().last().context,
                            );
                        }
                        self.registries[existing_registry].insert(new_context, null_record);
                    },
                    None => {},
                }
                self.values_to_registries.insert(new_value, new_registry);
                proof {
                    let expected = old(self)@.apply_value_command(
                        command,
                        old(self).owner(new_registry as int),
                    );
                    assert(self@.holders =~= expected.holders);
                    assert(self@.histories =~= expected.histories);
                }
            },
        }
    }

    /// Carries out a plan: first the command for the registry of the link,
    /// then the command for the index of values, which is given the
    /// registry to index the value to. Says what was done.
    pub fn execute_insertion_commands(
        &mut self,
        link_command: LinkInsertionCommand<C, L, V>,
        value_command: ValueInsertionCommand<C, V>,
    ) -> (outcome: InsertionOutcome)
        requires
            old(self).wf(),
            old(self)@.admits(link_command, value_command),
        ensures
            final(self).wf(),
            final(self)@ == old(self)@.apply_commands(link_command, value_command),
            outcome == outcome_of(link_command, value_command),
    {
        let outcome = link_command.outcome_with(&value_command);
        proof {
            self@.lemma_admitted_plan_is_sound(link_command, value_command);
            self@.lemma_admitted_plan_keeps_one_link_at_a_time(link_command, value_command);
        }
        match self.execute_link_insertion_command(link_command) {
            Some(new_registry) => {
                self.execute_value_insertion_command(value_command, new_registry);
            },
            None => {},
        }
        outcome
    }

    /// Inserts the fact that `link` is associated with `value` from
    /// `context` on, as [`ContextMap::insert`] does: a record without a
    /// value at the latest context of the link may be given the value.
    pub fn insert_with_overwrite(&mut self, context: C, link: L, value: V) -> (result: Result<
        InsertionOutcome,
        InsertionError,
    >)
        requires
            old(self).wf(),
        ensures
            final(self).wf(),
            result == old(self)@.insert_result(context, link, value),
            final(self)@ == old(self)@.after_insert(context, link, value),
    {
        match self.generate_insertion_commands(&context, &link, &value) {
            Ok((link_command, value_command)) => Ok(
                self.execute_insertion_commands(link_command, value_command),
            ),
            Err(error) => Err(error),
        }
    }

    /// Inserts the fact that `link` is associated with `value` from
    /// `context` on.
    ///
    /// Where `link` and `value` are indexed to the same registry, nothing
    /// is compared or written: the insertion is accepted as
    /// [`InsertionOutcome::NoChange`]. That is so for the value that the
    /// link carries now, and for an earlier value of the link that no other
    /// link has taken since.
    ///
    /// Otherwise the insertion is planned on the map as it is. For the
    /// link: without a registry it gets a new one; with one, the context
    /// must not come before its latest context, and at that very context
    /// the latest record must carry no value, which the insertion then
    /// fills in; at a later context a record is appended. For the value:
    /// where it is indexed to the registry of another link, the context
    /// must come after the latest context of that registry, which is then
    /// retired by a record without a value at the context of the
    /// insertion; in any case the value is then indexed to the registry of
    /// the link.
    ///
    /// The plan is carried out only where it holds no error. Of two errors
    /// the one for the link is returned. A rejected insertion changes
    /// nothing.
    pub fn insert(&mut self, context: C, link: L, value: V) -> (result: Result<
        InsertionOutcome,
        InsertionError,
    >)
        requires
            old(self).wf(),
        ensures
            final(self).wf(),
            result == old(self)@.insert_result(context, link, value),
            final(self)@ == old(self)@.after_insert(context, link, value),
    {
        self.insert_with_overwrite(context, link, value)
    }

    /// Inserts like [`ContextMap::insert`], but rejects an insertion that
    /// would give a value to the latest record of the link in place of
    /// writing a new record.
    pub fn insert_without_overwrite(&mut self, context: C, link: L, value: V) -> (result: Result<
        InsertionOutcome,
        StrictInsertionError,
    >)
        requires
            old(self).wf(),
        ensures
            final(self).wf(),
            result == old(self)@.strict_insert_result(context, link, value),
            final(self)@ == old(self)@.after_strict_insert(context, link, value),
    {
        match self.generate_insertion_commands(&context, &link, &value) {
            Ok((link_command, value_command)) => {
                match link_command {
                    LinkInsertionCommand::Overwrite { .. } => Err(StrictInsertionError::Overwrite),
                    _ => Ok(self.execute_insertion_commands(link_command, value_command)),
                }
            },
            Err(error) => Err(StrictInsertionError::Rejected(error)),
        }
    }
}

} // verus!
