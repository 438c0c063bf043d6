//! What holds of every map, proved over the model of the map.
//!
//! The contracts of [`crate::map::ContextMap`] say that the executable map
//! computes `insert_result`, `after_insert`, `query`, `live_value` and
//! `live_link` of its view, so each law here is a law of the executable map.

use crate::command::{InsertionError, InsertionOutcome, LinkInsertionCommand, ValueInsertionCommand};
use crate::model::{once_held, ContextMapView};
use crate::order::{at_or_before, lemma_trichotomy, precedes, total_order};
use crate::record::ContextRecord;
use crate::registry::{
    as_of, chronological, lemma_as_of_is_greatest_at_or_before,
    lemma_as_of_unchanged_by_later_record, lemma_as_of_unchanged_by_replaced_last,
};
use vstd::prelude::*;

verus! {

impl<L: Copy, C: Ord + Copy, V: Copy> ContextMapView<L, C, V> {
    /// The map after the triples of `insertions` were inserted one after
    /// the other, whether or not each of them was accepted.
    pub open spec fn after_insertions(self, insertions: Seq<(C, L, V)>) -> Self
        decreases insertions.len(),
    {
        if insertions.len() == 0 {
            self
        } else {
            let (context, link, value) = insertions.last();
            self.after_insertions(insertions.drop_last()).after_insert(context, link, value)
        }
    }

    /// The empty map meets the invariant, and so does every map that
    /// insertions make of it.
    pub proof fn lemma_invariant_always_holds(insertions: Seq<(C, L, V)>)
        requires
            total_order::<C>(),
        ensures
            Self::empty().after_insertions(insertions).wf(),
        decreases insertions.len(),
    {
        if insertions.len() > 0 {
            let (context, link, value) = insertions.last();
            Self::lemma_invariant_always_holds(insertions.drop_last());
            Self::empty().after_insertions(insertions.drop_last()).lemma_insert_preserves_wf(
                context,
                link,
                value,
            );
        }
    }

    /// Chronological order: whatever was inserted, the contexts in the
    /// history of a link grow strictly from each record to the next.
    pub proof fn lemma_histories_are_chronological(insertions: Seq<(C, L, V)>, link: L)
        requires
            total_order::<C>(),
            Self::empty().after_insertions(insertions).histories.contains_key(link),
        ensures
            chronological(Self::empty().after_insertions(insertions).histories[link]),
    {
        Self::lemma_invariant_always_holds(insertions);
    }

    /// A rejected insertion changes nothing.
    pub proof fn lemma_rejected_insertion_changes_nothing(self, context: C, link: L, value: V)
        requires
            self.insert_result(context, link, value) is Err,
        ensures
            self.after_insert(context, link, value) == self,
    {
    }

    /// An insertion at a context before the latest one of the link is
    /// rejected as outdated, unless the value is indexed to the history of
    /// the link, in which case nothing is compared.
    pub proof fn lemma_earlier_than_link_is_outdated(self, context: C, link: L, value: V)
        requires
            self.wf(),
            self.histories.contains_key(link),
            precedes(context, self.histories[link].last().context),
            !self.same_history(link, value),
        ensures
            self.insert_result(context, link, value) == Err::<InsertionOutcome, _>(
                InsertionError::OutdatedContext,
            ),
            self.after_insert(context, link, value) == self,
    {
    }

    /// An insertion at a context before the latest one of the history that
    /// the value is indexed to is rejected as outdated, unless that history
    /// is the one of the link, or the link carries a value at this very
    /// context, which is the error that is returned then.
    pub proof fn lemma_earlier_than_value_is_outdated(self, context: C, link: L, value: V)
        requires
            self.wf(),
            self.holders.contains_key(value),
            precedes(context, self.histories[self.holders[value]].last().context),
            !self.same_history(link, value),
            !(self.histories.contains_key(link) && self.histories[link].last().context == context
                && self.histories[link].last().value is Some),
        ensures
            self.insert_result(context, link, value) == Err::<InsertionOutcome, _>(
                InsertionError::OutdatedContext,
            ),
            self.after_insert(context, link, value) == self,
    {
    }

    /// The bijection, from links to values: the value that a link carries
    /// now is indexed to that link, so no two links carry the same value.
    pub proof fn lemma_live_value_is_indexed_to_its_link(self, link: L, value: V)
        requires
            self.wf(),
            self.live_value(link) == Some(value),
        ensures
            self.live_link(value) == Some(link),
            forall|other: L| self.live_value(other) == Some(value) ==> other == link,
    {
    }

    /// The bijection, from values to links: the link that a value is indexed
    /// to has a history, and carried the value at some time.
    pub proof fn lemma_indexed_value_was_carried_by_its_link(self, link: L, value: V)
        requires
            self.wf(),
            self.live_link(value) == Some(link),
        ensures
            self.histories.contains_key(link),
            once_held(self.histories[link], value),
    {
    }

    /// After an accepted insertion the link carries the value, and the
    /// value is indexed to the link.
    pub proof fn lemma_inserted_pair_is_live(self, context: C, link: L, value: V)
        requires
            self.wf(),
            self.insert_result(context, link, value) is Ok,
            self.insert_result(context, link, value) != Ok::<_, InsertionError>(
                InsertionOutcome::NoChange,
            ),
        ensures
            self.after_insert(context, link, value).live_value(link) == Some(value),
            self.after_insert(context, link, value).live_link(value) == Some(link),
    {
    }

    /// What a query returns: the record of the link with the greatest
    /// context that is at or before the context asked for.
    pub proof fn lemma_query_returns_greatest_at_or_before(self, context: C, link: L)
        requires
            self.wf(),
        ensures
            match self.query(context, link) {
                Some(record) => self.histories.contains_key(link) && exists|at: int|
                    {
                        &&& 0 <= at < self.histories[link].len()
                        &&& #[trigger] self.histories[link][at] == record
                        &&& at_or_before(record.context, context)
                        &&& forall|later: int|
                            at < later < self.histories[link].len() ==> precedes(
                                context,
                                (#[trigger] self.histories[link][later]).context,
                            )
                    },
                None => !self.histories.contains_key(link) || precedes(
                    context,
                    self.histories[link][0].context,
                ),
            },
    {
        if self.histories.contains_key(link) {
            lemma_as_of_is_greatest_at_or_before(self.histories[link], context);
        }
    }

    /// Time travel: an insertion at some context changes no answer for an
    /// earlier context, whatever link is asked about.
    pub proof fn lemma_insertion_keeps_earlier_answers(
        self,
        context: C,
        link: L,
        value: V,
        asked: C,
        about: L,
    )
        requires
            self.wf(),
            precedes(asked, context),
        ensures
            self.after_insert(context, link, value).query(asked, about) == self.query(asked, about),
    {
        match self.commands(context, link, value) {
            Ok((link_command, value_command)) => {
                let linked = self.apply_link_command(link_command);
                let written = ContextRecord::some(context, link, value);
                lemma_trichotomy(context, asked);
                assert(linked.query(asked, about) == self.query(asked, about)) by {
                    if about == link {
                        match link_command {
                            LinkInsertionCommand::NewLink { .. } => {
                                let history = seq![written];
                                assert(as_of(history, asked) == as_of(history.drop_last(), asked));
                            },
                            LinkInsertionCommand::Update { .. } => {
                                lemma_as_of_unchanged_by_later_record(
                                    self.histories[link],
                                    written,
                                    asked,
                                );
                            },
                            LinkInsertionCommand::Overwrite { .. } => {
                                lemma_as_of_unchanged_by_replaced_last(
                                    self.histories[link],
                                    written,
                                    asked,
                                );
                            },
                            LinkInsertionCommand::NoChange => {},
                        }
                    }
                }
                if !(link_command is NoChange) {
                    match value_command {
                        ValueInsertionCommand::RemoveExistingValueAddNewValue { .. } => {
                            let retired = self.holders[value];
                            lemma_as_of_unchanged_by_later_record(
                                linked.histories[retired],
                                ContextRecord::none(context, retired),
                                asked,
                            );
                        },
                        ValueInsertionCommand::AddValue { .. } => {},
                    }
                }
            },
            Err(_) => {},
        }
    }

    /// Time travel: after an accepted insertion that wrote something, the
    /// record that it wrote is in force for the link at every context at or
    /// after its own.
    pub proof fn lemma_inserted_record_is_in_force(
        self,
        context: C,
        link: L,
        value: V,
        asked: C,
    )
        requires
            self.wf(),
            self.insert_result(context, link, value) is Ok,
            self.insert_result(context, link, value) != Ok::<_, InsertionError>(
                InsertionOutcome::NoChange,
            ),
            at_or_before(context, asked),
        ensures
            self.after_insert(context, link, value).query(asked, link) == Some(
                ContextRecord::some(context, link, value),
            ),
    {
    }

    /// When an insertion takes the value from another link, that link is
    /// associated with nothing from the context of the insertion on, and
    /// the value is indexed to its new link.
    pub proof fn lemma_retired_link_carries_nothing(
        self,
        context: C,
        link: L,
        value: V,
        asked: C,
    )
        requires
            self.wf(),
            self.insert_result(context, link, value) == Ok::<_, InsertionError>(
                InsertionOutcome::NullifyAndRepoint,
            ),
            at_or_before(context, asked),
        ensures
            self.live_link(value) is Some,
            self.live_link(value) != Some(link),
            self.after_insert(context, link, value).query(asked, self.live_link(value).unwrap())
                == Some(ContextRecord::<C, L, V>::none(context, self.live_link(value).unwrap())),
            self.after_insert(context, link, value).live_value(self.live_link(value).unwrap())
                is None,
            self.after_insert(context, link, value).live_link(value) == Some(link),
    {
    }

    /// Idempotence: inserting the value that a link carries now, at any
    /// context, is accepted as no change and changes nothing.
    pub proof fn lemma_reinserting_live_pair_changes_nothing(self, context: C, link: L, value: V)
        requires
            self.wf(),
            self.live_value(link) == Some(value),
        ensures
            self.insert_result(context, link, value) == Ok::<_, InsertionError>(
                InsertionOutcome::NoChange,
            ),
            self.after_insert(context, link, value) == self,
    {
    }

    /// Idempotence: an accepted insertion, made once more, is accepted as no
    /// change and changes nothing.
    pub proof fn lemma_inserting_twice_changes_nothing(self, context: C, link: L, value: V)
        requires
            self.wf(),
            self.insert_result(context, link, value) is Ok,
        ensures
            self.after_insert(context, link, value).insert_result(context, link, value) == Ok::<
                _,
                InsertionError,
            >(InsertionOutcome::NoChange),
            self.after_insert(context, link, value).after_insert(context, link, value)
                == self.after_insert(context, link, value),
    {
        if self.insert_result(context, link, value) != Ok::<_, InsertionError>(
            InsertionOutcome::NoChange,
        ) {
            self.lemma_insert_preserves_wf(context, link, value);
            self.after_insert(context, link, value).lemma_reinserting_live_pair_changes_nothing(
                context,
                link,
                value,
            );
        }
    }

    /// No destructive write: where a link carries a value at its latest
    /// context, inserting another value for it at that very context is
    /// rejected, and nothing changes. The one exception is a value that is
    /// still indexed to the history of the link, for which nothing is
    /// compared.
    pub proof fn lemma_overwriting_a_value_is_rejected(
        self,
        context: C,
        link: L,
        held: V,
        value: V,
    )
        requires
            self.wf(),
            self.histories.contains_key(link),
            self.histories[link].last() == ContextRecord::some(context, link, held),
            value != held,
            !self.same_history(link, value),
        ensures
            self.insert_result(context, link, value) == Err::<InsertionOutcome, _>(
                InsertionError::OverwritingSome,
            ),
            self.after_insert(context, link, value) == self,
            self.after_insert(context, link, value).query(context, link) == Some(
                ContextRecord::some(context, link, held),
            ),
    {
        lemma_trichotomy(context, context);
    }

    /// The index of values is exact: every indexed value is the one that
    /// its link carries now.
    pub open spec fn exact(self) -> bool {
        forall|value: V| #[trigger]
            self.holders.contains_key(value) ==> self.live_value(self.holders[value]) == Some(
                value,
            )
    }

    /// Inserting `(context, link, value)` is accepted and gives `link`, which
    /// carries a value now, another one. The value that it carried stays
    /// indexed to it.
    pub open spec fn reassigns(self, context: C, link: L, value: V) -> bool {
        &&& self.live_value(link) is Some
        &&& self.insert_result(context, link, value) is Ok
        &&& self.insert_result(context, link, value) != Ok::<_, InsertionError>(
            InsertionOutcome::NoChange,
        )
    }

    /// None of `insertions`, made one after the other, gives a link that
    /// carries a value another one.
    pub open spec fn never_reassigns(self, insertions: Seq<(C, L, V)>) -> bool
        decreases insertions.len(),
    {
        if insertions.len() == 0 {
            true
        } else {
            let (context, link, value) = insertions.last();
            &&& self.never_reassigns(insertions.drop_last())
            &&& !self.after_insertions(insertions.drop_last()).reassigns(context, link, value)
        }
    }

    /// The bijection in full: where the index of values is exact, a value is
    /// indexed to a link exactly when the link carries the value now.
    pub proof fn lemma_exact_index_is_a_bijection(self, link: L, value: V)
        requires
            self.wf(),
            self.exact(),
        ensures
            self.live_link(value) == Some(link) <==> self.live_value(link) == Some(value),
    {
    }

    /// An exact index of values stays exact under every insertion but one
    /// that gives a link that carries a value another one.
    pub proof fn lemma_exactness_is_kept(self, context: C, link: L, value: V)
        requires
            self.wf(),
            self.exact(),
            !self.reassigns(context, link, value),
        ensures
            self.after_insert(context, link, value).exact(),
    {
    }

    /// Whatever was inserted, the index of values is exact as long as no
    /// link that carried a value was given another one.
    pub proof fn lemma_exact_unless_reassigned(insertions: Seq<(C, L, V)>)
        requires
            total_order::<C>(),
            Self::empty().never_reassigns(insertions),
        ensures
            Self::empty().after_insertions(insertions).exact(),
        decreases insertions.len(),
    {
        if insertions.len() > 0 {
            let (context, link, value) = insertions.last();
            Self::lemma_exact_unless_reassigned(insertions.drop_last());
            Self::lemma_invariant_always_holds(insertions.drop_last());
            Self::empty().after_insertions(insertions.drop_last()).lemma_exactness_is_kept(
                context,
                link,
                value,
            );
        }
    }

    /// No destructive write, in full: where the index of values is exact
    /// and a link carries a value at its latest context, inserting any
    /// other value for it at that very context is rejected, and nothing
    /// changes.
    pub proof fn lemma_overwriting_a_value_is_rejected_where_exact(
        self,
        context: C,
        link: L,
        held: V,
        value: V,
    )
        requires
            self.wf(),
            self.exact(),
            self.histories.contains_key(link),
            self.histories[link].last() == ContextRecord::some(context, link, held),
            value != held,
        ensures
            self.insert_result(context, link, value) == Err::<InsertionOutcome, _>(
                InsertionError::OverwritingSome,
            ),
            self.after_insert(context, link, value) == self,
            self.after_insert(context, link, value).query(context, link) == Some(
                ContextRecord::some(context, link, held),
            ),
    {
        self.lemma_overwriting_a_value_is_rejected(context, link, held, value);
    }
}

} // verus!
