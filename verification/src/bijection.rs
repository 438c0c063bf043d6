//! The partial bijection at every context: whatever is inserted, no value is
//! carried by two links at one and the same context.
//!
//! A record is in force from its own context up to the context of the record
//! that follows it in its history. The histories of two links never hold
//! records with the same value that are in force at the same context: one of
//! the two is followed by a record that is at or before the other.

use crate::command::{LinkInsertionCommand, ValueInsertionCommand};
use crate::model::ContextMapView;
use crate::order::{
    at_or_before, lemma_precedes_then_at_or_before, lemma_precedes_transitive, lemma_trichotomy,
    precedes, total_order,
};
use crate::record::ContextRecord;
use crate::registry::{chronological, lemma_as_of_is_greatest_at_or_before};
use vstd::prelude::*;

verus! {

/// The record at `at` is followed by a record whose context is `context` or
/// earlier: it is no longer in force at `context`.
pub open spec fn superseded_by<C: Ord, L, V>(
    records: Seq<ContextRecord<C, L, V>>,
    at: int,
    context: C,
) -> bool {
    at + 1 < records.len() && at_or_before(records[at + 1].context, context)
}

/// In a chronological history every record but the last is superseded by
/// the context of the last one, and by every later context.
proof fn lemma_superseded_by_latest<C: Ord, L, V>(
    records: Seq<ContextRecord<C, L, V>>,
    at: int,
    context: C,
)
    requires
        total_order::<C>(),
        chronological(records),
        0 <= at < records.len() - 1,
        at_or_before(records.last().context, context),
    ensures
        superseded_by(records, at, context),
{
    let next = records[at + 1].context;
    let latest = records.last().context;
    if at + 1 < records.len() - 1 {
        lemma_precedes_then_at_or_before(next, latest, context);
    }
}

/// What is superseded by a context is superseded by every later context.
proof fn lemma_superseded_by_later<C: Ord, L, V>(
    records: Seq<ContextRecord<C, L, V>>,
    at: int,
    context: C,
    later: C,
)
    requires
        total_order::<C>(),
        superseded_by(records, at, context),
        at_or_before(context, later),
    ensures
        superseded_by(records, at, later),
{
    let next = records[at + 1].context;
    if next != context && context != later {
        lemma_precedes_transitive(next, context, later);
    }
}

impl<L: Copy, C: Ord + Copy, V: Copy> ContextMapView<L, C, V> {
    /// The record at position `at` of the history of `link` carries
    /// `value`.
    pub open spec fn carries(self, link: L, at: int, value: V) -> bool {
        &&& self.histories.contains_key(link)
        &&& 0 <= at < self.histories[link].len()
        &&& self.histories[link][at].value == Some(value)
    }

    /// The latest context of the history that `value` is indexed to.
    pub open spec fn frontier(self, value: V) -> C {
        self.histories[self.holders[value]].last().context
    }

    /// No value is carried by two links at once.
    ///
    /// A value that any record carries is indexed. A record that carries a
    /// value in the history of a link other than the one that the value is
    /// indexed to is superseded by the frontier of the value. And of two
    /// records that carry the same value in the histories of two links, one
    /// is superseded by the context of the other.
    pub open spec fn one_link_at_a_time(self) -> bool {
        &&& forall|link: L, at: int, value: V| #[trigger]
            self.carries(link, at, value) ==> self.holders.contains_key(value)
        &&& forall|link: L, at: int, value: V| #[trigger]
            self.carries(link, at, value) && self.holders[value] != link ==> superseded_by(
                self.histories[link],
                at,
                self.frontier(value),
            )
        &&& forall|first: L, i: int, second: L, j: int, value: V|
            #[trigger] self.carries(first, i, value) && #[trigger] self.carries(second, j, value)
                && first != second ==> {
                ||| superseded_by(self.histories[first], i, self.histories[second][j].context)
                ||| superseded_by(self.histories[second], j, self.histories[first][i].context)
            }
    }

    /// The record at `at` in the history of `link` was there before the
    /// insertion of `(context, link, value)`: it is not the one that the
    /// insertion wrote.
    spec fn stood_before(self, context: C, inserted: L, value: V, link: L, at: int) -> bool {
        &&& self.histories.contains_key(link)
        &&& 0 <= at < self.histories[link].len()
        &&& self.after_insert(context, inserted, value).histories[link][at]
            == self.histories[link][at]
    }

    /// An insertion keeps values from being carried by two links at once.
    pub proof fn lemma_insert_keeps_one_link_at_a_time(self, context: C, link: L, value: V)
        requires
            self.wf(),
            self.one_link_at_a_time(),
        ensures
            self.after_insert(context, link, value).one_link_at_a_time(),
    {
        let after = self.after_insert(context, link, value);
        match self.commands(context, link, value) {
            Ok((link_command, _)) => {
                if !(link_command is NoChange) {
                    assert forall|other: L, at: int, held: V| #[trigger]
                        after.carries(other, at, held) implies after.holders.contains_key(held) by {
                        if self.stood_before(context, link, value, other, at) {
                            assert(self.carries(other, at, held));
                        }
                    }
                    assert forall|other: L, at: int, held: V| #[trigger]
                        after.carries(other, at, held) && after.holders[held]
                            != other implies superseded_by(
                        after.histories[other],
                        at,
                        after.frontier(held),
                    ) by {
                        self.lemma_superseded_after_insert(context, link, value, other, at, held);
                    }
                    assert forall|first: L, i: int, second: L, j: int, held: V|
                        #[trigger] after.carries(first, i, held) && #[trigger] after.carries(
                            second,
                            j,
                            held,
                        ) && first != second implies {
                        ||| superseded_by(
                            after.histories[first],
                            i,
                            after.histories[second][j].context,
                        )
                        ||| superseded_by(
                            after.histories[second],
                            j,
                            after.histories[first][i].context,
                        )
                    } by {
                        self.lemma_apart_after_insert(context, link, value, first, i, second, j, held);
                    }
                }
            },
            Err(_) => {},
        }
    }

    /// After an accepted insertion that writes, a record that carries a
    /// value in the history of a link other than the one that the value is
    /// indexed to is superseded by the frontier of the value.
    proof fn lemma_superseded_after_insert(
        self,
        context: C,
        inserted: L,
        value: V,
        link: L,
        at: int,
        held: V,
    )
        requires
            self.wf(),
            self.one_link_at_a_time(),
            self.commands(context, inserted, value) is Ok,
            !(self.commands(context, inserted, value).unwrap().0 is NoChange),
            self.after_insert(context, inserted, value).carries(link, at, held),
            self.after_insert(context, inserted, value).holders[held] != link,
        ensures
            superseded_by(
                self.after_insert(context, inserted, value).histories[link],
                at,
                self.after_insert(context, inserted, value).frontier(held),
            ),
    {
        let after = self.after_insert(context, inserted, value);
        assert(self.carries(link, at, held));
        let holder = self.holders[held];
        if held == value {
            // The value moves from `holder` to the link of the insertion,
            // whose history now ends at the context of the insertion.
            lemma_trichotomy(context, self.frontier(held));
            if link == holder {
                if at + 1 < self.histories[link].len() {
                    lemma_superseded_by_latest(self.histories[link], at, context);
                }
            } else {
                lemma_superseded_by_later(
                    self.histories[link],
                    at,
                    self.frontier(held),
                    context,
                );
            }
        } else {
            // The value stays indexed to `holder`, whose history may have
            // grown.
            self.lemma_latest_context_grows(context, inserted, value, holder);
            lemma_superseded_by_later(
                self.histories[link],
                at,
                self.frontier(held),
                after.frontier(held),
            );
        }
    }

    /// An insertion never moves the latest context of a history back.
    proof fn lemma_latest_context_grows(self, context: C, inserted: L, value: V, link: L)
        requires
            self.wf(),
            self.histories.contains_key(link),
        ensures
            self.after_insert(context, inserted, value).histories.contains_key(link),
            at_or_before(
                self.histories[link].last().context,
                self.after_insert(context, inserted, value).histories[link].last().context,
            ),
    {
        if self.commands(context, inserted, value) is Ok {
            lemma_trichotomy(context, self.histories[link].last().context);
        }
    }

    /// After an accepted insertion that writes, of two records that carry
    /// the same value in the histories of two links, one is superseded by
    /// the context of the other.
    proof fn lemma_apart_after_insert(
        self,
        context: C,
        inserted: L,
        value: V,
        first: L,
        i: int,
        second: L,
        j: int,
        held: V,
    )
        requires
            self.wf(),
            self.one_link_at_a_time(),
            self.commands(context, inserted, value) is Ok,
            !(self.commands(context, inserted, value).unwrap().0 is NoChange),
            self.after_insert(context, inserted, value).carries(first, i, held),
            self.after_insert(context, inserted, value).carries(second, j, held),
            first != second,
        ensures
            ({
                let after = self.after_insert(context, inserted, value);
                ||| superseded_by(after.histories[first], i, after.histories[second][j].context)
                ||| superseded_by(after.histories[second], j, after.histories[first][i].context)
            }),
    {
        let first_stood = self.stood_before(context, inserted, value, first, i);
        let second_stood = self.stood_before(context, inserted, value, second, j);
        if first_stood && second_stood {
            assert(self.carries(first, i, held));
            assert(self.carries(second, j, held));
        } else if second_stood {
            // The first record is the one that the insertion wrote.
            self.lemma_superseded_after_insert(context, inserted, value, second, j, held);
        } else if first_stood {
            self.lemma_superseded_after_insert(context, inserted, value, first, i, held);
        }
    }

    /// A plan that the map admits keeps values from being carried by two
    /// links at once.
    pub proof fn lemma_admitted_plan_keeps_one_link_at_a_time(
        self,
        link_command: LinkInsertionCommand<C, L, V>,
        value_command: ValueInsertionCommand<C, V>,
    )
        requires
            self.wf(),
            self.one_link_at_a_time(),
            self.admits(link_command, value_command),
        ensures
            self.apply_commands(link_command, value_command).one_link_at_a_time(),
    {
        match link_command {
            LinkInsertionCommand::NewLink { context, link, value } => {
                self.lemma_insert_keeps_one_link_at_a_time(context, link, value);
            },
            LinkInsertionCommand::Update { context, link, value } => {
                self.lemma_insert_keeps_one_link_at_a_time(context, link, value);
            },
            LinkInsertionCommand::Overwrite { context, link, value } => {
                self.lemma_insert_keeps_one_link_at_a_time(context, link, value);
            },
            LinkInsertionCommand::NoChange => {},
        }
    }

    /// Whatever was inserted, no value is carried by two links at once.
    pub proof fn lemma_always_one_link_at_a_time(insertions: Seq<(C, L, V)>)
        requires
            total_order::<C>(),
        ensures
            Self::empty().after_insertions(insertions).one_link_at_a_time(),
        decreases insertions.len(),
    {
        if insertions.len() > 0 {
            let (context, link, value) = insertions.last();
            Self::lemma_always_one_link_at_a_time(insertions.drop_last());
            Self::lemma_invariant_always_holds(insertions.drop_last());
            Self::empty().after_insertions(
                insertions.drop_last(),
            ).lemma_insert_keeps_one_link_at_a_time(context, link, value);
        }
    }

    /// The partial bijection at every context: where the records of two
    /// links that are in force at one context carry the same value, the two
    /// links are one.
    pub proof fn lemma_one_link_per_value_at_every_context(
        self,
        context: C,
        first: L,
        second: L,
        value: V,
    )
        requires
            self.wf(),
            self.one_link_at_a_time(),
            self.query(context, first) is Some,
            self.query(context, first).unwrap().value == Some(value),
            self.query(context, second) is Some,
            self.query(context, second).unwrap().value == Some(value),
        ensures
            first == second,
    {
        if first != second {
            lemma_as_of_is_greatest_at_or_before(self.histories[first], context);
            lemma_as_of_is_greatest_at_or_before(self.histories[second], context);
            let earlier = self.histories[first];
            let later = self.histories[second];
            let found = self.query(context, first).unwrap();
            let other = self.query(context, second).unwrap();
            let i = choose|at: int|
                {
                    &&& 0 <= at < earlier.len()
                    &&& #[trigger] earlier[at] == found
                    &&& at_or_before(found.context, context)
                    &&& forall|next: int|
                        at < next < earlier.len() ==> precedes(
                            context,
                            (#[trigger] earlier[next]).context,
                        )
                };
            let j = choose|at: int|
                {
                    &&& 0 <= at < later.len()
                    &&& #[trigger] later[at] == other
                    &&& at_or_before(other.context, context)
                    &&& forall|next: int|
                        at < next < later.len() ==> precedes(
                            context,
                            (#[trigger] later[next]).context,
                        )
                };
            assert(self.carries(first, i, value));
            assert(self.carries(second, j, value));
            if superseded_by(earlier, i, other.context) {
                lemma_precedes_then_at_or_before(context, earlier[i + 1].context, other.context);
                lemma_trichotomy(context, other.context);
            } else {
                lemma_precedes_then_at_or_before(context, later[j + 1].context, found.context);
                lemma_trichotomy(context, found.context);
            }
        }
    }
}

} // verus!
