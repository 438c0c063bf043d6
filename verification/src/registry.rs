//! Registries: the append-only, context-ordered history of one link.

use crate::order::{
    at_or_before, compare, lemma_precedes_then_at_or_before, lemma_precedes_transitive,
    lemma_trichotomy, precedes, total_order, Chronology,
};
use crate::record::ContextRecord;
use vstd::prelude::*;

verus! {

/// Every record of `records` comes strictly later than the ones before it.
pub open spec fn chronological<C: Ord, L, V>(records: Seq<ContextRecord<C, L, V>>) -> bool {
    forall|i: int, j: int|
        0 <= i < j < records.len() ==> precedes(
            (#[trigger] records[i]).context,
            (#[trigger] records[j]).context,
        )
}

/// The record of `records` that is in force at `context`: the latest one
/// whose context is `context` or earlier, if there is one.
pub open spec fn as_of<C: Ord, L, V>(records: Seq<ContextRecord<C, L, V>>, context: C) -> Option<
    ContextRecord<C, L, V>,
>
    decreases records.len(),
{
    if records.len() == 0 {
        None
    } else if at_or_before(records.last().context, context) {
        Some(records.last())
    } else {
        as_of(records.drop_last(), context)
    }
}

/// `records` after `record` has been written at the end of it: a record at
/// the context of the last one takes its place, any other is appended.
pub open spec fn with_record<C, L, V>(
    records: Seq<ContextRecord<C, L, V>>,
    record: ContextRecord<C, L, V>,
) -> Seq<ContextRecord<C, L, V>> {
    if records.len() > 0 && records.last().context == record.context {
        records.drop_last().push(record)
    } else {
        records.push(record)
    }
}

/// A chronological history stays chronological when a record is appended
/// whose context comes after the latest one.
pub proof fn lemma_append_keeps_chronological<C: Ord, L, V>(
    records: Seq<ContextRecord<C, L, V>>,
    record: ContextRecord<C, L, V>,
)
    requires
        total_order::<C>(),
        chronological(records),
        records.len() > 0 ==> precedes(records.last().context, record.context),
    ensures
        chronological(records.push(record)),
{
    let longer = records.push(record);
    assert forall|i: int, j: int| 0 <= i < j < longer.len() implies precedes(
        (#[trigger] longer[i]).context,
        (#[trigger] longer[j]).context,
    ) by {
        if j == records.len() && i < records.len() - 1 {
            lemma_precedes_transitive(
                records[i].context,
                records.last().context,
                record.context,
            );
        }
    }
}

/// A chronological history stays chronological when its latest record is
/// replaced by one at the same context.
pub proof fn lemma_replace_keeps_chronological<C: Ord, L, V>(
    records: Seq<ContextRecord<C, L, V>>,
    record: ContextRecord<C, L, V>,
)
    requires
        chronological(records),
        records.len() > 0,
        records.last().context == record.context,
    ensures
        chronological(records.drop_last().push(record)),
{
}

/// In a chronological history, every record at or after position `from`
/// comes after `context` as soon as the one at `from` does.
proof fn lemma_later_records_are_after<C: Ord, L, V>(
    records: Seq<ContextRecord<C, L, V>>,
    context: C,
    from: int,
    at: int,
)
    requires
        total_order::<C>(),
        chronological(records),
        0 <= from <= at < records.len(),
        precedes(context, records[from].context),
    ensures
        precedes(context, records[at].context),
{
    if from < at {
        lemma_precedes_transitive(context, records[from].context, records[at].context);
    }
}

/// In a chronological history, the record in force at `context` is the one
/// at position `at` when that record is at or before `context` and every
/// later record comes after `context`.
pub proof fn lemma_as_of_found<C: Ord, L, V>(
    records: Seq<ContextRecord<C, L, V>>,
    context: C,
    at: int,
)
    requires
        total_order::<C>(),
        chronological(records),
        0 <= at < records.len(),
        at_or_before(records[at].context, context),
        at + 1 < records.len() ==> precedes(context, records[at + 1].context),
    ensures
        as_of(records, context) == Some(records[at]),
    decreases records.len(),
{
    if at + 1 < records.len() {
        lemma_later_records_are_after(records, context, at + 1, records.len() - 1);
        lemma_trichotomy(records.last().context, context);
        lemma_as_of_found(records.drop_last(), context, at);
    }
}

/// In a chronological history, no record is in force at a context that
/// comes before the first record.
pub proof fn lemma_as_of_before_first<C: Ord, L, V>(
    records: Seq<ContextRecord<C, L, V>>,
    context: C,
)
    requires
        total_order::<C>(),
        chronological(records),
        records.len() > 0 ==> precedes(context, records[0].context),
    ensures
        as_of(records, context) is None,
    decreases records.len(),
{
    if records.len() > 0 {
        lemma_later_records_are_after(records, context, 0, records.len() - 1);
        lemma_trichotomy(records.last().context, context);
        lemma_as_of_before_first(records.drop_last(), context);
    }
}

/// What `as_of` returns in a chronological history: a record of the history
/// that is at or before `context` while all records after it come after
/// `context`; or nothing, where the history is empty or starts after `context`.
pub proof fn lemma_as_of_is_greatest_at_or_before<C: Ord, L, V>(
    records: Seq<ContextRecord<C, L, V>>,
    context: C,
)
    requires
        total_order::<C>(),
        chronological(records),
    ensures
        match as_of(records, context) {
            Some(record) => exists|at: int|
                {
                    &&& 0 <= at < records.len()
                    &&& #[trigger] records[at] == record
                    &&& at_or_before(record.context, context)
                    &&& forall|later: int|
                        at < later < records.len() ==> precedes(
                            context,
                            (#[trigger] records[later]).context,
                        )
                },
            None => records.len() == 0 || precedes(context, records[0].context),
        },
    decreases records.len(),
{
    if records.len() > 0 && !at_or_before(records.last().context, context) {
        lemma_trichotomy(records.last().context, context);
        let shorter = records.drop_last();
        lemma_as_of_is_greatest_at_or_before(shorter, context);
        if let Some(record) = as_of(shorter, context) {
            let at = choose|at: int|
                {
                    &&& 0 <= at < shorter.len()
                    &&& #[trigger] shorter[at] == record
                    &&& at_or_before(record.context, context)
                    &&& forall|later: int|
                        at < later < shorter.len() ==> precedes(
                            context,
                            (#[trigger] shorter[later]).context,
                        )
                };
            assert forall|later: int| at < later < records.len() implies precedes(
                context,
                (#[trigger] records[later]).context,
            ) by {
                if later < shorter.len() {
                    assert(shorter[later] == records[later]);
                }
            }
        }
    }
}

/// Writing a record at a later context changes no answer for an earlier one.
pub proof fn lemma_as_of_unchanged_by_later_record<C: Ord, L, V>(
    records: Seq<ContextRecord<C, L, V>>,
    record: ContextRecord<C, L, V>,
    context: C,
)
    requires
        total_order::<C>(),
        precedes(context, record.context),
    ensures
        as_of(records.push(record), context) == as_of(records, context),
{
    lemma_trichotomy(record.context, context);
    assert(records.push(record).drop_last() == records);
}

/// Replacing the last record by one at a later context than the one asked
/// for changes no answer for a context before the replaced record.
pub proof fn lemma_as_of_unchanged_by_replaced_last<C: Ord, L, V>(
    records: Seq<ContextRecord<C, L, V>>,
    record: ContextRecord<C, L, V>,
    context: C,
)
    requires
        total_order::<C>(),
        records.len() > 0,
        precedes(context, records.last().context),
        precedes(context, record.context),
    ensures
        as_of(records.drop_last().push(record), context) == as_of(records, context),
{
    lemma_trichotomy(record.context, context);
    lemma_trichotomy(records.last().context, context);
    assert(records.drop_last().push(record).drop_last() == records.drop_last());
}

/// The version chain of one link: its records in the order of their
/// contexts. It is never empty.
#[derive(Debug)]
pub struct ContextRegistry<C, L, V> {
    records: Vec<ContextRecord<C, L, V>>,
}

impl<C: Ord + Copy, L: Copy, V: Copy> ContextRegistry<C, L, V> {
    /// The records of the registry, earliest first.
    pub closed spec fn history(&self) -> Seq<ContextRecord<C, L, V>> {
        self.records@
    }

    /// The registry holds at least one record, its records are in
    /// chronological order, and contexts are totally ordered.
    pub open spec fn wf(&self) -> bool {
        &&& total_order::<C>()
        &&& self.history().len() > 0
        &&& chronological(self.history())
    }

    /// Creates the registry of `link`, seeded with the record that gives it
    /// `value` at `context`.
    pub fn new(context: C, link: L, value: V) -> (registry: Self)
        requires
            total_order::<C>(),
        ensures
            registry.wf(),
            registry.history() == seq![ContextRecord::some(context, link, value)],
    {
        let record = ContextRecord::new_some(&context, &link, &value);
        let mut records: Vec<ContextRecord<C, L, V>> = Vec::new();
        records.push(record);
        ContextRegistry { records }
    }

    /// Writes `record` at `context`, which must not come before the latest
    /// recorded context. The record is stored under `context`, whatever
    /// context it names itself. A record at the latest context replaces the
    /// one that was there, which is returned.
    pub fn insert(&mut self, context: C, record: ContextRecord<C, L, V>) -> (replaced: Option<
        ContextRecord<C, L, V>,
    >)
        requires
            old(self).wf(),
            at_or_before(old(self).history().last().context, context),
        ensures
            final(self).wf(),
            final(self).history() == with_record(
                old(self).history(),
                ContextRecord { context, link: record.link, value: record.value },
            ),
            replaced == if old(self).history().last().context == context {
                Some(old(self).history().last())
            } else {
                None
            },
    {
        let last: usize = self.records.len() - 1;
        let latest = self.records[last];
        let stored = ContextRecord { context, link: record.link, value: record.value };
        match compare(&context, &latest.context) {
            Chronology::Same => {
                self.records[last] = stored;
                proof {
                    lemma_replace_keeps_chronological(old(self).records@, stored);
                }
                Some(latest)
            },
            _ => {
                self.records.push(stored);
                proof {
                    lemma_trichotomy(context, latest.context);
                    lemma_append_keeps_chronological(old(self).records@, stored);
                }
                None
            },
        }
    }

    /// Where the record stands that was in force at `context`: the position
    /// of the last record that is at or before `context`, if there is one.
    fn position_as_of(&self, context: &C) -> (position: Option<usize>)
        requires
            self.wf(),
        ensures
            match position {
                Some(at) => {
                    &&& at < self.history().len()
                    &&& at_or_before(self.history()[at as int].context, *context)
                    &&& at + 1 < self.history().len() ==> precedes(
                        *context,
                        self.history()[at + 1].context,
                    )
                },
                None => precedes(*context, self.history()[0].context),
            },
    {
        // Invariant of the search: every record before `low` is at or before
        // `context`, every record from `high` on comes after it.
        let mut low: usize = 0;
        let mut high: usize = self.records.len();
        while low < high
            invariant
                self.wf(),
                0 <= low <= high <= self.records@.len(),
                forall|i: int|
                    0 <= i < low ==> at_or_before(
                        (#[trigger] self.records@[i]).context,
                        *context,
                    ),
                forall|i: int|
                    high <= i < self.records@.len() ==> precedes(
                        *context,
                        (#[trigger] self.records@[i]).context,
                    ),
            decreases high - low,
        {
            let middle: usize = low + (high - low) / 2;
            match compare(&self.records[middle].context, context) {
                Chronology::Later => {
                    proof {
                        lemma_trichotomy(self.records@[middle as int].context, *context);
                        assert forall|i: int| middle <= i < self.records@.len() implies precedes(
                            *context,
                            (#[trigger] self.records@[i]).context,
                        ) by {
                            lemma_later_records_are_after(self.records@, *context, middle as int, i);
                        }
                    }
                    high = middle;
                },
                _ => {
                    proof {
                        assert forall|i: int| 0 <= i < middle + 1 implies at_or_before(
                            (#[trigger] self.records@[i]).context,
                            *context,
                        ) by {
                            if i < middle {
                                lemma_precedes_then_at_or_before(
                                    self.records@[i].context,
                                    self.records@[middle as int].context,
                                    *context,
                                );
                            }
                        }
                    }
                    low = middle + 1;
                },
            }
        }
        if low == 0 {
            None
        } else {
            Some(low - 1)
        }
    }

    /// The record that was in force at `context`: the one with the greatest
    /// context that is `context` or earlier. There is none where `context`
    /// comes before the first record.
    pub fn query(&self, context: &C) -> (found: Option<&ContextRecord<C, L, V>>)
        requires
            self.wf(),
        ensures
            found == match as_of(self.history(), *context) {
                Some(record) => Some(&record),
                None => None,
            },
    {
        match self.position_as_of(context) {
            Some(at) => {
                proof {
                    lemma_as_of_found(self.records@, *context, at as int);
                }
                Some(&self.records[at])
            },
            None => {
                proof {
                    lemma_as_of_before_first(self.records@, *context);
                }
                None
            },
        }
    }

    /// The value of the record at exactly `context`, to be changed in
    /// place. Nothing else of a stored record can be changed, so the order
    /// of the history stays as it is.
    pub fn get_mut(&mut self, context: &C) -> (slot: Option<&mut Option<V>>)
        requires
            old(self).wf(),
        ensures
            final(self).wf(),
            match slot {
                Some(value) => exists|at: int|
                    {
                        &&& 0 <= at < old(self).history().len()
                        &&& (#[trigger] old(self).history()[at]).context == *context
                        &&& *value == old(self).history()[at].value
                        &&& final(self).history() == old(self).history().update(
                            at,
                            ContextRecord {
                                context: old(self).history()[at].context,
                                link: old(self).history()[at].link,
                                value: *final(value),
                            },
                        )
                    },
                None => {
                    &&& final(self).history() == old(self).history()
                    &&& forall|at: int|
                        0 <= at < old(self).history().len() ==> (#[trigger] old(
                            self,
                        ).history()[at]).context != *context
                },
            },
    {
        let found = self.position_as_of(context);
        match found {
            Some(at) => match compare(&self.records[at].context, context) {
                Chronology::Same => {
                    Some(&mut self.records[at].value)
                },
                _ => {
                    proof {
                        self.lemma_no_record_at(*context, at as int);
                    }
                    None
                },
            },
            None => {
                proof {
                    self.lemma_no_record_before_first(*context);
                }
                None
            },
        }
    }

    /// No record is at `context` where the record at `at` comes before it
    /// and the next one after it.
    proof fn lemma_no_record_at(&self, context: C, at: int)
        requires
            self.wf(),
            0 <= at < self.history().len(),
            precedes(self.history()[at].context, context),
            at + 1 < self.history().len() ==> precedes(context, self.history()[at + 1].context),
        ensures
            forall|other: int|
                0 <= other < self.history().len() ==> (#[trigger] self.history()[other]).context
                    != context,
    {
        assert forall|other: int| 0 <= other < self.history().len() implies (
        #[trigger] self.history()[other]).context != context by {
            let found = self.history()[other].context;
            lemma_trichotomy(found, context);
            if other < at {
                lemma_precedes_transitive(found, self.history()[at].context, context);
            } else if other > at {
                lemma_later_records_are_after(self.history(), context, at + 1, other);
            }
        }
    }

    /// No record is at a context that comes before the first record.
    proof fn lemma_no_record_before_first(&self, context: C)
        requires
            self.wf(),
            precedes(context, self.history()[0].context),
        ensures
            forall|other: int|
                0 <= other < self.history().len() ==> (#[trigger] self.history()[other]).context
                    != context,
    {
        assert forall|other: int| 0 <= other < self.history().len() implies (
        #[trigger] self.history()[other]).context != context by {
            lemma_later_records_are_after(self.history(), context, 0, other);
            lemma_trichotomy(self.history()[other].context, context);
        }
    }

    /// The latest context of the registry together with the record at it.
    pub fn last_key_value(&self) -> (latest: (&C, &ContextRecord<C, L, V>))
        requires
            self.wf(),
        ensures
            *latest.0 == self.history().last().context,
            *latest.1 == self.history().last(),
    {
        let record = &self.records[self.records.len() - 1];
        (&record.context, record)
    }

    /// The latest record, which says what the link is associated with now.
    pub fn last_record(&self) -> (record: &ContextRecord<C, L, V>)
        requires
            self.wf(),
        ensures
            *record == self.history().last(),
    {
        self.last_key_value().1
    }

    /// The context of the latest record.
    pub fn context(&self) -> (context: C)
        requires
            self.wf(),
        ensures
            context == self.history().last().context,
    {
        self.last_record().context
    }

    /// The link of the latest record.
    pub fn link(&self) -> (link: L)
        requires
            self.wf(),
        ensures
            link == self.history().last().link,
    {
        self.last_record().link
    }

    /// The value of the latest record: what the link is associated with now.
    pub fn value(&self) -> (value: Option<V>)
        requires
            self.wf(),
        ensures
            value == self.history().last().value,
    {
        self.last_record().value
    }
}

} // verus!
