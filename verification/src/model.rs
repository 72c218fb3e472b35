use vstd::prelude::*;

verus! {

/// One stored entry: the identifier and the message's bytes.
pub type Entry = (u32, Seq<u8>);

/// The mailbox of one account as a mathematical value.
pub struct MailboxModel {
    /// The stored entries, oldest surviving entry first.
    pub values: Seq<Entry>,
    /// The next identifier that `add` will assign.
    pub next_index: u32,
}

/// The position of the first entry of `values` that carries `id`, or the
/// length of `values` where no entry does.
pub open spec fn first_position(values: Seq<Entry>, id: u32) -> int
    decreases values.len(),
{
    if values.len() == 0 {
        0
    } else if values[0].0 == id {
        0
    } else {
        1 + first_position(values.drop_first(), id)
    }
}

/// Whether some entry of `values` carries `id`.
pub open spec fn has_id(values: Seq<Entry>, id: u32) -> bool {
    exists|i: int| 0 <= i < values.len() && (#[trigger] values[i]).0 == id
}

/// `values` without its first entry that carries `id`; `values` itself where
/// no entry does.
pub open spec fn remove_id(values: Seq<Entry>, id: u32) -> Seq<Entry> {
    let at = first_position(values, id);
    if at < values.len() {
        values.remove(at)
    } else {
        values
    }
}

/// `values` after removing the ids of `ids` one after another, in order.
pub open spec fn remove_ids(values: Seq<Entry>, ids: Seq<u32>) -> Seq<Entry>
    decreases ids.len(),
{
    if ids.len() == 0 {
        values
    } else {
        remove_id(remove_ids(values, ids.drop_last()), ids.last())
    }
}

/// No identifier occurs twice in `values`.
pub open spec fn distinct_ids(values: Seq<Entry>) -> bool {
    forall|i: int, j: int|
        0 <= i < j < values.len() ==> (#[trigger] values[i]).0 != (#[trigger] values[j]).0
}

/// Every identifier in `values` is below `bound`.
pub open spec fn ids_below(values: Seq<Entry>, bound: u32) -> bool {
    forall|i: int| 0 <= i < values.len() ==> (#[trigger] values[i]).0 < bound
}

/// No message in `values` is longer than `limit` bytes.
pub open spec fn messages_within(values: Seq<Entry>, limit: nat) -> bool {
    forall|i: int| 0 <= i < values.len() ==> (#[trigger] values[i]).1.len() <= limit
}

/// The test that a migration puts to an incoming entry: that `values` holds
/// no entry with its id.
pub open spec fn is_new(values: Seq<Entry>) -> spec_fn(Entry) -> bool {
    |e: Entry| !has_id(values, e.0)
}

impl MailboxModel {
    /// The mailbox of an account that was never touched.
    pub open spec fn empty() -> MailboxModel {
        MailboxModel { values: Seq::empty(), next_index: 0 }
    }

    /// Whether the counter has reached the largest identifier.
    pub open spec fn is_full(self) -> bool {
        self.next_index == u32::MAX
    }

    /// The messages in stored order.
    pub open spec fn messages(self) -> Seq<Seq<u8>> {
        self.values.map_values(|e: Entry| e.1)
    }

    /// The mailbox after one attempt to add `message`: a full mailbox stays
    /// as it is.
    pub open spec fn try_add(self, message: Seq<u8>) -> MailboxModel {
        if self.is_full() {
            self
        } else {
            self.add(message)
        }
    }

    /// The mailbox after `message` was appended under the counter's value.
    /// Meant for a mailbox that is not full.
    pub open spec fn add(self, message: Seq<u8>) -> MailboxModel {
        MailboxModel {
            values: self.values.push((self.next_index, message)),
            next_index: (self.next_index + 1) as u32,
        }
    }

    /// The mailbox after the batch `ids` was deleted. The counter stays.
    pub open spec fn delete(self, ids: Seq<u32>) -> MailboxModel {
        MailboxModel { values: remove_ids(self.values, ids), next_index: self.next_index }
    }

    /// The mailbox after a migration: the entries of `new_messages` whose id
    /// the mailbox did not hold before are appended in the given order, and
    /// the counter becomes `next_index` whatever it was.
    pub open spec fn migrate(self, next_index: u32, new_messages: Seq<Entry>) -> MailboxModel {
        MailboxModel {
            values: self.values + new_messages.filter(is_new(self.values)),
            next_index,
        }
    }

    /// No identifier is stored twice.
    pub open spec fn ids_distinct(self) -> bool {
        distinct_ids(self.values)
    }

    /// Every stored identifier is below the counter.
    pub open spec fn ids_below_counter(self) -> bool {
        ids_below(self.values, self.next_index)
    }

    /// What `add` and `delete` keep of a mailbox: distinct identifiers, all
    /// below the counter. A migration may break it.
    pub open spec fn consistent(self) -> bool {
        self.ids_distinct() && self.ids_below_counter()
    }
}

/// Where `first_position` points there is an entry with `id`, before it there
/// is none, and it points past the end exactly when no entry has `id`.
pub proof fn lemma_first_position(values: Seq<Entry>, id: u32)
    ensures
        0 <= first_position(values, id) <= values.len(),
        first_position(values, id) < values.len() ==> values[first_position(values, id)].0 == id,
        forall|i: int| 0 <= i < first_position(values, id) ==> (#[trigger] values[i]).0 != id,
        first_position(values, id) < values.len() <==> has_id(values, id),
    decreases values.len(),
{
    if values.len() == 0 {
    } else if values[0].0 == id {
    } else {
        let rest = values.drop_first();
        lemma_first_position(rest, id);
        let at = first_position(rest, id);
        assert forall|i: int| 0 <= i < 1 + at implies (#[trigger] values[i]).0 != id by {
            if i > 0 {
                assert(values[i] == rest[i - 1]);
            }
        }
        if at < rest.len() {
            assert(values[1 + at] == rest[at]);
        }
        if has_id(values, id) {
            let i = choose|i: int| 0 <= i < values.len() && (#[trigger] values[i]).0 == id;
            assert(rest[i - 1] == values[i]);
        }
    }
}

/// For any `at` that holds `id` with no earlier entry holding it,
/// `first_position` is `at`.
pub proof fn lemma_first_position_is(values: Seq<Entry>, id: u32, at: int)
    requires
        0 <= at <= values.len(),
        at < values.len() ==> values[at].0 == id,
        forall|i: int| 0 <= i < at ==> (#[trigger] values[i]).0 != id,
    ensures
        first_position(values, id) == at,
{
    lemma_first_position(values, id);
    let p = first_position(values, id);
    if p < at {
        assert(values[p].0 != id);
    }
}

/// Filtering one element more either appends that element or changes nothing.
pub proof fn lemma_filter_take_step(s: Seq<Entry>, pred: spec_fn(Entry) -> bool, k: int)
    requires
        0 <= k < s.len(),
    ensures
        s.take(k + 1).filter(pred) == if pred(s[k]) {
            s.take(k).filter(pred).push(s[k])
        } else {
            s.take(k).filter(pred)
        },
{
    reveal(Seq::filter);
    assert(s.take(k + 1).drop_last() =~= s.take(k));
}

} // verus!
