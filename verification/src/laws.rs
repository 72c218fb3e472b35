use crate::model::{
    distinct_ids, first_position, has_id, ids_below, is_new, lemma_first_position,
    messages_within, remove_id, remove_ids, Entry, MailboxModel,
};
use vstd::prelude::*;

verus! {

/// One call on a mailbox that needs no authority.
pub enum Step {
    /// An attempt to add the message.
    Add(Seq<u8>),
    /// The deletion of a batch of ids.
    Delete(Seq<u32>),
}

/// The mailbox after one step.
pub open spec fn step(m: MailboxModel, s: Step) -> MailboxModel {
    match s {
        Step::Add(message) => m.try_add(message),
        Step::Delete(ids) => m.delete(ids),
    }
}

/// The mailbox after the steps of `steps`, taken in order.
pub open spec fn run(m: MailboxModel, steps: Seq<Step>) -> MailboxModel
    decreases steps.len(),
{
    if steps.len() == 0 {
        m
    } else {
        step(run(m, steps.drop_last()), steps.last())
    }
}

/// The identifiers that the additions among `steps` assign, in call order.
/// An addition that a full mailbox refuses assigns none.
pub open spec fn assigned(m: MailboxModel, steps: Seq<Step>) -> Seq<u32>
    decreases steps.len(),
{
    if steps.len() == 0 {
        Seq::empty()
    } else {
        let earlier = assigned(m, steps.drop_last());
        let before = run(m, steps.drop_last());
        match steps.last() {
            Step::Add(_) => if before.is_full() {
                earlier
            } else {
                earlier.push(before.next_index)
            },
            Step::Delete(_) => earlier,
        }
    }
}

/// The mailbox after attempts to add the messages of `messages`, in order.
pub open spec fn add_all(m: MailboxModel, messages: Seq<Seq<u8>>) -> MailboxModel
    decreases messages.len(),
{
    if messages.len() == 0 {
        m
    } else {
        add_all(m, messages.drop_last()).try_add(messages.last())
    }
}

/// Removing an id leaves the other entries in their order: what stays is
/// `values` with at most one entry taken out, the first that carries the id.
pub proof fn lemma_remove_id_keeps(values: Seq<Entry>, id: u32)
    ensures
        distinct_ids(values) ==> distinct_ids(remove_id(values, id)),
        distinct_ids(values) ==> !has_id(remove_id(values, id), id),
        forall|bound: u32| ids_below(values, bound) ==> ids_below(remove_id(values, id), bound),
        forall|limit: nat|
            messages_within(values, limit) ==> messages_within(remove_id(values, id), limit),
        forall|other: u32|
            other != id ==> has_id(remove_id(values, id), other) == has_id(values, other),
        has_id(values, id) ==> remove_id(values, id).len() == values.len() - 1,
        !has_id(values, id) ==> remove_id(values, id) == values,
{
    lemma_first_position(values, id);
    let at = first_position(values, id);
    let rest = remove_id(values, id);
    if at < values.len() {
        assert forall|j: int| 0 <= j < rest.len() implies #[trigger] rest[j] == values[if j < at {
            j
        } else {
            j + 1
        }] by {}
        if distinct_ids(values) {
            assert forall|i: int, j: int| 0 <= i < j < rest.len() implies (#[trigger] rest[i]).0 != (
            #[trigger] rest[j]).0 by {
                let a = if i < at { i } else { i + 1 };
                let b = if j < at { j } else { j + 1 };
                assert(values[a].0 != values[b].0);
            }
            if has_id(rest, id) {
                let j = choose|j: int| 0 <= j < rest.len() && (#[trigger] rest[j]).0 == id;
                let b = if j < at { j } else { j + 1 };
                assert(values[b].0 == id);
                if b > at {
                    assert(values[at].0 != values[b].0);
                }
            }
        }
        assert forall|bound: u32| ids_below(values, bound) implies ids_below(rest, bound) by {
            assert forall|j: int| 0 <= j < rest.len() implies (#[trigger] rest[j]).0 < bound by {
                let b = if j < at { j } else { j + 1 };
                assert(values[b].0 < bound);
            }
        }
        assert forall|limit: nat| messages_within(values, limit) implies messages_within(
            rest,
            limit,
        ) by {
            assert forall|j: int| 0 <= j < rest.len() implies (#[trigger] rest[j]).1.len()
                <= limit by {
                let b = if j < at { j } else { j + 1 };
                assert(values[b].1.len() <= limit);
            }
        }
        assert forall|other: u32| other != id implies has_id(rest, other) == has_id(
            values,
            other,
        ) by {
            if has_id(rest, other) {
                let j = choose|j: int| 0 <= j < rest.len() && (#[trigger] rest[j]).0 == other;
                let b = if j < at { j } else { j + 1 };
                assert(values[b].0 == other);
            }
            if has_id(values, other) {
                let b = choose|b: int| 0 <= b < values.len() && (#[trigger] values[b]).0 == other;
                let j = if b < at { b } else { b - 1 };
                assert(rest[j].0 == other);
            }
        }
    }
}

/// A batch of deletions keeps identifiers distinct and below any bound they
/// were below, and takes nothing in.
pub proof fn lemma_remove_ids_keeps(values: Seq<Entry>, ids: Seq<u32>)
    ensures
        distinct_ids(values) ==> distinct_ids(remove_ids(values, ids)),
        forall|bound: u32| ids_below(values, bound) ==> ids_below(remove_ids(values, ids), bound),
        forall|limit: nat|
            messages_within(values, limit) ==> messages_within(remove_ids(values, ids), limit),
        forall|id: u32| !has_id(values, id) ==> !has_id(remove_ids(values, ids), id),
        remove_ids(values, ids).len() <= values.len(),
    decreases ids.len(),
{
    if ids.len() > 0 {
        lemma_remove_ids_keeps(values, ids.drop_last());
        lemma_remove_id_keeps(remove_ids(values, ids.drop_last()), ids.last());
    }
}

/// Adding to a mailbox that is not full keeps its identifiers distinct and
/// below the counter.
pub proof fn law_add_keeps_consistency(m: MailboxModel, message: Seq<u8>)
    requires
        m.consistent(),
        !m.is_full(),
    ensures
        m.add(message).consistent(),
{
    let after = m.add(message);
    assert forall|i: int, j: int| 0 <= i < j < after.values.len() implies (
    #[trigger] after.values[i]).0 != (#[trigger] after.values[j]).0 by {
        assert(after.values[i] == m.values[i]);
        if j < m.values.len() {
            assert(after.values[j] == m.values[j]);
        }
    }
    assert forall|i: int| 0 <= i < after.values.len() implies (#[trigger] after.values[i]).0
        < after.next_index by {
        if i < m.values.len() {
            assert(after.values[i] == m.values[i]);
        }
    }
}

/// Deleting any batch keeps a mailbox's identifiers distinct and below the
/// counter, and leaves the counter where it was.
pub proof fn law_delete_keeps_consistency(m: MailboxModel, ids: Seq<u32>)
    requires
        m.consistent(),
    ensures
        m.delete(ids).consistent(),
        m.delete(ids).next_index == m.next_index,
{
    lemma_remove_ids_keeps(m.values, ids);
}

/// Append order: after any number of additions to a mailbox with room for
/// them, the messages read back are those held before, followed by the added
/// ones in call order, and the added entries carry consecutive identifiers
/// that start at the counter.
pub proof fn law_append_order(m: MailboxModel, messages: Seq<Seq<u8>>)
    requires
        m.next_index + messages.len() <= u32::MAX,
    ensures
        add_all(m, messages).messages() == m.messages() + messages,
        add_all(m, messages).next_index == m.next_index + messages.len(),
        add_all(m, messages).values.len() == m.values.len() + messages.len(),
        forall|k: int|
            0 <= k < messages.len() ==> #[trigger] add_all(m, messages).values[m.values.len() + k]
                == (((m.next_index + k) as u32, messages[k])),
    decreases messages.len(),
{
    if messages.len() == 0 {
        assert(add_all(m, messages).messages() =~= m.messages() + messages);
    } else {
        let head = messages.drop_last();
        law_append_order(m, head);
        let before = add_all(m, head);
        let after = add_all(m, messages);
        assert(after == before.add(messages.last()));
        let wanted = m.messages() + messages;
        assert forall|k: int| 0 <= k < wanted.len() implies after.messages()[k] == wanted[k] by {
            if k < before.values.len() {
                assert(after.values[k] == before.values[k]);
                assert(before.messages()[k] == (m.messages() + head)[k]);
                if k >= m.values.len() {
                    assert(head[k - m.values.len()] == messages[k - m.values.len()]);
                }
            }
        }
        assert(after.messages() =~= wanted);
        assert forall|k: int| 0 <= k < messages.len() implies #[trigger] after.values[m.values.len()
            + k] == (((m.next_index + k) as u32, messages[k])) by {
            if k < head.len() {
                assert(after.values[m.values.len() + k] == before.values[m.values.len() + k]);
                assert(head[k] == messages[k]);
            }
        }
    }
}

/// Identifiers are never reused: over any run of additions and deletions the
/// counter never goes down, every identifier assigned lies between the
/// counter before the run and the counter after it, and each identifier
/// assigned is greater than all assigned before it.
pub proof fn law_assigned_ids_increase(m: MailboxModel, steps: Seq<Step>)
    ensures
        m.next_index <= run(m, steps).next_index,
        forall|i: int|
            0 <= i < assigned(m, steps).len() ==> m.next_index <= #[trigger] assigned(m, steps)[i]
                < run(m, steps).next_index,
        forall|i: int, j: int|
            0 <= i < j < assigned(m, steps).len() ==> #[trigger] assigned(m, steps)[i]
                < #[trigger] assigned(m, steps)[j],
    decreases steps.len(),
{
    if steps.len() > 0 {
        let head = steps.drop_last();
        law_assigned_ids_increase(m, head);
        let before = run(m, head);
        let earlier = assigned(m, head);
        let all = assigned(m, steps);
        if steps.last() is Add && !before.is_full() {
            assert(all == earlier.push(before.next_index));
            assert(run(m, steps).next_index == before.next_index + 1);
            assert forall|i: int| 0 <= i < all.len() implies m.next_index <= #[trigger] all[i]
                < run(m, steps).next_index by {
                if i < earlier.len() {
                    assert(all[i] == earlier[i]);
                }
            }
            assert forall|i: int, j: int| 0 <= i < j < all.len() implies #[trigger] all[i]
                < #[trigger] all[j] by {
                assert(all[i] == earlier[i]);
                if j < earlier.len() {
                    assert(all[j] == earlier[j]);
                }
            }
        } else {
            assert(all == earlier);
            assert(run(m, steps).next_index == before.next_index);
        }
    }
}

/// A run of additions and deletions that starts from a mailbox with distinct
/// identifiers below its counter ends in such a mailbox.
pub proof fn law_run_keeps_consistency(m: MailboxModel, steps: Seq<Step>)
    requires
        m.consistent(),
    ensures
        run(m, steps).consistent(),
    decreases steps.len(),
{
    if steps.len() > 0 {
        law_run_keeps_consistency(m, steps.drop_last());
        let before = run(m, steps.drop_last());
        match steps.last() {
            Step::Add(message) => {
                if !before.is_full() {
                    law_add_keeps_consistency(before, message);
                }
            },
            Step::Delete(ids) => {
                law_delete_keeps_consistency(before, ids);
            },
        }
    }
}

/// The length limit holds on: adding a message within the limit, and
/// deleting any batch, leave no stored message longer than the limit if none
/// was before.
pub proof fn law_message_limit_is_kept(
    m: MailboxModel,
    limit: nat,
    message: Seq<u8>,
    ids: Seq<u32>,
)
    requires
        messages_within(m.values, limit),
        message.len() <= limit,
    ensures
        messages_within(m.try_add(message).values, limit),
        messages_within(m.delete(ids).values, limit),
{
    lemma_remove_ids_keeps(m.values, ids);
    let after = m.add(message);
    assert forall|i: int| 0 <= i < after.values.len() implies (#[trigger] after.values[i]).1.len()
        <= limit by {
        if i < m.values.len() {
            assert(after.values[i] == m.values[i]);
        }
    }
}

/// Within a batch, a later occurrence of an id is passed over: in a mailbox
/// with distinct identifiers, once the batch has deleted an id, deleting it
/// again at any later place of the batch changes nothing.
pub proof fn law_repeated_id_is_passed_over(m: MailboxModel, ids: Seq<u32>, p: int, q: int)
    requires
        m.ids_distinct(),
        0 <= p < q < ids.len(),
        ids[p] == ids[q],
    ensures
        m.delete(ids.take(q + 1)) == m.delete(ids.take(q)),
{
    let id = ids[p];
    let head = ids.take(p + 1);
    let between = ids.subrange(p + 1, q);
    assert(head.drop_last() =~= ids.take(p));
    lemma_remove_ids_keeps(m.values, ids.take(p));
    lemma_remove_id_keeps(remove_ids(m.values, ids.take(p)), id);
    let cleared = remove_ids(m.values, head);
    assert(!has_id(cleared, id));
    lemma_remove_ids_split(m.values, head, between);
    assert(head + between =~= ids.take(q));
    lemma_remove_ids_keeps(cleared, between);
    assert(ids.take(q + 1).drop_last() =~= ids.take(q));
    lemma_remove_id_keeps(remove_ids(m.values, ids.take(q)), id);
}

/// Deleting a batch is deleting its first part and then the rest.
pub proof fn lemma_remove_ids_split(values: Seq<Entry>, first: Seq<u32>, rest: Seq<u32>)
    ensures
        remove_ids(values, first + rest) == remove_ids(remove_ids(values, first), rest),
    decreases rest.len(),
{
    if rest.len() == 0 {
        assert(first + rest =~= first);
    } else {
        lemma_remove_ids_split(values, first, rest.drop_last());
        assert((first + rest).drop_last() =~= first + rest.drop_last());
    }
}

/// Deleting ids that the mailbox does not hold changes nothing.
pub proof fn law_delete_absent_is_noop(m: MailboxModel, ids: Seq<u32>)
    requires
        forall|k: int| 0 <= k < ids.len() ==> !has_id(m.values, #[trigger] ids[k]),
    ensures
        m.delete(ids) == m,
    decreases ids.len(),
{
    if ids.len() > 0 {
        law_delete_absent_is_noop(m, ids.drop_last());
        lemma_remove_id_keeps(m.values, ids.last());
    }
}

/// In a mailbox with distinct identifiers, an id that stands twice in a row
/// at the end of a batch is removed once: the second occurrence finds nothing
/// left to remove.
pub proof fn law_delete_twice_removes_once(m: MailboxModel, ids: Seq<u32>, id: u32)
    requires
        m.ids_distinct(),
    ensures
        m.delete(ids.push(id).push(id)) == m.delete(ids.push(id)),
        !has_id(m.delete(ids.push(id)).values, id),
{
    let once = ids.push(id);
    let twice = once.push(id);
    assert(twice.drop_last() =~= once);
    assert(once.drop_last() =~= ids);
    lemma_remove_ids_keeps(m.values, ids);
    lemma_remove_id_keeps(remove_ids(m.values, ids), id);
    lemma_remove_id_keeps(remove_ids(m.values, once), id);
}

/// A migration takes in nothing from a payload whose ids the mailbox holds
/// already.
pub proof fn lemma_nothing_new(values: Seq<Entry>, new_messages: Seq<Entry>)
    requires
        forall|k: int| 0 <= k < new_messages.len() ==> has_id(values, (#[trigger] new_messages[k]).0),
    ensures
        new_messages.filter(is_new(values)) == Seq::<Entry>::empty(),
    decreases new_messages.len(),
{
    reveal(Seq::filter);
    if new_messages.len() > 0 {
        lemma_nothing_new(values, new_messages.drop_last());
        assert(!is_new(values)(new_messages.last()));
    }
}

/// Migration is idempotent for ids that are present: where the mailbox holds
/// every id of the payload, migrating once, or twice with the same payload,
/// leaves the stored entries as they were; only the counter is set, each time
/// to the value given.
pub proof fn law_migrate_present_ids(
    m: MailboxModel,
    first_index: u32,
    second_index: u32,
    new_messages: Seq<Entry>,
)
    requires
        forall|k: int|
            0 <= k < new_messages.len() ==> has_id(m.values, (#[trigger] new_messages[k]).0),
    ensures
        m.migrate(first_index, new_messages).values == m.values,
        m.migrate(first_index, new_messages).next_index == first_index,
        m.migrate(first_index, new_messages).migrate(second_index, new_messages).values
            == m.values,
        m.migrate(first_index, new_messages).migrate(second_index, new_messages).next_index
            == second_index,
{
    lemma_nothing_new(m.values, new_messages);
    let once = m.migrate(first_index, new_messages);
    assert(once.values =~= m.values);
    assert(once.migrate(second_index, new_messages).values =~= m.values);
}

/// A migration can be retried: after one migration the mailbox holds every id
/// of the payload, so migrating the same payload again takes nothing in.
pub proof fn law_migrate_retry_takes_nothing(
    m: MailboxModel,
    first_index: u32,
    second_index: u32,
    new_messages: Seq<Entry>,
)
    ensures
        forall|k: int|
            0 <= k < new_messages.len() ==> has_id(
                m.migrate(first_index, new_messages).values,
                (#[trigger] new_messages[k]).0,
            ),
        m.migrate(first_index, new_messages).migrate(second_index, new_messages).values
            == m.migrate(first_index, new_messages).values,
{
    broadcast use vstd::seq_lib::group_filter_ensures;

    let once = m.migrate(first_index, new_messages);
    let taken = new_messages.filter(is_new(m.values));
    assert forall|k: int| 0 <= k < new_messages.len() implies has_id(
        once.values,
        (#[trigger] new_messages[k]).0,
    ) by {
        let id = new_messages[k].0;
        if has_id(m.values, id) {
            let i = choose|i: int| 0 <= i < m.values.len() && (#[trigger] m.values[i]).0 == id;
            assert(once.values[i] == m.values[i]);
        } else {
            assert(is_new(m.values)(new_messages[k]));
            assert(taken.contains(new_messages[k]));
            let j = choose|j: int| 0 <= j < taken.len() && taken[j] == new_messages[k];
            assert(once.values[m.values.len() + j] == taken[j]);
        }
    }
    lemma_nothing_new(once.values, new_messages);
    assert(once.migrate(second_index, new_messages).values =~= once.values);
}

/// Migration keeps what was there: the entries held before the call stay in
/// place, and every entry taken in carries an id that was not held before.
pub proof fn law_migrate_keeps_existing(m: MailboxModel, next_index: u32, new_messages: Seq<Entry>)
    ensures
        m.migrate(next_index, new_messages).values.len() >= m.values.len(),
        m.migrate(next_index, new_messages).values.take(m.values.len() as int) == m.values,
        forall|j: int|
            m.values.len() <= j < m.migrate(next_index, new_messages).values.len() ==> !has_id(
                m.values,
                (#[trigger] m.migrate(next_index, new_messages).values[j]).0,
            ),
{
    let taken = new_messages.filter(is_new(m.values));
    let after = m.migrate(next_index, new_messages).values;
    broadcast use vstd::seq_lib::group_filter_ensures;
    assert(after.take(m.values.len() as int) =~= m.values);
    assert forall|j: int| m.values.len() <= j < after.len() implies !has_id(
        m.values,
        (#[trigger] after[j]).0,
    ) by {
        assert(after[j] == taken[j - m.values.len()]);
        assert(is_new(m.values)(taken[j - m.values.len()]));
    }
}

} // verus!
