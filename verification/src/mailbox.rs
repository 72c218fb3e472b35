use crate::error::Error;
use crate::model::{
    first_position, has_id, is_new, lemma_filter_take_step, lemma_first_position,
    lemma_first_position_is, remove_ids, Entry, MailboxModel,
};
use vstd::prelude::*;

verus! {

/// The identifier of a message within one account's mailbox.
pub type MessageId = u32;

/// A message: bytes that the mailbox never looks into.
pub type Message = Vec<u8>;

/// The longest message that may be added, in bytes.
pub const MAX_MESSAGE_LENGTH: usize = 100_000;

/// The largest batch of ids that may be deleted at a time.
pub const MAX_DELETE_MESSAGES: usize = 10_000;

/// Stored entries as mathematical values: each message by its bytes.
pub open spec fn entries_view(values: Seq<(MessageId, Message)>) -> Seq<Entry> {
    values.map_values(|e: (MessageId, Message)| (e.0, e.1@))
}

/// Messages as mathematical values.
pub open spec fn messages_view(messages: Seq<Message>) -> Seq<Seq<u8>> {
    messages.map_values(|m: Message| m@)
}

/// The mailbox of one account: the two rows that a host keeps for it.
pub struct Mailbox {
    /// The stored `(id, message)` pairs, oldest surviving entry first.
    pub values: Vec<(MessageId, Message)>,
    /// The next identifier to assign.
    pub next_index: MessageId,
}

impl View for Mailbox {
    type V = MailboxModel;

    open spec fn view(&self) -> MailboxModel {
        MailboxModel { values: entries_view(self.values@), next_index: self.next_index }
    }
}

/// The index of the first of the leading `limit` entries of `values` that
/// carries `id`, if there is one.
pub fn position(values: &Vec<(MessageId, Message)>, limit: usize, id: MessageId) -> (at: Option<
    usize,
>)
    requires
        limit <= values.len(),
    ensures
        match at {
            Some(i) => i < limit && i == first_position(
                entries_view(values@).take(limit as int),
                id,
            ),
            None => !has_id(entries_view(values@).take(limit as int), id),
        },
{
    let ghost head = entries_view(values@).take(limit as int);
    let mut i: usize = 0;
    while i < limit
        invariant
            i <= limit <= values.len(),
            head == entries_view(values@).take(limit as int),
            forall|j: int| 0 <= j < i ==> (#[trigger] head[j]).0 != id,
        decreases limit - i,
    {
        if values[i].0 == id {
            proof {
                lemma_first_position_is(head, id, i as int);
            }
            return Some(i);
        }
        i += 1;
    }
    proof {
        lemma_first_position_is(head, id, limit as int);
        lemma_first_position(head, id);
    }
    None
}

impl Mailbox {
    /// The mailbox of an account that was never touched: no entry, counter 0.
    pub fn new() -> (mailbox: Mailbox)
        ensures
            mailbox@ == MailboxModel::empty(),
    {
        let mailbox = Mailbox { values: Vec::new(), next_index: 0 };
        assert(mailbox@.values =~= Seq::empty());
        mailbox
    }

    /// The messages in stored order, oldest surviving entry first.
    pub fn messages(&self) -> (list: Vec<Message>)
        ensures
            messages_view(list@) == self@.messages(),
    {
        let mut list: Vec<Message> = Vec::new();
        let mut i: usize = 0;
        while i < self.values.len()
            invariant
                i <= self.values.len(),
                list.len() == i,
                forall|j: int| 0 <= j < i ==> (#[trigger] list[j])@ == self.values[j].1@,
            decreases self.values.len() - i,
        {
            let message = self.values[i].1.clone();
            assert(message@ =~= self.values[i as int].1@);
            list.push(message);
            i += 1;
        }
        assert(messages_view(list@) =~= self@.messages());
        list
    }

    /// The stored `(id, message)` pairs in stored order.
    pub fn entries(&self) -> (list: Vec<(MessageId, Message)>)
        ensures
            entries_view(list@) == self@.values,
    {
        let mut list: Vec<(MessageId, Message)> = Vec::new();
        let mut i: usize = 0;
        while i < self.values.len()
            invariant
                i <= self.values.len(),
                list.len() == i,
                forall|j: int|
                    0 <= j < i ==> (#[trigger] list[j]).0 == self.values[j].0 && list[j].1@
                        == self.values[j].1@,
            decreases self.values.len() - i,
        {
            let message = self.values[i].1.clone();
            assert(message@ =~= self.values[i as int].1@);
            list.push((self.values[i].0, message));
            i += 1;
        }
        assert(entries_view(list@) =~= self@.values);
        list
    }

    /// Appends `value` under the counter's value and advances the counter.
    /// A full mailbox refuses and stays as it is.
    pub fn add(&mut self, value: Message) -> (assigned: Result<MessageId, Error>)
        requires
            value.len() <= MAX_MESSAGE_LENGTH,
        ensures
            final(self)@ == old(self)@.try_add(value@),
            old(self)@.is_full() ==> assigned == Err::<MessageId, Error>(Error::IdOverflow)
                && *final(self) == *old(self),
            !old(self)@.is_full() ==> assigned == Ok::<MessageId, Error>(old(self).next_index)
                && final(self)@ == old(self)@.add(value@),
    {
        let id = self.next_index;
        if id == u32::MAX {
            return Err(Error::IdOverflow);
        }
        let ghost before = self@;
        self.values.push((id, value));
        self.next_index = id + 1;
        assert(self@.values =~= before.add(value@).values);
        Ok(id)
    }

    /// Deletes the ids of `value_ids` one after another. An id that the
    /// mailbox does not hold is passed over. The counter stays.
    pub fn delete(&mut self, value_ids: &Vec<MessageId>)
        requires
            value_ids.len() <= MAX_DELETE_MESSAGES,
        ensures
            final(self)@ == old(self)@.delete(value_ids@),
    {
        let ghost before = self@;
        let mut k: usize = 0;
        while k < value_ids.len()
            invariant
                k <= value_ids.len(),
                self.next_index == before.next_index,
                self@.values == remove_ids(before.values, value_ids@.take(k as int)),
            decreases value_ids.len() - k,
        {
            let id = value_ids[k];
            let ghost current = self@.values;
            let len = self.values.len();
            assert(current.take(len as int) =~= current);
            match position(&self.values, len, id) {
                Some(at) => {
                    self.values.remove(at);
                    assert(self@.values =~= current.remove(at as int));
                },
                None => {
                    proof {
                        lemma_first_position(current, id);
                    }
                },
            }
            assert(value_ids@.take(k + 1).drop_last() =~= value_ids@.take(k as int));
            k += 1;
        }
        assert(value_ids@.take(k as int) =~= value_ids@);
    }

    /// Merges `new_messages` in: each entry whose id the mailbox did not hold
    /// before the call is appended, in the given order; the others are
    /// dropped. The counter becomes `next_index`, whatever the ids stored.
    pub fn migrate(&mut self, next_index: MessageId, new_messages: Vec<(MessageId, Message)>)
        ensures
            final(self)@ == old(self)@.migrate(next_index, entries_view(new_messages@)),
    {
        let ghost before = self@;
        let ghost incoming = entries_view(new_messages@);
        let existing = self.values.len();
        assert(before.values.take(existing as int) =~= before.values);
        assert(incoming.take(0).filter(is_new(before.values)) =~= Seq::<Entry>::empty()) by {
            reveal(Seq::filter);
        }
        for entry in it: new_messages.into_iter()
            invariant
                incoming == entries_view(new_messages@),
                it.seq() == new_messages@,
                existing == before.values.len(),
                existing <= self.values.len(),
                self@.values.take(existing as int) == before.values,
                self@.values == before.values + incoming.take(it.index() as int).filter(
                    is_new(before.values),
                ),
        {
            let ghost k = it.index() as int;
            let ghost current = self@.values;
            proof {
                lemma_filter_take_step(incoming, is_new(before.values), k);
                lemma_first_position(before.values, entry.0);
            }
            if position(&self.values, existing, entry.0).is_none() {
                self.values.push(entry);
                assert(self@.values =~= current.push(incoming[k]));
                assert(self@.values.take(existing as int) =~= before.values);
            }
        }
        self.next_index = next_index;
        assert(incoming.take(incoming.len() as int) =~= incoming);
    }
}

} // verus!
