use crate::error::Error;
use crate::mailbox::{
    entries_view, messages_view, Mailbox, Message, MessageId, MAX_DELETE_MESSAGES,
    MAX_MESSAGE_LENGTH,
};
use crate::model::MailboxModel;
use std::collections::HashMap;
use vstd::prelude::*;

verus! {

broadcast use vstd::std_specs::hash::group_hash_axioms;

/// The key under which an account's mailbox is kept. The store only compares
/// it; who stands behind it is the host's concern.
pub type AccountId = u64;

/// What the store takes from its host.
pub trait Trait {
    /// Whether the host grants `origin` the authority to migrate mailboxes.
    /// The store promises nothing of the answer and obeys it.
    fn ensure_sylo_migrator(&self, origin: AccountId) -> bool;
}

/// The mailbox store: for every account a mailbox, empty until first used.
pub struct Module<T: Trait> {
    host: T,
    rows: HashMap<AccountId, Mailbox>,
}

impl<T: Trait> Module<T> {
    /// The mailbox of `who`: what its row holds, or the empty mailbox where
    /// the account has no row.
    pub closed spec fn mailbox(&self, who: AccountId) -> MailboxModel {
        if self.rows@.contains_key(who) {
            self.rows@[who]@
        } else {
            MailboxModel::empty()
        }
    }

    /// Every account but `who` has in `self` the mailbox it has in `other`.
    pub open spec fn same_but(&self, other: &Self, who: AccountId) -> bool {
        forall|a: AccountId| a != who ==> #[trigger] self.mailbox(a) == other.mailbox(a)
    }

    /// A store in which every mailbox is empty, with `host` to answer for the
    /// migration authority.
    pub fn new(host: T) -> (module: Self)
        ensures
            forall|a: AccountId| #[trigger] module.mailbox(a) == MailboxModel::empty(),
    {
        Module { host, rows: HashMap::new() }
    }

    /// Takes the mailbox of `who` out of its row.
    fn take(&mut self, who: AccountId) -> (mailbox: Mailbox)
        ensures
            mailbox@ == old(self).mailbox(who),
            final(self).same_but(old(self), who),
    {
        match self.rows.remove(&who) {
            Some(mailbox) => mailbox,
            None => Mailbox::new(),
        }
    }

    /// Writes `mailbox` as the row of `who`.
    fn put(&mut self, who: AccountId, mailbox: Mailbox)
        ensures
            final(self).mailbox(who) == mailbox@,
            final(self).same_but(old(self), who),
    {
        self.rows.insert(who, mailbox);
    }

    /// The messages of `who`, oldest surviving entry first; none for an
    /// account that was never used.
    pub fn inbox(&self, who: AccountId) -> (list: Vec<Message>)
        ensures
            messages_view(list@) == self.mailbox(who).messages(),
    {
        match self.rows.get(&who) {
            Some(mailbox) => mailbox.messages(),
            None => {
                let list: Vec<Message> = Vec::new();
                assert(messages_view(list@) =~= MailboxModel::empty().messages());
                list
            },
        }
    }

    /// The stored `(id, message)` pairs of `who`, in stored order.
    pub fn values(&self, who: AccountId) -> (entries: Vec<(MessageId, Message)>)
        ensures
            entries_view(entries@) == self.mailbox(who).values,
    {
        match self.rows.get(&who) {
            Some(mailbox) => mailbox.entries(),
            None => {
                let entries: Vec<(MessageId, Message)> = Vec::new();
                assert(entries_view(entries@) =~= MailboxModel::empty().values);
                entries
            },
        }
    }

    /// The next identifier that `add` will assign to `who`.
    pub fn next_index(&self, who: AccountId) -> (next: MessageId)
        ensures
            next == self.mailbox(who).next_index,
    {
        match self.rows.get(&who) {
            Some(mailbox) => mailbox.next_index,
            None => 0,
        }
    }

    /// Appends `value` to the mailbox of `peer_id` under the next identifier
    /// and returns that identifier. Where the counter has reached the largest
    /// identifier, nothing changes.
    pub fn add(&mut self, peer_id: AccountId, value: Message) -> (assigned: Result<
        MessageId,
        Error,
    >)
        requires
            value.len() <= MAX_MESSAGE_LENGTH,
        ensures
            final(self).same_but(old(self), peer_id),
            final(self).mailbox(peer_id) == old(self).mailbox(peer_id).try_add(value@),
            old(self).mailbox(peer_id).is_full() ==> assigned == Err::<MessageId, Error>(
                Error::IdOverflow,
            ) && final(self).mailbox(peer_id) == old(self).mailbox(peer_id),
            !old(self).mailbox(peer_id).is_full() ==> assigned == Ok::<MessageId, Error>(
                old(self).mailbox(peer_id).next_index,
            ) && final(self).mailbox(peer_id) == old(self).mailbox(peer_id).add(value@),
    {
        let mut mailbox = self.take(peer_id);
        let assigned = mailbox.add(value);
        self.put(peer_id, mailbox);
        assigned
    }

    /// Deletes the ids of `value_ids` from the mailbox of `user_id`, one after
    /// another. Ids that are not stored are passed over; the counter stays.
    pub fn delete(&mut self, user_id: AccountId, value_ids: Vec<MessageId>) -> (done: Result<
        (),
        Error,
    >)
        requires
            value_ids.len() <= MAX_DELETE_MESSAGES,
        ensures
            done == Ok::<(), Error>(()),
            final(self).mailbox(user_id) == old(self).mailbox(user_id).delete(value_ids@),
            final(self).same_but(old(self), user_id),
    {
        let mut mailbox = self.take(user_id);
        mailbox.delete(&value_ids);
        self.put(user_id, mailbox);
        Ok(())
    }

    /// The migration proper, once the host has answered: with the authority,
    /// the entries of `new_messages` whose id the mailbox of `user_id` did not
    /// hold are appended and its counter becomes `next_index`; without it
    /// nothing changes.
    pub fn migrate(
        &mut self,
        authorized: bool,
        user_id: AccountId,
        next_index: MessageId,
        new_messages: Vec<(MessageId, Message)>,
    ) -> (done: Result<(), Error>)
        ensures
            final(self).same_but(old(self), user_id),
            authorized ==> done == Ok::<(), Error>(()) && final(self).mailbox(user_id) == old(self).mailbox(user_id).migrate(next_index, entries_view(new_messages@)),
            !authorized ==> done == Err::<(), Error>(Error::Unauthorized) && final(self).mailbox(
                user_id,
            ) == old(self).mailbox(user_id),
    {
        if !authorized {
            return Err(Error::Unauthorized);
        }
        let mut mailbox = self.take(user_id);
        mailbox.migrate(next_index, new_messages);
        self.put(user_id, mailbox);
        Ok(())
    }

    /// Entry point for adding a message: refuses one that is too long, then
    /// adds as `add` does.
    pub fn add_value(&mut self, peer_id: AccountId, value: Message) -> (assigned: Result<
        MessageId,
        Error,
    >)
        ensures
            final(self).same_but(old(self), peer_id),
            assigned is Err ==> final(self).mailbox(peer_id) == old(self).mailbox(peer_id),
            value.len() > MAX_MESSAGE_LENGTH ==> assigned == Err::<MessageId, Error>(
                Error::MaxMessageLength,
            ),
            value.len() <= MAX_MESSAGE_LENGTH && old(self).mailbox(peer_id).is_full() ==> assigned
                == Err::<MessageId, Error>(Error::IdOverflow),
            value.len() <= MAX_MESSAGE_LENGTH && !old(self).mailbox(peer_id).is_full() ==> assigned
                == Ok::<MessageId, Error>(old(self).mailbox(peer_id).next_index) && final(self).mailbox(peer_id) == old(self).mailbox(peer_id).add(value@),
    {
        if value.len() > MAX_MESSAGE_LENGTH {
            return Err(Error::MaxMessageLength);
        }
        self.add(peer_id, value)
    }

    /// Entry point for deleting a batch: refuses one that is too large, then
    /// deletes as `delete` does.
    pub fn delete_values(&mut self, user_id: AccountId, value_ids: Vec<MessageId>) -> (done: Result<
        (),
        Error,
    >)
        ensures
            final(self).same_but(old(self), user_id),
            value_ids.len() > MAX_DELETE_MESSAGES ==> done == Err::<(), Error>(
                Error::MaxDeleteMessage,
            ) && final(self).mailbox(user_id) == old(self).mailbox(user_id),
            value_ids.len() <= MAX_DELETE_MESSAGES ==> done == Ok::<(), Error>(()) && final(self).mailbox(user_id) == old(self).mailbox(user_id).delete(value_ids@),
    {
        if value_ids.len() > MAX_DELETE_MESSAGES {
            return Err(Error::MaxDeleteMessage);
        }
        self.delete(user_id, value_ids)
    }

    /// Entry point for a migration: asks the host whether `origin` holds the
    /// migration authority and migrates as `migrate` does on its answer.
    pub fn migrate_inbox(
        &mut self,
        origin: AccountId,
        user_id: AccountId,
        next_index: MessageId,
        new_messages: Vec<(MessageId, Message)>,
    ) -> (done: Result<(), Error>)
        ensures
            final(self).same_but(old(self), user_id),
            done is Ok ==> final(self).mailbox(user_id) == old(self).mailbox(user_id).migrate(
                next_index,
                entries_view(new_messages@),
            ),
            done is Err ==> done == Err::<(), Error>(Error::Unauthorized) && final(self).mailbox(
                user_id,
            ) == old(self).mailbox(user_id),
    {
        let authorized = self.host.ensure_sylo_migrator(origin);
        self.migrate(authorized, user_id, next_index, new_messages)
    }
}

} // verus!
