use crate::message::{Content, Message, MessageContent};
use crate::table::{distinct, holds, lemma_entry, lemma_put, table_of};
use crate::time::{Duration, Timestamp, DEFAULT_TTL_SECS, NANOS_PER_SEC};
use crate::types::{MessageId, UserId};
use crate::wire::DecodeError;
use crate::wire_message::{
    content_bytes,
    decode_content,
    encode_content,
    encode_message,
    envelope_bytes,
};
use vstd::prelude::*;

verus! {

/// A failure of the persistent store to read or to accept a write.
#[derive(Debug, Clone, PartialEq, Eq)]
pub struct StorageError {
    pub reason: String,
}

/// A message whose age exceeds its time-to-live.
#[derive(Debug, Clone, Copy, PartialEq, Eq)]
pub struct ExpiredError {
    /// The age of the message when it was checked.
    pub age: Duration,
    /// The time-to-live that the age exceeds.
    pub ttl: Duration,
}

impl ExpiredError {
    /// A sentence that describes the error.
    pub fn message(&self) -> (text: String)
        ensures
            text@ == "Message expired"@,
    {
        "Message expired".to_string()
    }
}

/// How many identifiers are drawn at most in search of one that the store
/// does not know.
pub const MAX_ID_DRAWS: u32 = 8;

/// A failure to turn a content into bytes. The plain wire form never fails.
#[derive(Debug, Clone, Copy, PartialEq, Eq)]
pub struct EncodeError;

/// What the store holds, as a mathematical value: the stored messages by
/// identifier, each in its wire form, and the identifiers marked as seen.
pub struct MessageStore {
    pub messages: Map<MessageId, Seq<u8>>,
    pub seen: Set<MessageId>,
}

impl MessageStore {
    /// The store that holds nothing.
    pub open spec fn empty() -> MessageStore {
        MessageStore { messages: Map::empty(), seen: Set::empty() }
    }

    /// Whether the identifier is known: it is that of a stored message or
    /// was marked as seen.
    pub open spec fn knows(self, id: MessageId) -> bool {
        self.messages.contains_key(id) || self.seen.contains(id)
    }

    /// Whether the store knows no identifier at all.
    pub open spec fn knows_nothing(self) -> bool {
        forall|id: MessageId| !self.knows(id)
    }

    /// The store after a message was stored under its identifier.
    pub open spec fn with_message(self, id: MessageId, bytes: Seq<u8>) -> MessageStore {
        MessageStore { messages: self.messages.insert(id, bytes), seen: self.seen }
    }

    /// The store after an identifier was marked as seen.
    pub open spec fn with_seen(self, id: MessageId) -> MessageStore {
        MessageStore { messages: self.messages, seen: self.seen.insert(id) }
    }

    /// A message that was created is known from then on, and creating it
    /// makes no other identifier known; the empty store knows none.
    pub proof fn lemma_created_is_known(self, id: MessageId, bytes: Seq<u8>)
        ensures
            self.with_message(id, bytes).knows(id),
            !Self::empty().knows(id),
            forall|other: MessageId|
                other != id ==> self.with_message(id, bytes).knows(other) == self.knows(other),
    {
    }

    /// Marking an identifier as seen twice leaves the store as marking it
    /// once does, and the identifier known.
    pub proof fn lemma_mark_seen_idempotent(self, id: MessageId)
        ensures
            self.with_seen(id).with_seen(id) == self.with_seen(id),
            self.with_seen(id).knows(id),
            forall|other: MessageId|
                other != id ==> self.with_seen(id).knows(other) == self.knows(other),
    {
        assert(self.seen.insert(id).insert(id) =~= self.seen.insert(id));
    }

    /// What is known stays known, whatever is stored or marked afterwards.
    pub proof fn lemma_known_stays_known(
        self,
        id: MessageId,
        other: MessageId,
        bytes: Seq<u8>,
    )
        requires
            self.knows(id),
        ensures
            self.with_message(other, bytes).knows(id),
            self.with_seen(other).knows(id),
    {
    }
}

/// Whether a message stamped `timestamp` has outlived `ttl` at `now`. A
/// message stamped after `now` has age zero.
pub open spec fn outlived(timestamp: Timestamp, ttl: Duration, now: Timestamp) -> bool {
    age_at(timestamp, now) > ttl.nanos()
}

/// The age in nanoseconds at `now` of what was stamped `timestamp`: zero
/// where the stamp lies after `now`.
pub open spec fn age_at(timestamp: Timestamp, now: Timestamp) -> nat {
    if now.nanos() >= timestamp.nanos() {
        (now.nanos() - timestamp.nanos()) as nat
    } else {
        0
    }
}

/// A message has outlived its time-to-live exactly from the nanosecond
/// after its stamp plus its time-to-live: it passes at the time of its
/// stamp, keeps passing until then, and never passes again afterwards.
pub proof fn lemma_outlived_from_stamp_plus_ttl(timestamp: Timestamp, ttl: Duration, now: Timestamp)
    ensures
        outlived(timestamp, ttl, now) <==> now.nanos() > timestamp.nanos() + ttl.nanos(),
        !outlived(timestamp, ttl, timestamp),
{
}

struct StoredMessage {
    id: MessageId,
    bytes: Vec<u8>,
}

/// The message admission state: which messages were created and stored,
/// and which identifiers were seen.
pub struct MessageManager {
    messages: Vec<StoredMessage>,
    seen: Vec<MessageId>,
}

impl View for MessageManager {
    type V = MessageStore;

    closed spec fn view(&self) -> MessageStore {
        MessageStore {
            messages: Self::stored_map(self.messages@),
            seen: Self::seen_set(self.seen@),
        }
    }
}

impl MessageManager {
    spec fn key() -> spec_fn(StoredMessage) -> MessageId {
        |entry: StoredMessage| entry.id
    }

    spec fn wire_form() -> spec_fn(StoredMessage) -> Seq<u8> {
        |entry: StoredMessage| entry.bytes@
    }

    spec fn stored_map(messages: Seq<StoredMessage>) -> Map<MessageId, Seq<u8>> {
        table_of(messages, Self::key(), Self::wire_form())
    }

    spec fn seen_set(seen: Seq<MessageId>) -> Set<MessageId> {
        Set::new(|id: MessageId| seen.contains(id))
    }

    #[verifier::type_invariant]
    spec fn one_message_per_id(self) -> bool {
        distinct(self.messages@, Self::key())
    }

    /// A manager of an empty store.
    pub fn new() -> (manager: MessageManager)
        ensures
            manager@ == MessageStore::empty(),
    {
        let manager = MessageManager { messages: Vec::new(), seen: Vec::new() };
        proof {
            assert(manager@.messages =~= Map::<MessageId, Seq<u8>>::empty());
            assert(manager@.seen =~= Set::<MessageId>::empty());
        }
        manager
    }

    fn position(&self, id: &MessageId) -> (r: Option<usize>)
        ensures
            match r {
                Some(i) => i < self.messages@.len() && self.messages@[i as int].id == *id,
                None => !holds(self.messages@, Self::key(), *id),
            },
    {
        let mut i: usize = 0;
        while i < self.messages.len()
            invariant
                i <= self.messages@.len(),
                forall|j: int| 0 <= j < i ==> #[trigger] (Self::key())(self.messages@[j]) != *id,
            decreases self.messages@.len() - i,
        {
            if self.messages[i].id.same(id) {
                return Some(i);
            }
            i += 1;
        }
        None
    }

    fn has_seen(&self, id: &MessageId) -> (r: bool)
        ensures
            r == self@.seen.contains(*id),
    {
        let mut i: usize = 0;
        while i < self.seen.len()
            invariant
                i <= self.seen@.len(),
                forall|j: int| 0 <= j < i ==> self.seen@[j] != *id,
            decreases self.seen@.len() - i,
        {
            if self.seen[i].same(id) {
                return true;
            }
            i += 1;
        }
        false
    }

    /// Moves the stored messages out and leaves none behind.
    fn take_messages(&mut self) -> (messages: Vec<StoredMessage>)
        ensures
            messages@ == old(self).messages@,
            final(self).messages@ == Seq::<StoredMessage>::empty(),
            final(self).seen == old(self).seen,
    {
        let mut messages: Vec<StoredMessage> = Vec::new();
        core::mem::swap(&mut self.messages, &mut messages);
        messages
    }

    /// Takes note of the outcome of writing `message` to the persistent
    /// store. After a write that succeeded the message is stored under its
    /// identifier, in its wire form, and handed back; after one that failed
    /// nothing has changed and the failure is handed on.
    pub fn record_created(&mut self, message: Message, write: Result<(), StorageError>) -> (r:
        Result<Message, StorageError>)
        ensures
            match write {
                Ok(_) => r == Ok::<Message, StorageError>(message) && final(self)@ == old(
                    self,
                )@.with_message(message.id, envelope_bytes(message@)),
                Err(e) => r == Err::<Message, StorageError>(e) && final(self)@ == old(self)@,
            },
    {
        proof {
            use_type_invariant(&*self);
        }
        match write {
            Err(e) => Err(e),
            Ok(_) => {
                let ghost before = self.messages@;
                let entry = StoredMessage { id: message.id, bytes: encode_message(&message) };
                let found = self.position(&message.id);
                let mut messages = self.take_messages();
                match found {
                    Some(i) => {
                        messages.set(i, entry);
                        proof {
                            lemma_put(
                                before,
                                messages@,
                                Self::key(),
                                Self::wire_form(),
                                i as int,
                            );
                        }
                    },
                    None => {
                        messages.push(entry);
                        proof {
                            lemma_put(
                                before,
                                messages@,
                                Self::key(),
                                Self::wire_form(),
                                before.len() as int,
                            );
                        }
                    },
                }
                self.messages = messages;
                Ok(message)
            },
        }
    }

    /// An identifier that the store does not know: identifiers are drawn at
    /// random, at most `MAX_ID_DRAWS` of them, until one is new. Nothing
    /// comes back where every one drawn was known already.
    pub fn fresh_id(&self) -> (r: Option<MessageId>)
        ensures
            r matches Some(id) ==> !self@.knows(id) && MessageId::is_v4(id@),
            self@.knows_nothing() ==> r is Some,
    {
        let mut draws: u32 = 0;
        while draws < MAX_ID_DRAWS
            invariant
                draws <= MAX_ID_DRAWS,
                draws > 0 ==> !self@.knows_nothing(),
            decreases MAX_ID_DRAWS - draws,
        {
            let id = MessageId::new();
            if self.is_new_message(&id) {
                return Some(id);
            }
            assert(self@.knows(id));
            draws += 1;
        }
        None
    }

    /// Create a new message under an identifier that the store does not
    /// know, and store it. The signature of the message is left empty. The
    /// store refuses, and stays as it was, where no new identifier was
    /// drawn.
    pub fn create_message(
        &mut self,
        sender: UserId,
        recipient: Option<UserId>,
        content: MessageContent,
    ) -> (r: Result<Message, StorageError>)
        ensures
            match r {
                Ok(message) => !old(self)@.knows(message.id) && MessageId::is_v4(message.id@)
                    && message.sender == sender && message.recipient == recipient
                    && message.content == content && message.ttl.nanos() == DEFAULT_TTL_SECS
                    * NANOS_PER_SEC && message.hop_count == 0 && message.signature@ == Seq::<
                    u8,
                >::empty() && final(self)@ == old(self)@.with_message(
                    message.id,
                    envelope_bytes(message@),
                ),
                Err(_) => final(self)@ == old(self)@,
            },
            old(self)@.knows_nothing() ==> r is Ok,
    {
        match self.fresh_id() {
            None => Err(StorageError { reason: "no new message identifier was drawn".to_string() }),
            Some(id) => {
                let now = Timestamp::now();
                let message = Message::originate(id, sender, recipient, content, now);
                self.record_created(message, Ok(()))
            },
        }
    }

    /// The wire form of the message stored under `id`, if there is one.
    pub fn stored_bytes(&self, id: &MessageId) -> (r: Option<Vec<u8>>)
        ensures
            r is Some <==> self@.messages.contains_key(*id),
            r matches Some(bytes) ==> bytes@ == self@.messages[*id],
    {
        proof {
            use_type_invariant(self);
        }
        match self.position(id) {
            None => None,
            Some(i) => {
                proof {
                    lemma_entry(self.messages@, Self::key(), i as int);
                }
                let mut bytes: Vec<u8> = Vec::new();
                crate::wire::put(&mut bytes, self.messages[i].bytes.as_slice());
                assert(bytes@ =~= self.messages@[i as int].bytes@);
                Some(bytes)
            },
        }
    }

    /// What to conclude from asking the persistent store whether it holds
    /// an identifier: the identifier is new unless the store answered that
    /// it holds it. A store that failed to answer counts as not holding it.
    pub fn is_new_from_lookup(lookup: Result<bool, StorageError>) -> (r: bool)
        ensures
            r == !(lookup matches Ok(held) && held),
    {
        match lookup {
            Ok(held) => !held,
            Err(_) => true,
        }
    }

    /// Whether the identifier is new, given what the persistent store
    /// answered when asked whether it holds a message under it (`stored`)
    /// and a mark for it (`seen`): it is new unless it is known here or the
    /// store answered that it holds one of the two. A store that failed to
    /// answer counts as not holding it.
    pub fn is_new_given(
        &self,
        id: &MessageId,
        stored: Result<bool, StorageError>,
        seen: Result<bool, StorageError>,
    ) -> (r: bool)
        ensures
            r == (!self@.knows(*id) && !(stored matches Ok(held) && held) && !(seen matches Ok(
                held,
            ) && held)),
    {
        self.is_new_message(id) && Self::is_new_from_lookup(stored) && Self::is_new_from_lookup(
            seen,
        )
    }

    /// Whether the identifier is new: neither that of a stored message nor
    /// marked as seen.
    pub fn is_new_message(&self, id: &MessageId) -> (r: bool)
        ensures
            r == !self@.knows(*id),
    {
        proof {
            use_type_invariant(self);
        }
        let found = self.position(id);
        proof {
            if let Some(i) = found {
                lemma_entry(self.messages@, Self::key(), i as int);
            }
        }
        let held = found.is_some() || self.has_seen(id);
        Self::is_new_from_lookup(Ok(held))
    }

    /// Takes note of the outcome of writing the mark "seen" for `id` to the
    /// persistent store. After a write that succeeded the identifier is
    /// marked; after one that failed nothing has changed and the failure is
    /// handed on.
    pub fn record_seen(&mut self, id: &MessageId, write: Result<(), StorageError>) -> (r: Result<
        (),
        StorageError,
    >)
        ensures
            match write {
                Ok(_) => r is Ok && final(self)@ == old(self)@.with_seen(*id),
                Err(e) => r == Err::<(), StorageError>(e) && final(self)@ == old(self)@,
            },
    {
        match write {
            Err(e) => Err(e),
            Ok(_) => {
                let ghost before = self.seen@;
                if !self.has_seen(id) {
                    self.push_seen(*id);
                }
                proof {
                    assert(Self::seen_set(self.seen@) =~= Self::seen_set(before).insert(*id)) by {
                        assert forall|other: MessageId|
                            self.seen@.contains(other) == (before.contains(other) || other
                                == *id) by {
                            if self.seen@ != before {
                                assert(self.seen@ == before.push(*id));
                                if before.contains(other) {
                                    let k = choose|k: int|
                                        0 <= k < before.len() && before[k] == other;
                                    assert(self.seen@[k] == other);
                                }
                                if other == *id {
                                    assert(self.seen@[before.len() as int] == other);
                                }
                            }
                        }
                    }
                }
                Ok(())
            },
        }
    }

    fn push_seen(&mut self, id: MessageId)
        ensures
            final(self).seen@ == old(self).seen@.push(id),
            final(self).messages == old(self).messages,
    {
        proof {
            use_type_invariant(&*self);
        }
        let mut seen: Vec<MessageId> = Vec::new();
        core::mem::swap(&mut self.seen, &mut seen);
        seen.push(id);
        self.seen = seen;
    }

    /// Mark an identifier as seen. Marking it again changes nothing.
    pub fn mark_message_seen(&mut self, id: &MessageId) -> (r: Result<(), StorageError>)
        ensures
            r is Ok,
            final(self)@ == old(self)@.with_seen(*id),
    {
        self.record_seen(id, Ok(()))
    }

    /// Check the age of a message at `now` against its time-to-live. The
    /// message is refused exactly when it has outlived its time-to-live; a
    /// message stamped after `now` has age zero.
    pub fn validate_message_at(msg: &Message, now: &Timestamp) -> (r: Result<(), ExpiredError>)
        ensures
            r is Err <==> outlived(msg.timestamp, msg.ttl, *now),
            r matches Err(e) ==> e.age.nanos() == age_at(msg.timestamp, *now) && e.ttl == msg.ttl,
    {
        let age = match now.duration_since(&msg.timestamp) {
            Some(age) => age,
            None => Duration::zero(),
        };
        if age.longer_than(&msg.ttl) {
            Err(ExpiredError { age, ttl: msg.ttl })
        } else {
            Ok(())
        }
    }

    /// Check the age of a message by the system clock against its
    /// time-to-live.
    pub fn validate_message(&self, msg: &Message) -> (r: Result<(), ExpiredError>)
        ensures
            exists|now: Timestamp|
                (r is Err <==> #[trigger] outlived(msg.timestamp, msg.ttl, now)) && (r matches Err(
                    e,
                ) ==> e.age.nanos() == age_at(msg.timestamp, now) && e.ttl == msg.ttl),
    {
        let now = Timestamp::now();
        let r = Self::validate_message_at(msg, &now);
        proof {
            assert((r is Err <==> outlived(msg.timestamp, msg.ttl, now)) && (r matches Err(e)
                ==> e.age.nanos() == age_at(msg.timestamp, now) && e.ttl == msg.ttl));
        }
        r
    }

    /// Turn a content into bytes for a peer. The bytes are the plain wire
    /// form of the content: nothing is kept confidential, and the peer's
    /// key plays no part.
    pub fn encrypt_message(&self, content: &MessageContent, _peer_pub: &UserId) -> (r: Result<
        Vec<u8>,
        EncodeError,
    >)
        ensures
            r matches Ok(bytes) && bytes@ == content_bytes(content@),
            content@.fits(),
    {
        Ok(encode_content(content))
    }

    /// Turn bytes from a peer back into a content. The content comes back
    /// exactly when the bytes begin with the plain wire form of one; the
    /// key plays no part.
    pub fn decrypt_message(&self, data: &[u8], _priv_key: &UserId) -> (r: Result<
        MessageContent,
        DecodeError,
    >)
        ensures
            r matches Ok(content) ==> content@.fits() && content_bytes(content@).is_prefix_of(
                data@,
            ),
            r is Err ==> forall|c: Content|
                c.fits() ==> !(#[trigger] content_bytes(c)).is_prefix_of(data@),
    {
        decode_content(data)
    }
}

} // verus!
