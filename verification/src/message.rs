use crate::routing_control::{ControlPacket, RoutingControl};
use crate::time::{default_ttl, Duration, Timestamp, DEFAULT_TTL_SECS, NANOS_PER_SEC};
use crate::types::{MessageId, UserId};
use vstd::prelude::*;
use vstd::utf8::encode_utf8;

verus! {

/// Content variants for messages.
#[derive(Debug, Clone, PartialEq)]
pub enum MessageContent {
    Text(String),
    File { name: String, data: Vec<u8> },
    Routing(RoutingControl),
}

/// What a message carries, as a mathematical value.
pub enum Content {
    Text(Seq<char>),
    File { name: Seq<char>, data: Seq<u8> },
    Routing(ControlPacket),
}

impl Content {
    /// The number that marks the variant on the wire.
    pub open spec fn tag(self) -> u32 {
        match self {
            Content::Text(_) => 0,
            Content::File { .. } => 1,
            Content::Routing(_) => 2,
        }
    }

    /// Whether the content can be held in memory and written to the wire:
    /// each length fits in 64 bits.
    pub open spec fn fits(self) -> bool {
        match self {
            Content::Text(text) => encode_utf8(text).len() <= u64::MAX,
            Content::File { name, data } => encode_utf8(name).len() <= u64::MAX && data.len()
                <= u64::MAX,
            Content::Routing(packet) => packet.fits(),
        }
    }
}

impl View for MessageContent {
    type V = Content;

    open spec fn view(&self) -> Content {
        match *self {
            MessageContent::Text(text) => Content::Text(text@),
            MessageContent::File { name, data } => Content::File { name: name@, data: data@ },
            MessageContent::Routing(packet) => Content::Routing(packet@),
        }
    }
}

impl MessageContent {
    /// The number that marks the content's variant on the wire.
    pub fn tag(&self) -> (t: u32)
        ensures
            t == self@.tag(),
    {
        match self {
            MessageContent::Text(_) => 0,
            MessageContent::File { .. } => 1,
            MessageContent::Routing(_) => 2,
        }
    }
}

/// Priority levels: a lower level is a higher priority.
#[derive(Debug, Clone, Copy, PartialEq, Eq, PartialOrd, Ord)]
pub enum MessagePriority {
    Emergency,
    Urgent,
    Normal,
    Background,
}

impl MessagePriority {
    /// The level of the priority, from 0 (emergency) to 3 (background).
    pub open spec fn spec_level(self) -> u8 {
        match self {
            MessagePriority::Emergency => 0,
            MessagePriority::Urgent => 1,
            MessagePriority::Normal => 2,
            MessagePriority::Background => 3,
        }
    }

    /// The level of the priority, from 0 (emergency) to 3 (background).
    #[verifier::when_used_as_spec(spec_level)]
    pub fn level(self) -> (l: u8)
        ensures
            l == self.spec_level(),
    {
        match self {
            MessagePriority::Emergency => 0,
            MessagePriority::Urgent => 1,
            MessagePriority::Normal => 2,
            MessagePriority::Background => 3,
        }
    }

    /// The priority with the given level, if there is one.
    pub fn from_level(level: u8) -> (r: Option<MessagePriority>)
        ensures
            r is Some <==> level <= 3,
            r matches Some(p) ==> p.spec_level() == level,
    {
        match level {
            0 => Some(MessagePriority::Emergency),
            1 => Some(MessagePriority::Urgent),
            2 => Some(MessagePriority::Normal),
            3 => Some(MessagePriority::Background),
            _ => None,
        }
    }

    /// Whether this priority is strictly more urgent than `other`.
    pub fn more_urgent_than(self, other: MessagePriority) -> (r: bool)
        ensures
            r == (self.spec_level() < other.spec_level()),
    {
        self.level() < other.level()
    }

    /// Priorities are ordered by their levels: two priorities with the same
    /// level are the same priority.
    pub proof fn lemma_level_injective(a: MessagePriority, b: MessagePriority)
        requires
            a.spec_level() == b.spec_level(),
        ensures
            a == b,
    {
    }
}

/// Main envelope for all messages shared across the mesh.
#[derive(Debug, Clone)]
pub struct Message {
    pub id: MessageId,
    pub sender: UserId,
    pub recipient: Option<UserId>,
    pub content: MessageContent,
    pub timestamp: Timestamp,
    pub ttl: Duration,
    pub hop_count: u8,
    pub signature: Vec<u8>,
}

/// What a message says, as a mathematical value.
pub struct Envelope {
    pub id: MessageId,
    pub sender: UserId,
    pub recipient: Option<UserId>,
    pub content: Content,
    pub timestamp: Timestamp,
    pub ttl: Duration,
    pub hop_count: u8,
    pub signature: Seq<u8>,
}

impl Envelope {
    /// Whether the envelope can be held in memory and written to the wire:
    /// each length fits in 64 bits and the two times are well formed.
    pub open spec fn fits(self) -> bool {
        &&& self.content.fits()
        &&& self.signature.len() <= u64::MAX
        &&& self.timestamp.span().well_formed()
        &&& self.ttl.well_formed()
    }
}

impl View for Message {
    type V = Envelope;

    open spec fn view(&self) -> Envelope {
        Envelope {
            id: self.id,
            sender: self.sender,
            recipient: self.recipient,
            content: self.content@,
            timestamp: self.timestamp,
            ttl: self.ttl,
            hop_count: self.hop_count,
            signature: self.signature@,
        }
    }
}

impl Message {
    /// A message that originates at `now` under the identifier `id`: no
    /// hops yet, the default time-to-live, and no signature.
    pub fn originate(
        id: MessageId,
        sender: UserId,
        recipient: Option<UserId>,
        content: MessageContent,
        now: Timestamp,
    ) -> (m: Message)
        ensures
            m.id == id,
            m.sender == sender,
            m.recipient == recipient,
            m.content == content,
            m.timestamp == now,
            m.ttl.nanos() == DEFAULT_TTL_SECS * NANOS_PER_SEC,
            m.hop_count == 0,
            m.signature@ == Seq::<u8>::empty(),
    {
        Message {
            id,
            sender,
            recipient,
            content,
            timestamp: now,
            ttl: default_ttl(),
            hop_count: 0,
            signature: Vec::new(),
        }
    }

    /// A new message under a fresh random identifier, stamped with the
    /// reading of the system clock.
    pub fn new(sender: UserId, recipient: Option<UserId>, content: MessageContent) -> (m: Message)
        ensures
            MessageId::is_v4(m.id@),
            m.sender == sender,
            m.recipient == recipient,
            m.content == content,
            m.ttl.nanos() == DEFAULT_TTL_SECS * NANOS_PER_SEC,
            m.hop_count == 0,
            m.signature@ == Seq::<u8>::empty(),
    {
        let id = MessageId::new();
        let now = Timestamp::now();
        Message::originate(id, sender, recipient, content, now)
    }
}

} // verus!
