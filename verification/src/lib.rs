//! Routing and message-admission core of a disconnected-network mesh messenger.

pub mod message;
pub mod message_manager;
pub mod replay;
pub mod routing;
mod table;
pub mod routing_control;
pub mod time;
pub mod transport;
pub mod types;
pub mod wire;
pub mod wire_message;

pub use message::{Message, MessageContent, MessagePriority};
pub use message_manager::{
    EncodeError, ExpiredError, MessageManager, StorageError, MAX_ID_DRAWS,
};
pub use routing::{LinkQuality, RouteInfo, RoutingEngine};
pub use routing_control::RoutingControl;
pub use time::{default_ttl, Duration, Timestamp, DEFAULT_TTL_SECS, NANOS_PER_SEC};
pub use transport::{broadcast_events, TransportEvent, MOCK_MTU};
pub use types::{MessageId, PeerId, UserId};
pub use wire::{decode_control, encode_control, DecodeError};
pub use wire_message::{decode_content, decode_message, encode_content, encode_message};
