//! STOMP 1.2 as `ActiveMQ` brokers speak it, without the sockets: one
//! MESSAGE is one Stream, its destination kept beside it.
//!
//! A SEND asks for a receipt, so that the broker has said it holds the
//! message before the send is counted done. A SUBSCRIBE asks for
//! client-individual acknowledgement, so that each message is acknowledged
//! once it has been taken and never before. A queue or a topic is a
//! Location: `/queue/orders`, `/topic/prices`. A [`Client`] speaks to a
//! broker; a [`Session`] is one client's worth of broker.
//!
//! Both take frames and give bytes, and whoever holds the connection moves
//! them: [`Reading`] says which bytes it wants until it has a [`Frame`], the
//! frame goes to a client or a session, and the bytes that come back are
//! written before anything else is done with the result. What the pieces
//! come to together is stated in the modules whose names end in `_laws`.

pub mod arrived;
pub mod client;
pub mod client_laws;
pub mod conversation_laws;
pub mod error;
pub mod event_laws;
pub mod frame;
pub mod frame_laws;
pub mod login;
pub mod queues;
pub mod reading;
pub mod run_laws;
pub mod session;
pub mod session_laws;
pub mod text;
pub mod text_laws;
pub mod transport;
pub mod transport_laws;
pub mod turn;
pub mod unicode;
pub mod view_laws;

pub use arrived::Arrived;
pub use client::{Client, Message};
pub use error::Error;
pub use frame::{encode, Frame, MAX_BODY};
pub use login::Login;
pub use queues::Queues;
pub use reading::{read, ByteReader, Reading, Step, Want};
pub use session::{Event, Session};
pub use transport::{take_one, ActiveMqTransport, Next, Receiving, Waited};
pub use turn::Turn;
