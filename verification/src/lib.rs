//! A stop-and-wait ARQ link over any polled byte stream.
//!
//! [`Arq`] is one end of a link. It frames payloads, checks what it receives,
//! acknowledges it, and sends again what was not acknowledged in time. It has no
//! tasks of its own: it makes progress when it is polled.
//!
//! [`endpoint`] is the model in whose terms the machine's contracts are written,
//! and the functions whose names begin with `law` state what holds of it.

pub mod arq;
pub mod chunking;
pub mod crc;
pub mod duties;
pub mod endpoint;
pub mod error;
pub mod fifo;
pub mod frame;
pub mod laws;
pub mod lifetime;
pub mod line;
pub mod lower;
pub mod metrics;
mod ports;
pub mod progress;
mod replay;
pub mod reports;
pub mod session;
pub mod steps;
pub mod streams;
pub mod time;
pub mod timing;

pub use arq::Arq;
pub use crc::{Crc, Crc16X25};
pub use endpoint::{State, ACK_TIMEOUT_MILLIS, PAYLOAD_RING, SYNC_PERIOD_MILLIS, TX_FIFO};
pub use error::{ArqError, FaultKind};
pub use lower::Lower;
pub use metrics::{RecvMetrics, SendMetrics};
pub use time::{Duration, Instant, Timer, TokioTimer};
