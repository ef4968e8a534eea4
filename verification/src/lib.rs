//! A sans-I/O core for a bidirectional TCP tunnelling proxy.
//!
//! The crate holds the bookkeeping of a single-threaded reactor: the table of
//! live endpoints, the registry of tunnel links, the queue of endpoints that
//! wait for deferred removal, and the rules by which a batch of readiness
//! events is turned into buffer movements and poll registrations.  Sockets
//! and the poll itself stay with the caller, who performs the effects that
//! the functions here return.
//!
//! A caller hands each event of a batch to [`Server::dispatch`] and does
//! what the returned [`Step`] asks for: it accepts a connection and reports
//! it with [`Server::accept`], or runs one drain or flush step on the
//! endpoint's socket and reports it with [`Server::drained`] or
//! [`Server::flushed`], until the step is [`Step::Done`].  After the last
//! event of the batch it calls [`Server::finish`].  Every call returns the
//! [`Effect`]s to perform on the poll; performed in order, they keep the
//! poll's registrations in step with the table.

pub mod endpoint;
pub mod arena;
pub mod links;
pub mod effect;
pub mod model;
pub mod server;
pub mod secret;
pub mod laws;

pub use arena::Arena;
pub use effect::{DrainOutcome, Effect, Event, FlushOutcome, Readiness, Step};
pub use endpoint::{Endpoint, Interest};
pub use links::Links;
pub use model::{MAX_PUMPS, ROOT_TOKEN};
pub use secret::{derive_secret, secret_of_digest, to_hex, SECRET_LEN};
pub use server::{Cleanup, Reaction, Server};
