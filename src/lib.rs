//! A publish/subscribe stream protocol engine: the state of a user of a stream, its cursor
//! store and the rules by which it handles and sends the seven kinds of message.
//!
//! The sponge layer stands outside this crate: it wraps and unwraps message bodies,
//! derives message addresses, and seals a backup under a password with its MACs. Each
//! place where its work meets the engine takes or gives plain values:
//! - a received message arrives as a parsed [`user::Header`] and the unwrapped
//!   [`user::Content`] with its sponge state (`User::handle_message`);
//! - a message to send is planned by a `User::prepare_*` function, wrapped by the sponge
//!   layer into a [`user::Wrapped`], and passed with its message id to `User::send_*`;
//! - a sync polls the addresses that `User::next_candidates` names and hands what it reads
//!   to `User::handle_message`;
//! - `User::backup_state` gives the bytes of a user's state to be sealed, and
//!   `User::restore_state` reads the bytes that unsealing gives back.

pub mod address;
pub mod announce;
pub mod backup;
pub mod collections;
pub mod cursor_store;
pub mod id;
pub mod transport;
pub mod user;
