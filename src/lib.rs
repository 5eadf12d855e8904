//! Decides whether a short social-media post spells out the "ahiru-yaki" pun
//! and, if it does, what the scolding reply looks like.
//!
//! The text is first cleaned of invisible characters, whitespace and
//! line-break / paragraph markup ([`normalize`]); the cleaned text is then
//! searched for one of the trigger spellings ([`requires_reply`]).

pub mod normalize;
pub mod trigger;
pub mod laws;
pub mod reply;

pub use normalize::normalize;
pub use trigger::requires_reply;
pub use reply::{respond, reply_text, Reply, Visibility, SCOLD};
