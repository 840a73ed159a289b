//! The verified core of a referral-network client and its multi-user host:
//! referral routing and per-contact policy, skill tags and profiles,
//! contract steps, mailbox sync and ledger replication, held events, the
//! relay decision, master keys and their wrappings, the account directory and
//! sign-in decisions, and the text helpers all of these are stated over.

pub mod text;
pub mod routing;
pub mod contact;
pub mod ratelimit;
pub mod envelope;
pub mod unlock;
pub mod accounts;
pub mod taxonomy;
pub mod bootstrap;
pub mod profile;
pub mod negotiation;
pub mod multiuser;
pub mod vault;
pub mod events;
pub mod ledger;
pub mod sync;
pub mod broadcast;
pub mod account_blob;
pub mod history;
pub mod views;
pub mod forwarding;
