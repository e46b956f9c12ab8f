//! Typed ledger blocks for a zero-knowledge contract library: where each
//! field of a block sits, what a block holds at deploy, which program a
//! circuit leaves for the ledger to run, and what that program does.
#![allow(unused_imports)]

pub mod abi;
pub mod assumed;
pub mod blind;
pub mod circuit;
pub mod derive;
pub mod discriminator;
pub mod fab;
pub mod header;
pub mod hook;
pub mod impact;
pub mod layout;
pub mod ledger;
pub mod number;
pub mod outbox;
pub mod record;
mod sealed;
pub mod serial;
pub mod state;
pub mod stream;
pub mod value;
pub mod vector;
pub mod wire;
