//! Per-round contribution aggregation beneath a BFT consensus engine.
//!
//! Each validator produces a signed "mini block" for a consensus view; a
//! view's proposal is a bundle of such blocks ("proto block"), and it is
//! sufficiently backed once enough distinct, validly signed,
//! participant-authored contributions have been collected to meet a
//! Byzantine quorum.

pub mod bridge;
pub mod bytes_util;
pub mod crypto;
pub mod chatter;
pub mod mini_block;
pub mod status;
pub mod supervisor;
pub mod wire;
