//! Label pipeline for an event-label relay: deterministic slugs, canonical
//! label encoding and signing, a monotone label log, reconciliation of the
//! published label definitions against an external event listing, and the
//! framing used by the firehose consumer and the subscription stream.

pub mod base26;
pub mod cbor;
pub mod event;
pub mod firehose;
pub mod label;
pub mod labellog;
pub mod reconcile;
pub mod roman;
pub mod slug;
pub mod state;
pub mod strutil;
pub mod subscription;
