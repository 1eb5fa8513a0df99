//! Verified core of Ananda Control: the Equalizer APO preset format, the
//! profile database rules, the commit protocol of the store, the user's
//! commands, the tray model, and the agent protocol.

pub mod ids;
pub mod text;
pub mod decimal;
pub mod model;
pub mod apo;
pub mod roundtrip;
pub mod storage;
pub mod commands;
pub mod tray;
pub mod agent;
pub mod platform;
