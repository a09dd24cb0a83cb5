//! OpenSDTS, the Open Software Defined Target System: scenario definitions,
//! the engine that runs a live session or replays a recorded one, SDTP
//! envelopes and recordings, session ids, and the LightElf laser's wire
//! protocol and transport rules.

pub mod ble;
pub mod double;
pub mod engine;
pub mod hex;
pub mod ids;
pub mod lightelf;
pub mod live;
pub mod names;
pub mod protocol;
pub mod recording;
pub mod scenario;
pub mod session;
