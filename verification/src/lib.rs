//! A build-5875 wire-protocol client's logic: framing, arguments, metrics, evidence and
//! scenario verdicts, each stated as a contract and proved.

pub mod text;
pub mod number;
pub mod json;
pub mod order;
pub mod named;
pub mod sort;
pub mod stream;
pub mod stream_laws;
pub mod cipher;
pub mod session;
pub mod logon;
pub mod fill;
pub mod frame;
pub mod receive;
pub mod sats;
pub mod spread;
pub mod movement;
pub mod analysis;
pub mod timing;
pub mod exposition;
pub mod metrics;
pub mod loose;
pub mod http;
pub mod counters;
pub mod capture;
pub mod ramp;
pub mod latency;
pub mod report;
pub mod cli;
pub mod player;
pub mod tally;
pub mod soak;
pub mod bench;
pub mod wire;
pub mod values_mask;
pub mod shots;
pub mod dive;
pub mod diver;
pub mod party;
pub mod scenario;
pub mod bank;
pub mod banking;
pub mod subscription;
pub mod addon;
pub mod control;
pub mod observer;
pub mod social;
pub mod probes;
pub mod modes;
