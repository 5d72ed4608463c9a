//! Traffic statistics for a sing-box control panel: the gRPC/protobuf framing
//! of the v2ray stats API, counter bookkeeping, traffic-name parsing and the
//! small text parsers behind the status page, each with a verified contract.

pub mod boot;
pub mod collection;
pub mod config;
pub mod counters;
pub mod error;
pub mod grpc;
pub mod online;
pub mod order;
pub mod queries;
pub mod samples;
pub mod stats_api;
pub mod settings;
pub mod system;
pub mod text;
pub mod textmap;
pub mod wire;
