//! The KAD service's values and its decision rules: request bookkeeping,
//! inbound flood limits, opcode classification.

pub mod hello;
pub mod inbound;
pub mod jobs;
pub mod keyword;
pub mod lookup;
pub mod policy;
pub mod requests;
pub mod responses;
pub mod routing_view;
pub mod shaper;
pub mod sources;
pub mod status;
pub mod types;

pub use types::{
    KadKeywordHit, KadKeywordHitOrigin, KadKeywordSearchInfo, KadPeerInfo, KadServiceConfig,
    KadServiceCrypto, KadServiceStatus, KadSourceEntry, RoutingBucketSummary, RoutingNodeSummary,
    RoutingSummary,
};
