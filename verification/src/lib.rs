//! OSCQuery address trees, their JSON form, and the decisions of an OSCQuery
//! service, client and sidecar.
pub mod codec;
pub mod ieee;
pub mod json;
pub mod mdns;
pub mod node;
pub mod query;
pub mod service;
pub mod sidecar;
pub mod table;
pub mod text;

pub use mdns_sd::ServiceDaemon;
pub use node::{default_values_for_type_tags, OSCAccess, OSCHostInfo, OSCQueryNode, OscValue};
pub use query::{DiscoveryEvent, OSCQueryClient};
