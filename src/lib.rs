//! Message types of the peer-routing control plane (flow creation, shutdown,
//! peer validation and mirror status), with their protobuf wire codec.
pub mod text;
pub mod wire;
pub mod timestamp;
pub mod opaque;
pub mod status;
pub mod route;
pub mod mirror;
pub mod mirror_status_response;

pub use status::{CreatePeerStatus, ValidatePeerStatus};
pub use route::{
    CreateCdcFlowRequest, CreateCdcFlowResponse, CreatePeerRequest, CreatePeerResponse,
    CreateQRepFlowRequest, CreateQRepFlowResponse, MirrorStatusRequest, ShutdownRequest,
    ShutdownResponse, ValidatePeerRequest, ValidatePeerResponse,
};
pub use mirror::{
    CdcMirrorStatus, CdcSyncStatus, MirrorStatusResponse, PartitionStatus, QRepMirrorStatus,
    SnapshotStatus,
};
pub use opaque::{FlowConnectionConfigs, Peer, QRepConfig};
pub use timestamp::Timestamp;
pub use wire::DecodeError;
