pub mod connector_per_component;
pub mod distributed_l2p;
pub mod pipeline_per_cmd;
pub mod round_trip;
