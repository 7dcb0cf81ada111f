pub mod activity;
pub mod distance;
pub mod emergence;
pub mod federation;
pub mod field;
pub mod fixed;
pub mod graph;
pub mod host;
pub mod identity;
pub mod ids;
pub mod order;
pub mod presence;
pub mod render;
pub mod request;
pub mod stamp;
pub mod store;
pub mod text;
pub mod wander;
