//! Checkpoint layout and the host-side pieces of neural inference that do not
//! need the tensor backend: checkpoint paths, device preferences, batch items
//! and message decoding.

pub mod checkpoint;
pub mod decision_net;
pub mod device;
pub mod mlx_decision;
pub mod neural;
pub mod registry;
pub mod tokenizer;

pub use checkpoint::CheckpointPaths;
pub use decision_net::BatchItem;
pub use device::DeviceRequest;
pub use tokenizer::HfTokenizer;
