pub mod commitment;
pub mod error;
pub mod swappable;
pub mod swapper;

pub use commitment::Commitment;
pub use error::SwapError;
pub use swappable::{FixedRateSource, Swappable};
pub use swapper::{Event, SwapRequest, SwapResult, Swapper};
