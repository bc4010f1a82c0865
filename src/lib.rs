//! A hierarchical timing wheel with `setTimeout` / `setInterval` semantics at
//! millisecond granularity. Deadlines are filed by their base-64 digits, one
//! layer per digit; each millisecond of logical time cascades the current
//! bucket of every layer down into the layer below, and what leaves layer 0
//! is due.

pub mod clock;
pub mod constant;
pub mod index;
pub mod laws;
pub mod layer;
pub mod radix;
pub mod task;
pub mod timer;
pub mod wheel;

pub use clock::ClockHands;
pub use index::BucketIndexes;
pub use layer::BucketLayer;
pub use task::{Task, TaskId};
pub use timer::{SystemTimer, TestingTimer, Timer};
pub use wheel::{convert_delay, TimingWheel};
