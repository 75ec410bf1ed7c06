//! Response-time analysis for tasks that share resources under
//! fixed-priority scheduling.
pub mod analysis;
pub mod idmap;
pub mod laws;
pub mod model;
pub mod sums;

pub use analysis::{
    calculate_blocking_time, calculate_busy_period, calculate_exact_response_time,
    calculate_interference, calculate_response_time, final_display, own_analysis,
};
pub use idmap::{IdMap, IdSet};
pub use model::{pre_analysis, readin_u32, BlockingFiller, Task, TaskAnalysis, Trace};
