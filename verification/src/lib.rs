//! A reorder buffer that turns results arriving in any order into an ordered
//! stream, the back-pressure state that a producer of tasks waits on, and the
//! scheduling decisions of the thread-pool `map` around them.

pub mod inbox;
pub mod ordered;
pub mod scheduling;
pub mod shared_size;
