//! Reader-writer locks.

pub mod distributed_rw;
pub mod rw_r_pre;
pub mod rw_w_pre;
