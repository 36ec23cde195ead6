//! Finding and reaching the other chat processes.

pub mod get_my_ip;
pub mod multicast;
