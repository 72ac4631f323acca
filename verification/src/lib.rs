//! Analyzers that look for trouble in PX4 flight logs.
//!
//! Each analyzer takes in the messages of a log one by one and reports what it
//! found: [`battery_brownout`], [`ekf_failure`], [`gps_interference`],
//! [`motor_failure`] and [`rc_loss`].
pub mod battery_brownout;
pub mod decimal;
pub mod diagnostic;
pub mod double_sum;
pub mod ekf_failure;
pub mod float32;
pub mod gps_interference;
pub mod message;
pub mod motor_failure;
pub mod rc_loss;
pub mod rounding;
pub mod vehicle_status;
