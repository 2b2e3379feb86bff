//! Motor-phase output layer of a three-phase motor controller.
//!
//! The crate converts a two-axis (alpha/beta) drive vector into three
//! sign-magnitude phase commands, and decides the writes that put them on the
//! outputs of an RP2040: for each phase a direction pin and a PWM channel.
//!
//! Single-precision values are carried as IEEE 754 bit patterns. Every operation
//! on them is computed in integers and proved to give the exact result rounded to
//! nearest, ties to even.
//!
//! - `single`: the bit patterns and what they stand for.
//! - `round`, `arith`: rounding and the four operations.
//! - `accuracy`: how near a rounded result is to the exact one.
//! - `math`, `round_trip`: the transform and its inverse.
//! - `pwm`: the driver of the three phases.
//! - `scaling`, `outputs`: what the driver's decisions amount to.
pub mod accuracy;
pub mod arith;
pub mod math;
pub mod outputs;
pub mod pwm;
pub mod round;
pub mod round_trip;
pub mod scaling;
pub mod single;
