//! Momentum for trackpads: after a swipe the pointer glides on in the direction of
//! the swipe and slows down.
//!
//! - [`touch`] follows the fingers on the trackpad, event by event.
//! - [`motion`] finds the swipe in the samples of a finger's path, and the velocity
//!   that a glide after it starts with.
//! - [`swipe_laws`] says what holds of every glide: it goes the way of the finger,
//!   waiting does not make it faster, and all directions are alike.
//! - [`regression_laws`] and [`release_laws`] say what a lifted finger gives, in real
//!   numbers and nanoseconds.
//! - [`session_laws`] says what a look at the fingers and a time step change, field by
//!   field.
//! - [`state`] ties the two together: when samples are taken, when a glide starts and
//!   stops, and how the pointer moves in it.
//! - [`config`] holds the settings, [`devices`] finds the trackpad by its name.
//! - [`binary32`] and [`arith`] are about the single-precision numbers in all this.

pub mod arith;
pub mod binary32;
pub mod config;
pub mod devices;
pub mod motion;
pub mod regression_laws;
pub mod release_laws;
pub mod session_laws;
pub mod state;
pub mod swipe_laws;
pub mod touch;
