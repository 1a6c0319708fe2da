//! A keyframe animation engine: easing curves, keyframes, chains of keyframes
//! with repeat policies, and a timeline that tracks the progress of every
//! animated identity against a monotonic clock.
//!
//! A chain animates one or more dimensions of a widget (a width, a padding,
//! a switch position), each through its own keyframes on the chain's clock.
//! Values are integers, progress ratios are expressed in thousandths
//! (`ease::SCALE`) and clock instants in milliseconds.

pub mod ease;
pub mod frame;
pub mod id;
pub mod chain;
pub mod timeline;
pub mod toggler;
