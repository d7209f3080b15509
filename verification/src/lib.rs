//! The control core of a path tracer.
//!
//! A path tracer spends its time on vector arithmetic, but what it renders is
//! decided by a small amount of counting: which pixel is written where, how many
//! samples go into it, how long a light path may grow, which of several
//! intersections is kept, which of several random points. This crate holds that counting and proves it.
//!
//! The arithmetic is supplied by the caller. Rays, intersection records and
//! light are type parameters that the crate only moves around, and every
//! operation on them is a function value. A contract therefore speaks of a
//! result through the postconditions of the functions that were handed in:
//! it says which calls the result came from, and in what order.
//!
//! * [`relation`] turns a function value into the relation between its
//!   arguments and the results that its postcondition allows.
//! * [`path`] follows one light path until it escapes, is absorbed or runs out
//!   of bounces.
//! * [`hit`] scans the primitives of a scene for the intersection to keep.
//! * [`sample`] draws candidates until one passes a test.
//! * [`camera`] samples every pixel of an image and lays the bytes out.

pub mod relation;
pub mod path;
pub mod hit;
pub mod sample;
pub mod camera;
