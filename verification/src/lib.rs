//! A tracker of the sixteen largest values of a stream of `u32` values.
//!
//! A [`Top16`] is made with a cutoff and is then offered values one by one.
//! It admits a value that exceeds the cutoff and, once sixteen values are
//! held, the smallest of them, which then leaves. At any time it hands out
//! the values it holds in descending order, or in ascending order from the
//! other end.
//!
//! The tracker keeps sixteen value slots and one 64-bit word that names the
//! slots in ascending order of their values, four bits for each. Offering a
//! value costs a comparison in the common case, and four more comparisons
//! and a few shifts when the value is admitted.
//!
//! - [`model`] says what a tracker stands for, a cutoff and a descending
//!   sequence of values, and what each operation does to it.
//! - [`stream`] says what a tracker holds after a whole stream.
//! - [`packed`] describes the word that holds the sort order.
//! - [`order`] relates the slot values in sort order to the model.
//! - [`top16`] holds the tracker itself and its iterator.

pub mod model;
pub mod order;
pub mod packed;
pub mod stream;
pub mod top16;

pub use model::TopView;
pub use top16::{Iter, Top16};
