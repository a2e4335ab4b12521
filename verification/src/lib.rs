//! Pure-Rust SA-IS suffix array construction, BWT, and inverse BWT, in
//! libsais's output layout, for 8-bit input.
//!
//! ```
//! use sais_rs::{suffix_array, bwt, unbwt};
//!
//! let text = b"banana";
//! let sa = suffix_array(text).unwrap();
//! assert_eq!(sa, vec![5, 3, 1, 0, 4, 2]);
//!
//! let (b, primary) = bwt(text).unwrap();
//! let recovered = unbwt(&b, primary).unwrap();
//! assert_eq!(recovered, text);
//! ```

mod alphabet;
mod buckets;
mod bwt;
mod classify;
mod error;
mod index;
mod induce;
mod keys;
mod l_pass;
mod layout;
mod lms;
mod order;
mod parallel;
mod place;
mod roundtrip;
mod s_pass;
mod sa;
mod suffix;
mod unbwt;

pub use crate::bwt::{bwt, bwt_parallel, bwt_with_sa};
pub use crate::error::SaisError;
pub use crate::index::SaIndex;
pub use crate::sa::{
    suffix_array, suffix_array_into, suffix_array_parallel, suffix_array_parallel_into,
    suffix_array_with,
};
pub use crate::unbwt::{unbwt, unbwt_parallel, unbwt_walk_ok};
