//! Type-erased ordered collections: the `Array` and `List` capabilities, the
//! run-time containers `DynamicArray` and `DynamicList`, and the structural
//! hash, comparison and apply written once against the capabilities.
pub mod array;
pub mod list;
pub mod reflect;

pub use array::{array_apply, array_hash, array_partial_eq, Array, ArrayIter, DynamicArray};
pub use list::{list_apply, list_partial_eq, DynamicList, List};
pub use reflect::{Reflect, ShapeMismatch, Value};
