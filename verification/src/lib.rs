//! An owned, mutable UTF-8 string value with small-string optimization:
//! short content is stored directly inside the value (no heap allocation),
//! and the value transparently promotes itself to a heap-backed buffer when
//! content outgrows the fixed inline capacity.
//!
//! The crate provides three artifacts:
//!
//! * [`InlineString`] — a fixed-capacity, stack-resident UTF-8 byte buffer
//!   with a strict, allocation-free API ([`inline_string`]);
//! * [`InlinableString`] — a two-variant string value that is either an
//!   `InlineString` or a heap buffer, switching representation as content
//!   grows or on an explicit shrink request ([`inlinable`]);
//! * [`StringExt`] — the capability contract that owned-string types
//!   implement, with derived algorithms for the operations that can be
//!   expressed through a small set of primitives ([`string_ext`]).
//!
//! Every operation maintains the central invariant that the stored bytes are
//! well-formed UTF-8, and every contract is stated over the byte content of
//! the value, using the UTF-8 specification functions of `vstd::utf8`.

pub mod codec;
pub mod inlinable;
pub mod inline_string;
pub mod ranges;
pub mod string_ext;

pub use inlinable::InlinableString;
pub use ranges::RangeBound;
pub use string_ext::FromUtf16Error;
pub use string_ext::FromUtf8Error;
pub use string_ext::StringExt;

pub use inline_string::INLINE_STRING_CAPACITY;
pub use inline_string::InlineString;
pub use inline_string::NotEnoughCapacity;
