//! Lexical path components for UTF-8 path strings.
//!
//! A path string decomposes into a sequence of components: a root marker,
//! parent-directory markers (`..`), current-directory markers (`.`), and
//! ordinary named segments. The [`component::Utf8Component`] trait is the
//! uniform read-only surface over every platform-specific component type;
//! [`unix::Utf8UnixComponent`] implements it for the Unix-style grammar,
//! and [`parse`] decomposes and re-renders Unix-style path strings with a
//! proved round-trip guarantee.

mod sealed;
pub mod component;
pub mod order;
pub mod parse;
pub mod unix;
