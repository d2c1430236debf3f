//! A permutation-indexed boolean state machine.
//!
//! For a fixed universe of `n` variable identifiers `{0, …, n-1}`, a *term*
//! is an ordered, non-repeating, non-empty sequence of identifiers. The
//! *term table* lists every term for the universe in a fixed order: grouped
//! by increasing length, and within one length in lexicographic order. A
//! [`machine::Machine`] binds one boolean to every term of its universe and
//! offers a single mutating operation, `flip`, which toggles a variable's
//! singleton term and cascades a batch of secondary toggles across the
//! dependent terms.

pub mod terms;
pub mod machine;
pub mod rows;

pub use machine::Machine;
pub use terms::factorial;
pub use terms::index_to_term;
pub use terms::permutations;
pub use terms::term_to_index;
