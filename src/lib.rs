//! Minimisation of blocks of conjunctive conditions, driven by a catalog of
//! domain rules that say which literals are implied or exhaustive.

/// Literals and their textual negation.
pub mod literal;
/// Collapse rules and their models.
pub mod rule;
/// Clauses as lists of literals: membership, removal, common parts.
pub mod clause;
/// The three merge operators.
pub mod merge;
/// The fixed-point driver that applies the merge operators.
pub mod driver;
/// The built-in catalog of the known configuration space.
pub mod catalog;
/// What a group of clauses means in a configuration, and why reduction keeps it.
pub mod semantics;
/// Idempotence, the bound on merge applications, and the merge operators on
/// small clauses.
pub mod laws;
/// Writing clauses back as text lines.
pub mod render;
/// Searching and trimming text.
pub mod text;
/// Taking conditional lines apart.
pub mod parse;
/// The complement of a group and the advisory inverted coverage count.
pub mod complement;
