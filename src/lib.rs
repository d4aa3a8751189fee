//! Erases type-system-only syntax from a source text while keeping the byte
//! layout of the code that remains.
mod options;
mod span;
mod splice;
mod strip;
mod tree;

pub use options::StripTypesOptions;
pub use span::Span;
pub use splice::{
    covered, fill, lemma_fill_valid, lemma_middle_valid, lemma_spliced_len,
    lemma_spliced_positions, lemma_spliced_valid, on_boundaries, ordered, replace_range, replaced,
    spliced, total_len, in_bounds, erasable,
};
pub use tree::{
    Action, Node, NodeKind, SyntaxTree, after_subtree, classify, collected, collected_from,
    descends, lemma_collected_from, lemma_collected_from_boundaries, lemma_collected_ordered,
    lemma_nothing_to_erase, nodes_on_boundaries, skip_subtree, spec_action, well_formed,
};
pub use strip::{
    Diagnostic, StripTypes, StripTypesImpl, StripTypesReturn, bytes_of, check_spans, dialect_known,
    lemma_build_without_types, lemma_strip_layout, lemma_strip_without_types, lemma_tree_fits, spans_fit, stripped_bytes,
};
