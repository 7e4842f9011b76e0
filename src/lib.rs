//! A displayed file tree flattened into an ordered array of lines.
//!
//! Every node of the tree is a line, with no link from a child to its parent
//! or from a parent to its children. A line is designated either by its index
//! (0 for the root) or by its key, a string that spells the ranks of its
//! ancestors among their siblings and so survives a rebuild of the tree.

mod key_codec;
mod line;
mod tree;

pub use key_codec::{
    index_to_char, is_lowercase, key_of, lemma_key_order, lex_less, rank_char, rank_code,
};
pub use line::{content_name, LineType, TreeLine};
pub use tree::{
    can_move, first_landing, is_match, lemma_moves_down_without_pruning,
    lemma_unit_move_lands_on_selectable, match_score, move_target, moves, next_index, orbit,
    selectable, selectable_after, Tree,
};
