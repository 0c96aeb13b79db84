//! A verified directory-tree builder for archive entry listings.
//!
//! Flat, slash-separated entry paths are materialised into an arena of
//! nodes in which every directory exists exactly once, and the finished
//! tree is walked top-down into a list of render decisions.
mod events;
mod laws;
mod label;
mod path;
mod tree;
mod walk;

pub use events::{archive_name, open_grf, LoadGrf, OpenGrf};
pub use label::{label_of_decoded, label_or_unnamed, label_spec, segment_label, utf8_text, UNNAMED};
pub use path::{
    entry_segments, is_named, normalize, normalize_segments, relative_spec, segment_is_named, segs_view, split_path,
    split_spec,
};
pub use tree::{bytes_eq, count_true, dir_prefixes, entries_of, extends, appends_only, node_appends, is_dir_prefix, FileTree, Node};
pub use laws::{has_node_like, has_route, is_route, lemma_children_first_seen, lemma_directory_count, lemma_entries_reach_leaves, lemma_order_independent};
pub use walk::{lemma_render_repeatable, render_children, render_node, steps_view, RenderDecision, RenderStep};
