use vstd::prelude::*;
use crate::label::{label_spec, segment_label, UNNAMED};
use crate::path::{normalize, normalize_segments, split_path, split_spec};
use crate::tree::{entries_of, FileTree};
use vstd::string::StringExecFns;

verus! {

/// A request to open the archive stored at `path` (the path's bytes).
pub struct LoadGrf {
    pub path: Vec<u8>,
}

/// An opened archive: its file name and the tree of its entries.
pub struct OpenGrf {
    pub filename: String,
    pub tree: FileTree,
}

/// The name shown for an archive at byte path `p`: the label of its last
/// named segment, or `"Unnamed"` when there is none or it is `..`.
pub open spec fn archive_name(p: Seq<u8>) -> Seq<char> {
    let n = normalize(split_spec(p));
    if n.len() == 0 || n.last() == seq![46u8, 46u8] {
        UNNAMED@
    } else {
        label_spec(n.last())
    }
}

impl LoadGrf {
    /// Makes a request to open the archive at `path`.
    pub fn new(path: Vec<u8>) -> (r: LoadGrf)
        ensures
            r.path@ == path@,
    {
        LoadGrf { path }
    }
}

/// Opens an archive once its entry list has been read: names it after the
/// request's path and builds a fresh tree, rooted at `"data"`, of its entries.
pub fn open_grf(request: &LoadGrf, entry_paths: &Vec<Vec<u8>>) -> (r: OpenGrf)
    ensures
        r.filename@ == archive_name(request.path@),
        r.tree.wf(),
        r.tree.entries@ == entries_of(entry_paths@),
        r.tree.nodes@[0].label@ == "data"@,
{
    let segs = normalize_segments(split_path(&request.path));
    let filename = if segs.len() == 0 {
        String::from_str(UNNAMED)
    } else {
        let last = &segs[segs.len() - 1];
        if last.len() == 2 && last[0] == 46u8 && last[1] == 46u8 {
            assert(last@ =~= seq![46u8, 46u8]);
            String::from_str(UNNAMED)
        } else {
            assert(last@.len() != 2 ==> last@ != seq![46u8, 46u8]);
            segment_label(last)
        }
    };
    let tree = FileTree::build(String::from_str("data"), entry_paths);
    OpenGrf { filename, tree }
}

} // verus!
