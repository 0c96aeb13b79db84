use grf_tree::{
    bytes_eq, entry_segments, label_or_unnamed, normalize_segments, open_grf, segment_is_named,
    segment_label, split_path,
    FileTree, LoadGrf, RenderStep,
};

fn build(paths: &[&[u8]]) -> FileTree {
    let v: Vec<Vec<u8>> = paths.iter().map(|p| p.to_vec()).collect();
    FileTree::build("data".to_string(), &v)
}

fn labels_of_children(t: &FileTree, i: usize) -> Vec<(String, bool)> {
    t.nodes[i]
        .children
        .iter()
        .map(|&c| (t.nodes[c].label.clone(), t.nodes[c].is_branch))
        .collect()
}

fn branch_count(t: &FileTree) -> usize {
    t.nodes.iter().filter(|n| n.is_branch).count()
}

fn child_named(t: &FileTree, i: usize, name: &str) -> usize {
    *t.nodes[i]
        .children
        .iter()
        .find(|&&c| t.nodes[c].label == name)
        .expect("child present")
}

#[test]
fn single_entry_is_leaf_of_root() {
    let t = build(&[b"data/a.txt"]);
    assert_eq!(t.nodes[0].label, "data");
    assert!(t.nodes[0].is_branch);
    assert_eq!(labels_of_children(&t, 0), vec![("a.txt".to_string(), false)]);
    assert_eq!(t.nodes.len(), 2);
}

#[test]
fn shared_directory_holds_both_files_in_order() {
    let t = build(&[b"data/x/a.txt", b"data/x/b.txt"]);
    assert_eq!(labels_of_children(&t, 0), vec![("x".to_string(), true)]);
    let x = child_named(&t, 0, "x");
    assert_eq!(
        labels_of_children(&t, x),
        vec![("a.txt".to_string(), false), ("b.txt".to_string(), false)]
    );
}

#[test]
fn two_directories_one_leaf_each() {
    let t = build(&[b"data/x/a.txt", b"data/y/b.txt"]);
    assert_eq!(
        labels_of_children(&t, 0),
        vec![("x".to_string(), true), ("y".to_string(), true)]
    );
    let x = child_named(&t, 0, "x");
    let y = child_named(&t, 0, "y");
    assert_eq!(labels_of_children(&t, x), vec![("a.txt".to_string(), false)]);
    assert_eq!(labels_of_children(&t, y), vec![("b.txt".to_string(), false)]);
}

#[test]
fn common_ancestor_made_once() {
    let t = build(&[b"data/x/y/a.txt", b"data/x/z/b.txt"]);
    let xs = t.nodes.iter().filter(|n| n.label == "x").count();
    assert_eq!(xs, 1);
    assert_eq!(labels_of_children(&t, 0), vec![("x".to_string(), true)]);
    let x = child_named(&t, 0, "x");
    assert_eq!(
        labels_of_children(&t, x),
        vec![("y".to_string(), true), ("z".to_string(), true)]
    );
    assert_eq!(branch_count(&t), 4);
}

#[test]
fn undecodable_segment_is_unnamed() {
    let t = build(&[b"data/\xff\xfe/a.txt", b"data/b.txt", b"data/c\x80.txt"]);
    assert_eq!(
        labels_of_children(&t, 0),
        vec![
            ("Unnamed".to_string(), true),
            ("b.txt".to_string(), false),
            ("Unnamed".to_string(), false)
        ]
    );
    let u = t.nodes[0].children[0];
    assert_eq!(labels_of_children(&t, u), vec![("a.txt".to_string(), false)]);
}

#[test]
fn directory_count_matches_distinct_prefixes() {
    let t = build(&[
        b"data/a/b/c.txt",
        b"data/a/b/d.txt",
        b"data/a/e.txt",
        b"data/f/g.txt",
        b"data/h.txt",
    ]);
    // directories: a, a/b, f, plus the root
    assert_eq!(branch_count(&t), 4);
    assert_eq!(t.nodes.len(), 4 + 5);
}

#[test]
fn every_entry_reachable_once() {
    let paths: [&[u8]; 4] = [b"data/a/b/c.txt", b"data/a/e.txt", b"data/f/g.txt", b"data/h.txt"];
    let t = build(&paths);
    for p in paths.iter() {
        let segs = entry_segments(&p.to_vec());
        let mut cur = 0usize;
        for (m, s) in segs.iter().enumerate() {
            let last = m + 1 == segs.len();
            let found: Vec<usize> = t.nodes[cur]
                .children
                .iter()
                .copied()
                .filter(|&c| &t.nodes[c].segment == s && t.nodes[c].is_branch != last)
                .collect();
            assert_eq!(found.len(), 1);
            cur = found[0];
        }
        assert!(!t.nodes[cur].is_branch);
    }
    let leaves = t.nodes.iter().filter(|n| !n.is_branch).count();
    assert_eq!(leaves, paths.len());
}

fn shape(t: &FileTree, i: usize, prefix: String, out: &mut Vec<String>) {
    let n = &t.nodes[i];
    let here = format!("{}/{}{}", prefix, n.label, if n.is_branch { "/" } else { "" });
    out.push(here.clone());
    for &c in n.children.iter() {
        shape(t, c, here.clone(), out);
    }
}

#[test]
fn order_of_entries_does_not_change_tree() {
    let t1 = build(&[b"data/x/y/a.txt", b"data/x/z/b.txt", b"data/c.txt"]);
    let t2 = build(&[b"data/c.txt", b"data/x/z/b.txt", b"data/x/y/a.txt"]);
    let mut s1 = Vec::new();
    let mut s2 = Vec::new();
    shape(&t1, 0, String::new(), &mut s1);
    shape(&t2, 0, String::new(), &mut s2);
    assert_ne!(s1, s2);
    s1.sort();
    s2.sort();
    assert_eq!(s1, s2);
}

#[test]
fn render_twice_is_the_same() {
    let t = build(&[b"data/x/a.txt", b"data/x/b.txt", b"data/c.txt"]);
    let r1 = t.render();
    let r2 = t.render();
    assert_eq!(r1, r2);
    assert_eq!(
        r1,
        vec![
            RenderStep::Open("data".to_string()),
            RenderStep::Open("x".to_string()),
            RenderStep::Label("a.txt".to_string()),
            RenderStep::Label("b.txt".to_string()),
            RenderStep::Close,
            RenderStep::Label("c.txt".to_string()),
            RenderStep::Close,
        ]
    );
}

#[test]
fn empty_listing_renders_root_only() {
    let t = build(&[]);
    assert_eq!(t.nodes.len(), 1);
    assert_eq!(
        t.render(),
        vec![RenderStep::Open("data".to_string()), RenderStep::Close]
    );
}

#[test]
fn insert_by_segments() {
    let mut t = FileTree::new("root".to_string());
    t.insert(&vec![b"d".to_vec(), b"f".to_vec()]);
    t.insert(&vec![b"g".to_vec()]);
    assert_eq!(
        labels_of_children(&t, 0),
        vec![("d".to_string(), true), ("g".to_string(), false)]
    );
}

#[test]
fn entry_without_top_directory_attaches_to_root() {
    let t = build(&[b"a.txt"]);
    assert_eq!(labels_of_children(&t, 0), vec![("a.txt".to_string(), false)]);
}

#[test]
fn split_on_slashes() {
    assert_eq!(
        split_path(&b"data/x//a".to_vec()),
        vec![b"data".to_vec(), b"x".to_vec(), b"".to_vec(), b"a".to_vec()]
    );
    assert_eq!(split_path(&Vec::new()), vec![Vec::<u8>::new()]);
    assert_eq!(
        entry_segments(&b"data/x/a".to_vec()),
        vec![b"x".to_vec(), b"a".to_vec()]
    );
    assert_eq!(
        entry_segments(&b"data/x//./a/".to_vec()),
        vec![b"x".to_vec(), b"a".to_vec()]
    );
    assert_eq!(entry_segments(&b"/".to_vec()), vec![Vec::<u8>::new()]);
    assert_eq!(
        normalize_segments(vec![b"".to_vec(), b".".to_vec(), b"..".to_vec(), b"a".to_vec()]),
        vec![b"..".to_vec(), b"a".to_vec()]
    );
    assert!(segment_is_named(&b"..".to_vec()));
    assert!(!segment_is_named(&b".".to_vec()));
    assert!(!segment_is_named(&Vec::new()));
    assert_eq!(entry_segments(&b"a".to_vec()), vec![b"a".to_vec()]);
}

#[test]
fn labels_decode_or_fall_back() {
    assert_eq!(segment_label(&b"abc".to_vec()), "abc");
    assert_eq!(segment_label(&vec![0xff]), "Unnamed");
    assert_eq!(
        segment_label(&"\u{d55c}\u{ae00}".as_bytes().to_vec()),
        "\u{d55c}\u{ae00}"
    );
    assert_eq!(segment_label(&vec![0xc3]), "Unnamed");
    assert_eq!(label_or_unnamed(None), "Unnamed");
    assert_eq!(label_or_unnamed(Some("x".to_string())), "x");
}

#[test]
fn byte_equality() {
    assert!(bytes_eq(&b"ab".to_vec(), &b"ab".to_vec()));
    assert!(!bytes_eq(&b"ab".to_vec(), &b"ac".to_vec()));
    assert!(!bytes_eq(&b"ab".to_vec(), &b"a".to_vec()));
}

#[test]
fn open_names_archive_and_builds_tree() {
    let req = LoadGrf::new(b"games/data.grf".to_vec());
    let g = open_grf(&req, &vec![b"data/x/a.txt".to_vec()]);
    assert_eq!(g.filename, "data.grf");
    assert_eq!(g.tree.nodes[0].label, "data");
    assert_eq!(g.tree.nodes.len(), 3);
    let dir = open_grf(&LoadGrf::new(b"dir/".to_vec()), &Vec::new());
    assert_eq!(dir.filename, "dir");
    let up = open_grf(&LoadGrf::new(b"x/..".to_vec()), &Vec::new());
    assert_eq!(up.filename, "Unnamed");
    let here = open_grf(&LoadGrf::new(b"x/.".to_vec()), &Vec::new());
    assert_eq!(here.filename, "x");
    let root = open_grf(&LoadGrf::new(b"/".to_vec()), &Vec::new());
    assert_eq!(root.filename, "Unnamed");
    let raw = open_grf(&LoadGrf::new(vec![b'a', 0xff]), &Vec::new());
    assert_eq!(raw.filename, "Unnamed");
}

#[test]
fn repeated_slashes_and_dots_do_not_make_directories() {
    let t = build(&[b"data/x//a.txt", b"data/./x/b.txt"]);
    assert_eq!(labels_of_children(&t, 0), vec![("x".to_string(), true)]);
    let x = child_named(&t, 0, "x");
    assert_eq!(
        labels_of_children(&t, x),
        vec![("a.txt".to_string(), false), ("b.txt".to_string(), false)]
    );
}

#[test]
fn siblings_follow_first_seen_order() {
    let t = build(&[b"data/b/1", b"data/a.txt", b"data/c/2", b"data/b/3", b"data/a/4"]);
    assert_eq!(
        labels_of_children(&t, 0),
        vec![
            ("b".to_string(), true),
            ("a.txt".to_string(), false),
            ("c".to_string(), true),
            ("a".to_string(), true)
        ]
    );
    for n in t.nodes.iter() {
        for w in n.children.windows(2) {
            assert!(w[0] < w[1]);
        }
    }
}

#[test]
fn leaf_and_directory_of_same_path_stand_side_by_side() {
    let t = build(&[b"data/x", b"data/x/a.txt"]);
    assert_eq!(
        labels_of_children(&t, 0),
        vec![("x".to_string(), false), ("x".to_string(), true)]
    );
    assert_eq!(t.nodes.len(), 4);
}

#[test]
fn undecodable_leaf_before_sibling_renders_unnamed() {
    let t = build(&[b"data/\xff.txt", b"data/b.txt"]);
    assert_eq!(
        t.render(),
        vec![
            RenderStep::Open("data".to_string()),
            RenderStep::Label("Unnamed".to_string()),
            RenderStep::Label("b.txt".to_string()),
            RenderStep::Close,
        ]
    );
}

#[test]
fn nested_directories_render_once() {
    let t = build(&[b"data/x/y/a.txt", b"data/x/z/b.txt"]);
    assert_eq!(
        t.render(),
        vec![
            RenderStep::Open("data".to_string()),
            RenderStep::Open("x".to_string()),
            RenderStep::Open("y".to_string()),
            RenderStep::Label("a.txt".to_string()),
            RenderStep::Close,
            RenderStep::Open("z".to_string()),
            RenderStep::Label("b.txt".to_string()),
            RenderStep::Close,
            RenderStep::Close,
            RenderStep::Close,
        ]
    );
}
