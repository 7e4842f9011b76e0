use std::path::PathBuf;

use flat_tree::{index_to_char, LineType, Tree, TreeLine};

fn line(name: &str, depth: u16, key: &str, content: LineType) -> TreeLine {
    TreeLine {
        left_branchs: vec![false; depth as usize].into_boxed_slice(),
        depth,
        key: String::from(key),
        path: PathBuf::from(format!("/r/{}", name)),
        content,
        has_error: false,
    }
}

fn file(name: &str, key: &str) -> TreeLine {
    let depth = key.len() as u16;
    line(name, depth, key, LineType::File { name: String::from(name) })
}

fn dir(name: &str, key: &str) -> TreeLine {
    let depth = key.len() as u16;
    line(name, depth, key, LineType::Dir { name: String::from(name), unlisted: 0 })
}

fn pruning(key: &str) -> TreeLine {
    let depth = key.len() as u16;
    line("", depth, key, LineType::Pruning { unlisted: 3 })
}

fn tree(lines: Vec<TreeLine>) -> Tree {
    Tree { lines: lines.into_boxed_slice(), selection: 0 }
}

fn named_tree(names: &[&str]) -> Tree {
    let keys = ["", "a", "b", "c", "d", "e", "f", "g"];
    let mut lines = Vec::new();
    for (i, n) in names.iter().enumerate() {
        if i == 0 {
            lines.push(dir(n, keys[i]));
        } else {
            lines.push(file(n, keys[i]));
        }
    }
    tree(lines)
}

#[test]
fn rank_characters() {
    assert_eq!(index_to_char(1), 'a');
    assert_eq!(index_to_char(26), 'z');
    assert_eq!(index_to_char(27), '0');
    assert_eq!(index_to_char(36), '9');
    assert_eq!(index_to_char(37), 'A');
    assert_eq!(index_to_char(60), 'X');
    assert_eq!(index_to_char(0), ' ');
    assert_eq!(index_to_char(61), ' ');
}

#[test]
fn fill_key_spells_ranks() {
    let mut l = file("x", "");
    l.fill_key(&vec![0, 1, 2, 3], 3);
    assert_eq!(l.key, "abc");
    let mut m = file("y", "");
    m.fill_key(&vec![9, 27, 37, 60, 5], 3);
    assert_eq!(m.key, "0AX");
}

#[test]
fn fill_key_zero_depth_leaves_key() {
    let mut l = file("x", "");
    l.fill_key(&vec![0], 0);
    assert_eq!(l.key, "");
}

#[test]
fn fill_key_appends() {
    let mut l = file("x", "");
    l.fill_key(&vec![0, 2], 1);
    l.fill_key(&vec![0, 3], 1);
    assert_eq!(l.key, "bc");
}

#[test]
fn keys_order_as_last_rank() {
    let mut a = file("a", "");
    a.fill_key(&vec![0, 2, 5], 2);
    let mut b = file("b", "");
    b.fill_key(&vec![7, 2, 6], 2);
    assert_eq!(a.key.len(), 2);
    assert!(a.key.chars().all(|c| c.is_ascii_lowercase()));
    assert!(a.key < b.key);
}

#[test]
fn has_branch_bounds() {
    let mut lines = vec![dir("root", ""), dir("d", "a"), file("f", "aa"), file("g", "b")];
    lines[2].left_branchs[0] = true;
    let t = tree(lines);
    assert!(t.has_branch(2, 0));
    assert!(!t.has_branch(2, 1));
    assert!(!t.has_branch(2, 2));
    assert!(!t.has_branch(2, 100));
    assert!(!t.has_branch(0, 0));
    assert!(!t.has_branch(4, 0));
    assert!(!t.has_branch(usize::MAX, 0));
}

#[test]
fn move_forward_cycles() {
    let mut t = named_tree(&["root", "a", "b", "c"]);
    t.selection = 1;
    for _ in 0..5 {
        t.move_selection(1);
    }
    assert_eq!(t.selection, (1 + 5) % 4);
}

#[test]
fn move_backward_wraps() {
    let mut t = named_tree(&["root", "a", "b", "c"]);
    t.move_selection(-1);
    assert_eq!(t.selection, 3);
    t.move_selection(-1);
    assert_eq!(t.selection, 2);
}

#[test]
fn move_by_more_than_the_line_count() {
    let mut t = named_tree(&["root", "a", "b", "c"]);
    t.move_selection(6);
    assert_eq!(t.selection, 2);
    t.move_selection(-7);
    assert_eq!(t.selection, 3);
}

#[test]
fn move_skips_pruning_lines() {
    let mut t = tree(vec![dir("root", ""), pruning("a"), pruning("b"), file("c", "c")]);
    t.move_selection(1);
    assert_eq!(t.selection, 3);
    t.move_selection(1);
    assert_eq!(t.selection, 0);
    t.move_selection(-1);
    assert_eq!(t.selection, 3);
}

#[test]
fn try_select_by_key() {
    let mut t = tree(vec![dir("root", ""), dir("x", "a"), file("y", "b"), file("z", "aa")]);
    assert!(t.try_select("b"));
    assert_eq!(t.selection, 2);
    assert!(!t.try_select("z"));
    assert_eq!(t.selection, 2);
    assert!(t.try_select("aa"));
    assert_eq!(t.selection, 3);
    assert!(t.try_select(""));
    assert_eq!(t.selection, 0);
}

// A scorer in the manner of a fuzzy matcher: names holding the pattern score
// higher the earlier it starts and the shorter the name.
fn score(name: &str, pattern: &str) -> Option<i32> {
    name.find(pattern).map(|pos| 1000 - 10 * pos as i32 - name.len() as i32)
}

fn scores(t: &Tree, pattern: &str) -> Vec<Option<i32>> {
    t.lines.iter().map(|l| l.name().and_then(|n| score(n, pattern))).collect()
}

fn matches(t: &Tree, pattern: &str) -> Vec<bool> {
    t.lines.iter().map(|l| l.name().map_or(false, |n| n.contains(pattern))).collect()
}

#[test]
fn best_match_picks_highest_score() {
    let mut t = named_tree(&["root", "apple", "app", "snap"]);
    let s = scores(&t, "app");
    assert!(t.try_select_best_match(&s));
    assert_eq!(t.selection, 2);
}

#[test]
fn best_match_tie_keeps_earliest() {
    let mut t = named_tree(&["root", "xa", "ya", "za"]);
    let s = vec![None, Some(5), Some(9), Some(9)];
    assert!(t.try_select_best_match(&s));
    assert_eq!(t.selection, 2);
}

#[test]
fn best_match_none_keeps_selection() {
    let mut t = named_tree(&["root", "apple", "app", "snap"]);
    t.selection = 3;
    let s = scores(&t, "zzz");
    assert!(!t.try_select_best_match(&s));
    assert_eq!(t.selection, 3);
    assert!(!t.try_select_best_match(&vec![Some(0), Some(-4), None, Some(0)]));
    assert_eq!(t.selection, 3);
}

#[test]
fn best_match_skips_pruning() {
    let mut t = tree(vec![dir("root", ""), pruning("a"), file("b", "b")]);
    assert!(t.try_select_best_match(&vec![None, Some(50), Some(2)]));
    assert_eq!(t.selection, 2);
}

#[test]
fn next_match_cycles() {
    let mut t = named_tree(&["root", "foo", "bar", "food"]);
    let m = matches(&t, "fo");
    assert!(t.try_select_next_match(&m));
    assert_eq!(t.selection, 1);
    assert!(t.try_select_next_match(&m));
    assert_eq!(t.selection, 3);
    assert!(t.try_select_next_match(&m));
    assert_eq!(t.selection, 1);
}

#[test]
fn next_match_comes_back_to_selection_last() {
    let mut t = named_tree(&["root", "foo", "bar"]);
    t.selection = 1;
    let m = matches(&t, "fo");
    assert!(t.try_select_next_match(&m));
    assert_eq!(t.selection, 1);
}

#[test]
fn next_match_none_keeps_selection() {
    let mut t = tree(vec![dir("root", ""), pruning("a"), file("bar", "b")]);
    t.selection = 2;
    assert!(!t.try_select_next_match(&vec![false, true, false]));
    assert_eq!(t.selection, 2);
}

#[test]
fn unreadable_metadata_gives_error_file() {
    let l = TreeLine::create(PathBuf::from("/no/such/dir"), 2, None);
    assert!(l.has_error);
    assert!(matches!(l.content, LineType::File { .. }));
    assert_eq!(l.name(), Some("dir"));
    assert_eq!(l.depth, 2);
    assert_eq!(l.left_branchs.len(), 2);
    assert!(!l.left_branchs[0] && !l.left_branchs[1]);
    assert_eq!(l.key, "");
}

#[test]
fn create_directory_line() {
    let l = TreeLine::create(PathBuf::from("/home/u/src"), 1, Some(true));
    assert!(!l.has_error);
    assert!(l.is_dir());
    assert!(matches!(l.content, LineType::Dir { unlisted: 0, .. }));
    assert_eq!(l.name(), Some("src"));
    assert_eq!(l.path, PathBuf::from("/home/u/src"));
}

#[test]
fn create_file_line() {
    let l = TreeLine::create(PathBuf::from("notes.txt"), 0, Some(false));
    assert!(!l.has_error);
    assert!(!l.is_dir());
    assert_eq!(l.name(), Some("notes.txt"));
}

#[test]
fn create_unnamed_path() {
    let l = TreeLine::create(PathBuf::from("/"), 0, Some(true));
    assert_eq!(l.name(), Some("???"));
    let m = TreeLine::from_name(PathBuf::from("/a"), 0, None, None);
    assert_eq!(m.name(), Some("???"));
    let n = TreeLine::from_name(PathBuf::from("/a"), 0, Some(String::from("b")), Some(false));
    assert_eq!(n.name(), Some("b"));
}

#[test]
fn pruning_has_no_name() {
    let p = pruning("a");
    assert_eq!(p.name(), None);
    assert!(!p.is_dir());
}

#[test]
fn accessors() {
    let mut t = tree(vec![dir("root", ""), dir("x", "a"), file("y", "ab")]);
    assert_eq!(t.root(), &PathBuf::from("/r/root"));
    t.selection = 2;
    assert_eq!(t.key(), "ab");
    assert_eq!(t.selected_line().name(), Some("y"));
}
