use autorct::fpath::{components, raw_path_components, NNode, NTree, NodeType};

fn strings(v: &[&str]) -> Vec<String> {
    v.iter().map(|s| s.to_string()).collect()
}

fn sorted(mut v: Vec<String>) -> Vec<String> {
    v.sort();
    v
}

#[test]
fn nnode_kinds() {
    let f = NNode::new("a.rs".to_string(), NodeType::File);
    assert!(f.is_file());
    assert!(!f.is_dir());
    assert_eq!(f.name, "a.rs");
    assert!(f.children.is_empty());
    let d = NNode::new("src".to_string(), NodeType::Directory);
    assert!(d.is_dir());
    assert!(!d.is_file());
}

#[test]
fn path_components_follow_std() {
    assert_eq!(components("/home//u/./p/"), strings(&["/", "home", "u", "p"]));
    assert_eq!(components("./a/b"), strings(&["a", "b"]));
    assert_eq!(components("a/../b"), strings(&["a", "..", "b"]));
    assert_eq!(components(""), Vec::<String>::new());
    assert_eq!(raw_path_components("./a/b"), strings(&[".", "a", "b"]));
    assert_eq!(raw_path_components("/x/y"), strings(&["/", "x", "y"]));
    assert_eq!(raw_path_components("."), strings(&["."]));
}

#[test]
fn empty_tree_holds_nothing() {
    let t = NTree::new("/tmp".to_string());
    assert_eq!(t.prefix, "/tmp");
    assert!(t.root.is_none());
    assert!(!t.path_exists("/"));
    assert!(t.find("/a").is_none());
    assert!(t.children("/").is_empty());
}

#[test]
fn add_then_find() {
    let mut t = NTree::new("/".to_string());
    t.add_path("/home/u/p/a.rs", NodeType::File);
    assert!(t.path_exists("/home/u/p/a.rs"));
    assert!(t.is_file("/home/u/p/a.rs"));
    assert!(!t.is_dir("/home/u/p/a.rs"));
    assert!(t.is_dir("/home/u"));
    assert!(t.is_dir("/"));
    assert!(!t.path_exists("/home/v"));
    assert_eq!(t.find("/home/u").unwrap().name, "u");
    assert_eq!(t.root.as_ref().unwrap().name, "/");
    assert_eq!(t.children("/home/u/p"), strings(&["a.rs"]));
    assert!(t.children("/home/u/p/a.rs").is_empty());
}

#[test]
fn add_twice_changes_nothing() {
    let mut t = NTree::new("/".to_string());
    t.add_path("/a/b", NodeType::File);
    t.add_path("/a/b", NodeType::File);
    t.add_path("/a/c", NodeType::Directory);
    assert_eq!(sorted(t.children("/a")), strings(&["b", "c"]));
    assert!(t.is_file("/a/b"));
    assert!(t.is_dir("/a/c"));
}

#[test]
fn add_below_a_file_stops_there() {
    let mut t = NTree::new("/".to_string());
    t.add_path("/a/f", NodeType::File);
    t.add_path("/a/f/g", NodeType::File);
    assert!(t.is_file("/a/f"));
    assert!(!t.path_exists("/a/f/g"));
}

#[test]
fn first_component_stands_for_the_root() {
    let mut t = NTree::new("/".to_string());
    t.add_path("/a", NodeType::Directory);
    t.add_path("/b/c", NodeType::File);
    assert!(t.path_exists("/a"));
    assert!(t.path_exists("x/b/c"));
}

#[test]
fn delete_removes_the_subtree() {
    let mut t = NTree::new("/".to_string());
    t.add_path("/a/b/c", NodeType::File);
    t.add_path("/a/d", NodeType::File);
    assert!(t.delete_path("/a/b"));
    assert!(!t.path_exists("/a/b"));
    assert!(!t.path_exists("/a/b/c"));
    assert!(t.path_exists("/a/d"));
    assert!(!t.delete_path("/a/b"));
}

#[test]
fn delete_of_one_component_clears() {
    let mut t = NTree::new("/".to_string());
    assert!(!t.delete_path("/"));
    t.add_path("/a/b", NodeType::File);
    assert!(t.delete_path("/"));
    assert!(t.root.is_none());
    assert!(!t.path_exists("/a"));
}

#[test]
fn move_to_a_directory() {
    let mut t = NTree::new("/".to_string());
    t.add_path("/a/b/x.rs", NodeType::File);
    t.add_path("/a/c", NodeType::Directory);
    assert!(t.update_path("/a/b/x.rs", "/a/c/y.rs"));
    assert!(!t.path_exists("/a/b/x.rs"));
    assert!(t.is_file("/a/c/y.rs"));
    assert_eq!(t.find("/a/c/y.rs").unwrap().name, "y.rs");
}

#[test]
fn move_with_a_missing_parent_fails() {
    let mut t = NTree::new("/".to_string());
    t.add_path("/a/b", NodeType::File);
    assert!(!t.update_path("/a/b", "/z/q/b"));
    assert!(t.path_exists("/a/b"));
    assert!(!t.update_path("/a/nope", "/a/other"));
    assert!(!t.update_path("/", "/a/x"));
    assert!(!t.update_path("/a/b", "/"));
}

#[test]
fn move_under_a_file_loses_the_entry() {
    let mut t = NTree::new("/".to_string());
    t.add_path("/a/f", NodeType::File);
    t.add_path("/a/g", NodeType::File);
    assert!(!t.update_path("/a/g", "/a/f/g"));
    assert!(!t.path_exists("/a/g"));
    assert!(t.is_file("/a/f"));
}

#[test]
fn move_into_itself_loses_the_entry() {
    let mut t = NTree::new("/".to_string());
    t.add_path("/a/b/c", NodeType::Directory);
    assert!(t.update_path("/a/b", "/a/b/c/d"));
    assert!(!t.path_exists("/a/b"));
    assert!(t.path_exists("/a"));
    t.add_path("/a/e", NodeType::Directory);
    assert!(t.update_path("/a/e", "/a/e/f"));
    assert!(!t.path_exists("/a/e"));
}

#[test]
fn move_below_a_file_inside_itself_loses_the_entry() {
    let mut t = NTree::new("/".to_string());
    t.add_path("/a/b/c", NodeType::File);
    assert!(!t.update_path("/a/b", "/a/b/c/d"));
    assert!(!t.path_exists("/a/b"));
}

#[test]
fn clear_empties() {
    let mut t = NTree::new("/p".to_string());
    t.add_path("/a/b", NodeType::File);
    t.clear();
    assert!(t.root.is_none());
    assert_eq!(t.prefix, "/p");
}

#[test]
fn append_joins_as_pathbuf() {
    let t = NTree::new("/".to_string());
    assert_eq!(t.append_path("/a", "b"), "/a/b");
    assert_eq!(t.append_path("/a/", "b"), "/a/b");
    assert_eq!(t.append_path("/a", "/b"), "/b");
    assert_eq!(t.append_path("", "b"), "b");
}

#[test]
fn trim_last_components() {
    let t = NTree::new("/".to_string());
    assert_eq!(t.trim_last_n("/a/b/c", 1), "/a/b");
    assert_eq!(t.trim_last_n("/a/b/c", 3), "/");
    assert_eq!(t.trim_last_n("/a/b/c", 4), "");
    assert_eq!(t.trim_last_n("a//b/", 0), "a/b");
    assert_eq!(t.trim_last_n("./a/b", 1), "./a");
}

#[test]
fn move_then_move_back_restores() {
    let mut t = NTree::new("/".to_string());
    t.add_path("/a/b/x.rs", NodeType::File);
    t.add_path("/a/b/y/z", NodeType::File);
    t.add_path("/a/c", NodeType::Directory);
    assert!(t.update_path("/a/b", "/a/c/d"));
    assert!(t.is_file("/a/c/d/y/z"));
    assert!(t.update_path("/a/c/d", "/a/b"));
    assert!(t.is_file("/a/b/x.rs"));
    assert!(t.is_file("/a/b/y/z"));
    assert!(t.is_dir("/a/b/y"));
    assert!(!t.path_exists("/a/c/d"));
    assert!(t.children("/a/c").is_empty());
    assert_eq!(sorted(t.children("/a")), strings(&["b", "c"]));
}

#[test]
fn parents_are_directories() {
    let mut t = NTree::new("/".to_string());
    t.add_path("/a/b/c.rs", NodeType::File);
    t.add_path("/a/d", NodeType::File);
    for p in ["/a/b/c.rs", "/a/d", "/a/b", "/a"] {
        assert!(t.path_exists(p));
        assert!(t.is_dir(&t.trim_last_n(p, 1)));
    }
}
