use dirsize::listing::Entry;
use dirsize::tree::DirTree;

fn tree_path(text: &str) -> Vec<Vec<u8>> {
    text.split('/').filter(|s| !s.is_empty()).map(|s| s.as_bytes().to_vec()).collect()
}

fn tree_child(listing: &[Entry], name: &str) -> Option<u64> {
    listing.iter().find(|e| e.name == name.as_bytes()).map(|e| e.size)
}

#[test]
fn new_tree_holds_only_its_root() {
    let tree = DirTree::new(b"/data".to_vec());
    assert_eq!(tree.name(), &b"/data".to_vec());
    assert_eq!(tree.size(), 0);
    assert!(tree.children().is_empty());
}

#[test]
fn files_add_up_along_their_paths() {
    let mut tree = DirTree::new(b".".to_vec());
    tree.add_file(&tree_path("a/x.txt"), 100);
    tree.add_file(&tree_path("a/y.txt"), 50);
    tree.add_file(&tree_path("b/z.log"), 25);
    tree.add_file(&tree_path("w.txt"), 10);
    assert_eq!(tree.size(), 185);
    let children = tree.children();
    assert_eq!(children.len(), 2);
    assert_eq!(tree_child(&children, "a"), Some(150));
    assert_eq!(tree_child(&children, "b"), Some(25));
    assert_eq!(tree_child(&children, "w.txt"), None);
}

#[test]
fn empty_directory_is_listed_with_size_zero() {
    let mut tree = DirTree::new(b".".to_vec());
    tree.add_dir(&tree_path("empty"));
    let children = tree.children();
    assert_eq!(children.len(), 1);
    assert_eq!(tree_child(&children, "empty"), Some(0));
    assert_eq!(tree.size(), 0);
}

#[test]
fn add_dir_creates_every_directory_on_the_way() {
    let mut tree = DirTree::new(b".".to_vec());
    tree.add_dir(&tree_path("a/b/c"));
    tree.add_file(&tree_path("a/b/c/f"), 7);
    tree.add_file(&tree_path("a/g"), 1);
    let children = tree.children();
    assert_eq!(children.len(), 1);
    assert_eq!(tree_child(&children, "a"), Some(8));
    assert_eq!(tree.size(), 8);
}

#[test]
fn add_dir_twice_is_add_dir_once() {
    let mut once = DirTree::new(b".".to_vec());
    once.add_file(&tree_path("a/f"), 3);
    once.add_dir(&tree_path("a/b"));
    let mut thrice = DirTree::new(b".".to_vec());
    thrice.add_file(&tree_path("a/f"), 3);
    thrice.add_dir(&tree_path("a/b"));
    thrice.add_dir(&tree_path("a/b"));
    thrice.add_dir(&tree_path("a/b"));
    assert_eq!(once.size(), thrice.size());
    let mut left: Vec<(Vec<u8>, u64)> =
        once.children().into_iter().map(|e| (e.name, e.size)).collect();
    let mut right: Vec<(Vec<u8>, u64)> =
        thrice.children().into_iter().map(|e| (e.name, e.size)).collect();
    left.sort();
    right.sort();
    assert_eq!(left, right);
    assert_eq!(left, vec![(b"a".to_vec(), 3)]);
}

#[test]
fn add_dir_leaves_sizes_alone() {
    let mut tree = DirTree::new(b".".to_vec());
    tree.add_file(&tree_path("a/f"), 12);
    tree.add_dir(&tree_path("a"));
    tree.add_dir(&tree_path(""));
    assert_eq!(tree.size(), 12);
    assert_eq!(tree_child(&tree.children(), "a"), Some(12));
}

#[test]
fn file_directly_in_root_creates_no_child() {
    let mut tree = DirTree::new(b".".to_vec());
    tree.add_file(&tree_path("w.txt"), 10);
    assert_eq!(tree.size(), 10);
    assert!(tree.children().is_empty());
}

#[test]
fn file_with_empty_path_counts_for_the_root_only() {
    let mut tree = DirTree::new(b"file".to_vec());
    tree.add_file(&Vec::new(), 42);
    assert_eq!(tree.size(), 42);
    assert!(tree.children().is_empty());
}

#[test]
fn same_file_added_twice_counts_twice() {
    let mut tree = DirTree::new(b".".to_vec());
    tree.add_file(&tree_path("a/x"), 5);
    tree.add_file(&tree_path("a/x"), 5);
    assert_eq!(tree.size(), 10);
    assert_eq!(tree_child(&tree.children(), "a"), Some(10));
}

#[test]
fn root_total_is_the_sum_of_all_sizes() {
    let mut tree = DirTree::new(b".".to_vec());
    let sizes: [u64; 6] = [1, 20, 300, 4000, 50000, 600000];
    let paths = ["a/b/c", "a/b/d", "a/e", "f/g", "h", "f/i/j/k"];
    let mut sum: u64 = 0;
    for (path, size) in paths.iter().zip(sizes.iter()) {
        tree.add_file(&tree_path(path), *size);
        sum += *size;
    }
    assert_eq!(tree.size(), sum);
    assert_eq!(tree.size(), 654321);
    let children = tree.children();
    assert_eq!(children.len(), 2);
    assert_eq!(tree_child(&children, "a"), Some(321));
    assert_eq!(tree_child(&children, "f"), Some(604000));
}

#[test]
fn sizes_up_to_the_limit_are_held() {
    let mut tree = DirTree::new(b".".to_vec());
    tree.add_file(&tree_path("a/x"), u64::MAX - 1);
    tree.add_file(&tree_path("a/y"), 1);
    assert_eq!(tree.size(), u64::MAX);
    assert_eq!(tree_child(&tree.children(), "a"), Some(u64::MAX));
}

#[test]
fn names_are_kept_byte_for_byte() {
    let mut tree = DirTree::new(b".".to_vec());
    let path = vec![vec![0xffu8, 0x41], b"f".to_vec()];
    tree.add_file(&path, 9);
    let other = vec![vec![0x41u8], b"f".to_vec()];
    tree.add_file(&other, 1);
    let children = tree.children();
    assert_eq!(children.len(), 2);
    assert!(children.iter().any(|e| e.name == vec![0xffu8, 0x41] && e.size == 9));
    assert!(children.iter().any(|e| e.name == vec![0x41u8] && e.size == 1));
}

#[test]
fn root_is_its_children_and_its_own_files() {
    let mut tree = DirTree::new(b".".to_vec());
    tree.add_dir(&tree_path("empty"));
    tree.add_file(&tree_path("a/x.txt"), 100);
    tree.add_file(&tree_path("a/deep/y.txt"), 50);
    tree.add_file(&tree_path("b/z.log"), 25);
    tree.add_file(&tree_path("w.txt"), 10);
    tree.add_file(&tree_path("v"), 1);
    let below: u64 = tree.children().iter().map(|e| e.size).sum();
    assert_eq!(below, 175);
    assert_eq!(tree.size(), below + 11);
    assert_eq!(tree.children().len(), 3);
}
