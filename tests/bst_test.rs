use probable_fiesta::storage::tree::{LogSegment, TriOption};

#[test]
pub fn test_bst_insert() {
    let mut tree: LogSegment = LogSegment::new();

    let first_ten_letters = ["A", "B", "C", "D", "E", "F", "G", "H", "I", "J"];
    let mut exp_size = 0;
    for i in 0..first_ten_letters.len() {
        tree.insert((first_ten_letters[i].to_string(), first_ten_letters[i].to_string()));
        exp_size += 1;
        assert!(tree.size() == exp_size, "Expected tree size {}, actually is {}", exp_size, tree.size());
    }
}

// The size counts live entries only: each deletion lowers it by one.
#[test]
pub fn test_bst_insert_delete() {
    let mut tree: LogSegment = LogSegment::new();

    let first_ten_letters = ["A", "B", "C", "D", "E", "F", "G", "H", "I", "J"];
    let mut exp_size = 0;
    for i in 0..first_ten_letters.len() {
        tree.insert((first_ten_letters[i].to_string(), first_ten_letters[i].to_string()));
        exp_size += 1;
        assert!(tree.size() == exp_size, "Expected tree size {}, actually is {}", exp_size, tree.size());
        assert!(tree.key_exists(first_ten_letters[i].to_string()), "The letter {} doesn't exist in the tree after insert", first_ten_letters[i]);
    }

    let mut exp_size = tree.size();

    for i in 0..first_ten_letters.len() {
        tree.delete(first_ten_letters[i].to_string());
        exp_size -= 1;
        assert!(tree.size() == exp_size, "Expected tree size {}, actually is {}", exp_size, tree.size());
        assert!(!tree.key_exists(first_ten_letters[i].to_string()), "The letter {} exists in the tree after delete", first_ten_letters[i]);
    }
}

#[test]
fn tree_get_reports_three_states() {
    let mut tree = LogSegment::new();
    tree.insert(("b".to_string(), "1".to_string()));
    tree.delete("a".to_string());
    assert!(matches!(tree.get("b".to_string()), TriOption::TriSome(v) if v == "1"));
    assert!(matches!(tree.get("a".to_string()), TriOption::Tombstoned));
    assert!(matches!(tree.get("c".to_string()), TriOption::TriNone));
    assert_eq!(tree.size(), 1);
}

#[test]
fn tree_overwrite_keeps_one_entry() {
    let mut tree = LogSegment::new();
    tree.insert(("k".to_string(), "1".to_string()));
    tree.insert(("k".to_string(), "2".to_string()));
    assert_eq!(tree.size(), 1);
    assert!(matches!(tree.get("k".to_string()), TriOption::TriSome(v) if v == "2"));
    tree.delete("k".to_string());
    tree.insert(("k".to_string(), "3".to_string()));
    assert!(matches!(tree.get("k".to_string()), TriOption::TriSome(v) if v == "3"));
}

#[test]
fn tree_orders_by_code_point() {
    let mut tree = LogSegment::new();
    for k in ["b", "a", "ab", "B", "é", "z"] {
        tree.insert((k.to_string(), "v".to_string()));
    }
    tree.delete("c".to_string());
    assert_eq!(tree.serialize(), "B v\na v\nab v\nb v\nc\nz v\né v\n");
}

#[test]
fn empty_tree_serializes_to_nothing() {
    let tree = LogSegment::new();
    assert_eq!(tree.serialize(), "");
    assert_eq!(tree.size(), 0);
}
