use bitmap_index::index::BitmapIndex;
use bitmap_index::index::IndexError;

#[test]
fn insert_then_get_reports_member() {
    let mut idx = BitmapIndex::new();
    idx.insert("flags".to_string(), 42);
    assert!(idx.get("flags", 42));
    assert!(!idx.get("flags", 41));
}

#[test]
fn insert_twice_lists_once() {
    let mut once = BitmapIndex::new();
    once.insert("k".to_string(), 6);
    let mut twice = BitmapIndex::new();
    twice.insert("k".to_string(), 6);
    twice.insert("k".to_string(), 6);
    assert_eq!(once.list("k"), twice.list("k"));
    assert_eq!(twice.list("k"), vec![6]);
}

#[test]
fn list_is_ascending_and_deduplicated() {
    let mut idx = BitmapIndex::new();
    idx.batch_insert("k".to_string(), vec![9, 3, 3, 1, 64, 9]);
    assert_eq!(idx.list("k"), vec![1, 3, 9, 64]);
}

#[test]
fn batch_insert_then_list_pending() {
    let mut idx = BitmapIndex::new();
    idx.batch_insert("pending".to_string(), vec![1, 3, 5, 7, 9]);
    assert_eq!(idx.list("pending"), vec![1, 3, 5, 7, 9]);
}

#[test]
fn batch_insert_then_get_admin() {
    let mut idx = BitmapIndex::new();
    idx.batch_insert("admin".to_string(), vec![7, 256, 512, 1024]);
    assert!(idx.get("admin", 512));
    assert!(!idx.get("admin", 511));
}

#[test]
fn and_of_pending_and_admin() {
    let mut idx = BitmapIndex::new();
    idx.batch_insert("pending".to_string(), vec![1, 3, 5, 7, 9]);
    idx.batch_insert("admin".to_string(), vec![7, 256, 512, 1024]);
    assert_eq!(idx.and_operation("pending", "admin"), Ok(vec![7]));
}

#[test]
fn or_of_admin_and_pending() {
    let mut idx = BitmapIndex::new();
    idx.batch_insert("pending".to_string(), vec![1, 3, 5, 7, 9]);
    idx.batch_insert("admin".to_string(), vec![7, 256, 512, 1024]);
    assert_eq!(
        idx.or_operation("admin", "pending"),
        vec![1, 3, 5, 7, 9, 256, 512, 1024]
    );
}

#[test]
fn binary_rendering_of_single_word() {
    let mut idx = BitmapIndex::new();
    idx.batch_insert("pending".to_string(), vec![1, 3, 5, 7, 9]);
    assert_eq!(
        idx.get_as_binary("pending"),
        Ok(vec!["00000000000000000000001010101010".to_string()])
    );
}

#[test]
fn binary_rendering_grows_with_the_largest_id() {
    let mut idx = BitmapIndex::new();
    idx.batch_insert("admin".to_string(), vec![7, 256, 512, 1024]);
    let words = idx.get_as_binary("admin").unwrap();
    assert_eq!(words.len(), 33);
    assert_eq!(words[0], "00000000000000000000000010000000");
    assert_eq!(words[8], "00000000000000000000000000000001");
    assert_eq!(words[16], "00000000000000000000000000000001");
    assert_eq!(words[32], "00000000000000000000000000000001");
}

#[test]
fn absent_key_fails_hard_or_degrades() {
    let mut idx = BitmapIndex::new();
    idx.insert("known".to_string(), 1);
    assert_eq!(
        idx.and_operation("known", "missing"),
        Err(IndexError::KeyNotFound)
    );
    assert_eq!(
        idx.and_operation("missing", "known"),
        Err(IndexError::KeyNotFound)
    );
    assert_eq!(idx.get_as_binary("missing"), Err(IndexError::KeyNotFound));
    assert_eq!(idx.or_operation("known", "missing"), Vec::<u32>::new());
    assert_eq!(idx.or_operation("missing", "known"), Vec::<u32>::new());
    assert_eq!(idx.list("missing"), Vec::<u32>::new());
    assert_eq!(idx.list_keys("missing"), Vec::<u32>::new());
    assert!(!idx.get("missing", 0));
}

#[test]
fn empty_batch_creates_no_entry() {
    let mut idx = BitmapIndex::new();
    idx.batch_insert("k".to_string(), vec![]);
    assert_eq!(idx.get_as_binary("k"), Err(IndexError::KeyNotFound));
    assert_eq!(idx.and_operation("k", "k"), Err(IndexError::KeyNotFound));
}

#[test]
fn raw_words_are_exposed_as_values() {
    let mut idx = BitmapIndex::new();
    idx.batch_insert("pending".to_string(), vec![1, 3, 5, 7, 9]);
    assert_eq!(idx.list_keys("pending"), vec![0b0000_0010_1010_1010_u32]);
    idx.insert("pending".to_string(), 32);
    assert_eq!(idx.list_keys("pending"), vec![0b0000_0010_1010_1010_u32, 1]);
}

#[test]
fn word_boundaries_behave() {
    let mut idx = BitmapIndex::new();
    idx.insert("k".to_string(), 0);
    idx.insert("k".to_string(), 31);
    idx.insert("k".to_string(), 32);
    assert!(idx.get("k", 0));
    assert!(idx.get("k", 31));
    assert!(idx.get("k", 32));
    assert!(!idx.get("k", 33));
    assert_eq!(idx.list("k"), vec![0, 31, 32]);
    assert_eq!(idx.list_keys("k").len(), 2);
}

#[test]
fn reading_far_beyond_the_words_is_false() {
    let mut idx = BitmapIndex::new();
    idx.insert("k".to_string(), 3);
    assert!(!idx.get("k", 1_000_000));
    assert!(!idx.get("k", usize::MAX));
}

#[test]
fn keys_are_independent_namespaces() {
    let mut idx = BitmapIndex::new();
    idx.insert("a".to_string(), 1);
    idx.insert("b".to_string(), 2);
    assert_eq!(idx.list("a"), vec![1]);
    assert_eq!(idx.list("b"), vec![2]);
    assert!(!idx.get("a", 2));
    assert!(!idx.get("b", 1));
}

#[test]
fn large_id_round_trips() {
    let mut idx = BitmapIndex::new();
    idx.insert("k".to_string(), 100_000);
    assert!(idx.get("k", 100_000));
    assert_eq!(idx.list("k"), vec![100_000]);
    assert_eq!(idx.list_keys("k").len(), 100_000 / 32 + 1);
}

#[test]
fn batch_order_does_not_matter() {
    let mut a = BitmapIndex::new();
    a.batch_insert("k".to_string(), vec![5, 1, 9, 70]);
    let mut b = BitmapIndex::new();
    b.batch_insert("k".to_string(), vec![70, 9, 5, 1]);
    assert_eq!(a.list("k"), b.list("k"));
    assert_eq!(a.list_keys("k"), b.list_keys("k"));
}

#[test]
fn and_with_shorter_second_key() {
    let mut idx = BitmapIndex::new();
    idx.batch_insert("long".to_string(), vec![3, 100]);
    idx.batch_insert("short".to_string(), vec![3]);
    assert_eq!(idx.and_operation("long", "short"), Ok(vec![3]));
    assert_eq!(idx.and_operation("short", "long"), Ok(vec![3]));
}
