use lut::{read_index, write_index, Index};

fn pairs(index: &Index) -> Vec<(Vec<u8>, Vec<u8>)> {
    index.entries().iter().map(|e| (e.path.clone(), e.hash.clone())).collect()
}

#[test]
fn new_index_is_empty() {
    let index = Index::new();
    assert!(index.is_empty());
    assert_eq!(index.len(), 0);
    assert_eq!(write_index(&index), Vec::<u8>::new());
}

#[test]
fn insert_keeps_the_paths_in_order() {
    let mut index = Index::new();
    index.insert(b"dir/b.txt".to_vec(), b"22".to_vec());
    index.insert(b"a.txt".to_vec(), b"11".to_vec());
    index.insert(b"z".to_vec(), b"33".to_vec());
    index.insert(b"dir".to_vec(), b"44".to_vec());
    assert_eq!(
        pairs(&index),
        vec![
            (b"a.txt".to_vec(), b"11".to_vec()),
            (b"dir".to_vec(), b"44".to_vec()),
            (b"dir/b.txt".to_vec(), b"22".to_vec()),
            (b"z".to_vec(), b"33".to_vec()),
        ]
    );
    assert_eq!(index.len(), 4);
    assert!(!index.is_empty());
}

#[test]
fn insert_orders_by_bytes() {
    let mut index = Index::new();
    index.insert(b"b".to_vec(), b"1".to_vec());
    index.insert(b"B".to_vec(), b"2".to_vec());
    index.insert(b"".to_vec(), b"3".to_vec());
    index.insert(vec![0xc3, 0xa9], b"4".to_vec());
    index.insert(b"ba".to_vec(), b"5".to_vec());
    let paths: Vec<Vec<u8>> = index.entries().iter().map(|e| e.path.clone()).collect();
    assert_eq!(
        paths,
        vec![b"".to_vec(), b"B".to_vec(), b"b".to_vec(), b"ba".to_vec(), vec![0xc3, 0xa9]]
    );
}

#[test]
fn insert_of_a_staged_path_replaces_its_hash() {
    let mut index = Index::new();
    index.insert(b"a".to_vec(), b"11".to_vec());
    index.insert(b"b".to_vec(), b"22".to_vec());
    index.insert(b"a".to_vec(), b"99".to_vec());
    assert_eq!(
        pairs(&index),
        vec![(b"a".to_vec(), b"99".to_vec()), (b"b".to_vec(), b"22".to_vec())]
    );
}

#[test]
fn write_index_has_one_line_of_hash_and_path_for_each_entry() {
    let mut index = Index::new();
    index.insert(b"dir/b.txt".to_vec(), b"22".to_vec());
    index.insert(b"a.txt".to_vec(), b"11".to_vec());
    assert_eq!(write_index(&index), b"11 a.txt\n22 dir/b.txt\n".to_vec());
}

#[test]
fn read_index_reads_hash_then_path() {
    let index = read_index(b"11 a.txt\n22 dir/b.txt\n");
    assert_eq!(
        pairs(&index),
        vec![(b"a.txt".to_vec(), b"11".to_vec()), (b"dir/b.txt".to_vec(), b"22".to_vec())]
    );
}

#[test]
fn read_index_sorts_and_lets_the_later_line_win() {
    let index = read_index(b"22 b\n11 a\n33 b\n");
    assert_eq!(
        pairs(&index),
        vec![(b"a".to_vec(), b"11".to_vec()), (b"b".to_vec(), b"33".to_vec())]
    );
}

#[test]
fn read_index_skips_lines_without_exactly_two_words() {
    let index = read_index(b"\nonlyone\n11 a\n1 2 3\n   \n22\tb  \r\n33 c");
    assert_eq!(
        pairs(&index),
        vec![
            (b"a".to_vec(), b"11".to_vec()),
            (b"b".to_vec(), b"22".to_vec()),
            (b"c".to_vec(), b"33".to_vec()),
        ]
    );
}

#[test]
fn read_index_of_nothing_is_empty() {
    assert!(read_index(b"").is_empty());
    assert!(read_index(b"\n\n").is_empty());
}

#[test]
fn read_index_undoes_write_index() {
    let mut index = Index::new();
    index.insert(b"src/main.rs".to_vec(), b"aa".to_vec());
    index.insert(b"README".to_vec(), b"bb".to_vec());
    index.insert(b"src/lib/x.rs".to_vec(), b"cc".to_vec());
    let back = read_index(&write_index(&index));
    assert_eq!(pairs(&back), pairs(&index));
}
