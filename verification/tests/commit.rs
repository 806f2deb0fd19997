use lut::{
    build_commit, commit, encode, hash, load_object, log_commit, parse_commit, read_commit,
    save_object, Error, Index, ObjectKind, ObjectStore, Signature,
};

const H1: &[u8] = b"8aec4e4876f854f688d0ebfc8f37598f38e5fd6903cccc850ca36591175aeb60";
const H2: &[u8] = b"8df3dab4ddfa6eb2a34065cda27d95af2709d4d2658e1b5fbd145822acf42b28";
const ROOT: &[u8] = b"d339d6e0fa21b42aa2eaf0608ada9e2c69898dd3bf1d175460122bbf632a71ec";
const C1: &[u8] = b"5c6d23a40b1daf37445f9461e7b43711b86b0e459d1a04cc4d759f494b3f8cbc";
const C2: &[u8] = b"084857c19a40f34aaec0efc2428c4ca5e65b3186c5a765402097b6e8e62fa789";
const WHO: &[u8] = b"skibidi <hi@gmail.com> 1234456789 +0000";

fn who() -> Signature {
    Signature {
        name: b"skibidi <hi@gmail.com>".to_vec(),
        timestamp: 1234456789,
        offset: b"+0000".to_vec(),
    }
}

fn staged() -> Index {
    let mut index = Index::new();
    index.insert(b"a.txt".to_vec(), H1.to_vec());
    index.insert(b"dir/b.txt".to_vec(), H2.to_vec());
    index
}

fn put_commit(objects: &mut ObjectStore, content: &[u8]) -> Vec<u8> {
    let store = encode(ObjectKind::Commit, content);
    let id = hash(&store);
    save_object(objects, &id, &store).unwrap();
    id
}

#[test]
fn signature_line_is_name_timestamp_and_offset() {
    assert_eq!(who().line_bytes(), WHO.to_vec());
    let zero = Signature { name: b"n".to_vec(), timestamp: 0, offset: b"-0130".to_vec() };
    assert_eq!(zero.line_bytes(), b"n 0 -0130".to_vec());
    let late = Signature { name: Vec::new(), timestamp: u64::MAX, offset: Vec::new() };
    assert_eq!(late.line_bytes(), b" 18446744073709551615 ".to_vec());
}

#[test]
fn first_commit_has_no_parent_line() {
    let content = build_commit(ROOT, None, &who(), b"initial");
    let expected = [
        b"tree ".as_slice(),
        ROOT,
        b"\nauthor ",
        WHO,
        b"\ncommitter ",
        WHO,
        b"\n\ninitial",
    ]
    .concat();
    assert_eq!(content, expected);
    assert_eq!(content.len(), 175);
}

#[test]
fn later_commit_names_its_parent_after_the_tree() {
    let content = build_commit(ROOT, Some(C1), &who(), b"initial");
    let expected = [
        b"tree ".as_slice(),
        ROOT,
        b"\nparent ",
        C1,
        b"\nauthor ",
        WHO,
        b"\ncommitter ",
        WHO,
        b"\n\ninitial",
    ]
    .concat();
    assert_eq!(content, expected);
}

#[test]
fn commit_returns_the_hash_of_the_commit_object() {
    let mut objects = ObjectStore::new();
    let head = commit(&mut objects, b"", &staged(), &who(), b"initial").unwrap();
    assert_eq!(head, C1.to_vec());
    let store = load_object(&objects, &head).unwrap();
    assert!(store.starts_with(b"commit 175\0tree d339d6e0"));
    // Two trees and the commit.
    assert_eq!(objects.len(), 3);
}

#[test]
fn two_commits_of_the_same_table_differ_in_the_parent_line() {
    let mut objects = ObjectStore::new();
    let first = commit(&mut objects, b"", &staged(), &who(), b"initial").unwrap();
    let second = commit(&mut objects, &first, &staged(), &who(), b"initial").unwrap();
    assert_eq!(first, C1.to_vec());
    assert_eq!(second, C2.to_vec());
    assert_ne!(first, second);
    let one = read_commit(&objects, &first).unwrap();
    let two = read_commit(&objects, &second).unwrap();
    assert_eq!(one.tree, two.tree);
    assert_eq!(one.tree, ROOT.to_vec());
    assert_eq!(one.parent, None);
    assert_eq!(two.parent, Some(first));
    assert_eq!(one.author, two.author);
    assert_eq!(one.message, two.message);
    assert_eq!(objects.len(), 4);
}

#[test]
fn commit_trims_the_head_it_is_given() {
    let mut objects = ObjectStore::new();
    let first = commit(&mut objects, b" \n", &staged(), &who(), b"initial").unwrap();
    assert_eq!(first, C1.to_vec());
    let mut head = b"  ".to_vec();
    head.extend_from_slice(&first);
    head.extend_from_slice(b"\r\n\t");
    let second = commit(&mut objects, &head, &staged(), &who(), b"initial").unwrap();
    assert_eq!(second, C2.to_vec());
}

#[test]
fn commit_of_an_empty_table_is_made_all_the_same() {
    let mut objects = ObjectStore::new();
    let head = commit(&mut objects, b"", &Index::new(), &who(), b"initial").unwrap();
    assert_eq!(
        head,
        b"21cb7c71c9e2ebca229b6929e429e204925ac8f1b19e56de1566ee043da7f90a".to_vec()
    );
    let again = commit(&mut objects, &head, &Index::new(), &who(), b"initial").unwrap();
    assert_ne!(again, head);
    let info = read_commit(&objects, &again).unwrap();
    assert_eq!(info.parent, Some(head));
}

#[test]
fn commit_with_a_bad_staged_hash_fails() {
    let mut objects = ObjectStore::new();
    let mut index = Index::new();
    index.insert(b"a".to_vec(), b"nothex".to_vec());
    assert_eq!(commit(&mut objects, b"", &index, &who(), b"m"), Err(Error::InvalidHash));
}

#[test]
fn parse_commit_reads_back_what_was_built() {
    let content = build_commit(ROOT, Some(C1), &who(), b"a message\n\nwith a blank line\n");
    let info = parse_commit(&content).unwrap();
    assert_eq!(info.tree, ROOT.to_vec());
    assert_eq!(info.parent, Some(C1.to_vec()));
    assert_eq!(info.author, WHO.to_vec());
    assert_eq!(info.message, b"a message\n\nwith a blank line\n".to_vec());
}

#[test]
fn parse_commit_without_parent() {
    let info = parse_commit(b"tree t\nauthor a\ncommitter c\n\n").unwrap();
    assert_eq!(info.tree, b"t".to_vec());
    assert_eq!(info.parent, None);
    assert_eq!(info.author, b"a".to_vec());
    assert_eq!(info.message, Vec::<u8>::new());
}

#[test]
fn parse_commit_tells_lines_by_how_they_begin() {
    let info = parse_commit(b"other x\nauthor a b\nparent p\ntree t\ntreex\n\nmsg").unwrap();
    assert_eq!(info.tree, b"t".to_vec());
    assert_eq!(info.parent, Some(b"p".to_vec()));
    assert_eq!(info.author, b"a b".to_vec());
    assert_eq!(info.message, b"msg".to_vec());
}

#[test]
fn parse_commit_without_a_blank_line_is_malformed() {
    assert!(matches!(parse_commit(b"tree t\nauthor a\n"), Err(Error::MalformedMetadata)));
    assert!(matches!(parse_commit(b"tree t\nauthor a"), Err(Error::MalformedMetadata)));
    assert!(matches!(parse_commit(b""), Err(Error::MalformedMetadata)));
}

#[test]
fn parse_commit_without_tree_or_author_is_malformed() {
    assert!(matches!(parse_commit(b"author a\n\nmsg"), Err(Error::MalformedMetadata)));
    assert!(matches!(parse_commit(b"tree t\n\nmsg"), Err(Error::MalformedMetadata)));
    assert!(matches!(parse_commit(b"\ntree t\nauthor a\n\nmsg"), Err(Error::MalformedMetadata)));
}

#[test]
fn read_commit_of_a_missing_hash_is_not_found() {
    let objects = ObjectStore::new();
    assert!(matches!(read_commit(&objects, C1), Err(Error::NotFound)));
}

#[test]
fn read_commit_of_store_bytes_without_nul_is_corrupt() {
    let mut objects = ObjectStore::new();
    save_object(&mut objects, b"id", b"no separator here").unwrap();
    assert!(matches!(read_commit(&objects, b"id"), Err(Error::CorruptObject)));
}

#[test]
fn read_commit_of_a_blob_is_malformed() {
    let mut objects = ObjectStore::new();
    let store = encode(ObjectKind::Blob, b"just a file");
    let id = hash(&store);
    save_object(&mut objects, &id, &store).unwrap();
    assert!(matches!(read_commit(&objects, &id), Err(Error::MalformedMetadata)));
}

#[test]
fn walk_visits_every_commit_newest_first() {
    let mut objects = ObjectStore::new();
    let mut head: Vec<u8> = Vec::new();
    let mut made: Vec<Vec<u8>> = Vec::new();
    for round in 0..5u8 {
        let mut index = staged();
        index.insert(b"round".to_vec(), hash(&[round]));
        head = commit(&mut objects, &head, &index, &who(), b"initial").unwrap();
        made.push(head.clone());
    }
    let (entries, failure) = log_commit(&objects, &head, objects.len());
    assert_eq!(failure, None);
    assert_eq!(entries.len(), 5);
    for (i, entry) in entries.iter().enumerate() {
        assert_eq!(entry.hash, made[4 - i]);
        assert_eq!(entry.commit.author, WHO.to_vec());
        assert_eq!(entry.commit.message, b"initial".to_vec());
        if i < 4 {
            assert_eq!(entry.commit.parent, Some(made[3 - i].clone()));
        } else {
            assert_eq!(entry.commit.parent, None);
        }
    }
}

#[test]
fn walk_of_one_commit() {
    let mut objects = ObjectStore::new();
    let head = commit(&mut objects, b"", &staged(), &who(), b"initial").unwrap();
    let (entries, failure) = log_commit(&objects, &head, 1);
    assert_eq!(failure, None);
    assert_eq!(entries.len(), 1);
    assert_eq!(entries[0].hash, C1.to_vec());
    assert_eq!(entries[0].commit.tree, ROOT.to_vec());
}

#[test]
fn walk_from_a_missing_head_is_not_found() {
    let objects = ObjectStore::new();
    let (entries, failure) = log_commit(&objects, b"", 10);
    assert!(entries.is_empty());
    assert_eq!(failure, Some(Error::NotFound));
}

#[test]
fn walk_stops_at_a_missing_parent_and_keeps_what_it_met() {
    let mut objects = ObjectStore::new();
    let content = build_commit(ROOT, Some(C1), &who(), b"orphan");
    let id = put_commit(&mut objects, &content);
    let (entries, failure) = log_commit(&objects, &id, 10);
    assert_eq!(entries.len(), 1);
    assert_eq!(entries[0].hash, id);
    assert_eq!(entries[0].commit.message, b"orphan".to_vec());
    assert_eq!(failure, Some(Error::NotFound));
}

#[test]
fn walk_is_cut_at_the_limit() {
    let mut objects = ObjectStore::new();
    let first = commit(&mut objects, b"", &staged(), &who(), b"initial").unwrap();
    let second = commit(&mut objects, &first, &staged(), &who(), b"initial").unwrap();
    let (entries, failure) = log_commit(&objects, &second, 1);
    assert_eq!(entries.len(), 1);
    assert_eq!(failure, Some(Error::MalformedMetadata));
    let (none, failure) = log_commit(&objects, &second, 0);
    assert!(none.is_empty());
    assert_eq!(failure, Some(Error::MalformedMetadata));
}

#[test]
fn walk_of_a_commit_that_names_itself_ends_at_the_limit() {
    let mut objects = ObjectStore::new();
    let content = build_commit(ROOT, Some(b"loop"), &who(), b"again");
    let store = encode(ObjectKind::Commit, &content);
    save_object(&mut objects, b"loop", &store).unwrap();
    let (entries, failure) = log_commit(&objects, b"loop", 3);
    assert_eq!(entries.len(), 3);
    assert_eq!(failure, Some(Error::MalformedMetadata));
}

#[test]
fn commit_puts_its_objects_behind_what_the_store_held() {
    let mut objects = ObjectStore::new();
    save_object(&mut objects, b"held", b"before").unwrap();
    let head = commit(&mut objects, b"", &staged(), &who(), b"initial").unwrap();
    let hashes: Vec<Vec<u8>> = objects.entries().iter().map(|e| e.hash.clone()).collect();
    assert_eq!(hashes.len(), 4);
    assert_eq!(hashes[0], b"held".to_vec());
    // The tree of the subdirectory, the root tree, then the commit.
    assert_eq!(
        hashes[1],
        b"866ab7eca3c129182cf41594e1234c0827856d9770c2be1b7e611f20262b433c".to_vec()
    );
    assert_eq!(hashes[2], ROOT.to_vec());
    assert_eq!(hashes[3], head);
}
