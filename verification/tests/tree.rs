use lut::{
    create_tree_recur, decode, encode, from_hex, hash, load_object, Error, Index, ObjectKind,
    ObjectStore,
};

const H1: &[u8] = b"8aec4e4876f854f688d0ebfc8f37598f38e5fd6903cccc850ca36591175aeb60";
const H2: &[u8] = b"8df3dab4ddfa6eb2a34065cda27d95af2709d4d2658e1b5fbd145822acf42b28";

fn staged(entries: &[(&[u8], &[u8])]) -> Index {
    let mut index = Index::new();
    for (path, id) in entries {
        index.insert(path.to_vec(), id.to_vec());
    }
    index
}

fn record(mode: &[u8], name: &[u8], id_hex: &[u8]) -> Vec<u8> {
    let mut out = mode.to_vec();
    out.push(b' ');
    out.extend_from_slice(name);
    out.push(0);
    out.extend_from_slice(&from_hex(id_hex).unwrap());
    out
}

fn tree_content(objects: &ObjectStore, id: &[u8]) -> Vec<u8> {
    let store = load_object(objects, id).unwrap();
    let (header, content) = decode(&store).unwrap();
    assert_eq!(header, format!("tree {}", content.len()).into_bytes());
    content
}

#[test]
fn empty_staging_table_gives_the_empty_tree() {
    let mut objects = ObjectStore::new();
    let root = create_tree_recur(&mut objects, &Index::new(), b"").unwrap();
    assert_eq!(
        root,
        b"6ef19b41225c5369f1c104d45d8d85efa9b057b53b14b4b9b939dd74decc5321".to_vec()
    );
    assert_eq!(objects.len(), 1);
    assert_eq!(load_object(&objects, &root), Ok(b"tree 0\0".to_vec()));
}

#[test]
fn root_tree_of_a_file_and_a_directory() {
    let mut objects = ObjectStore::new();
    let files = staged(&[(b"a.txt", H1), (b"dir/b.txt", H2)]);
    let root = create_tree_recur(&mut objects, &files, b"").unwrap();
    let h3 = b"866ab7eca3c129182cf41594e1234c0827856d9770c2be1b7e611f20262b433c";
    assert_eq!(
        root,
        b"d339d6e0fa21b42aa2eaf0608ada9e2c69898dd3bf1d175460122bbf632a71ec".to_vec()
    );
    let mut expected = record(b"100644", b"a.txt", H1);
    expected.extend(record(b"040000", b"dir", h3));
    assert_eq!(tree_content(&objects, &root), expected);
    assert_eq!(tree_content(&objects, h3), record(b"100644", b"b.txt", H2));
    assert_eq!(objects.len(), 2);
}

#[test]
fn tree_of_a_prefix_is_the_tree_of_that_directory() {
    let mut objects = ObjectStore::new();
    let files = staged(&[(b"a.txt", H1), (b"dir/b.txt", H2)]);
    let sub = create_tree_recur(&mut objects, &files, b"dir/").unwrap();
    assert_eq!(
        sub,
        b"866ab7eca3c129182cf41594e1234c0827856d9770c2be1b7e611f20262b433c".to_vec()
    );
    assert_eq!(objects.len(), 1);
}

#[test]
fn a_subdirectory_named_by_many_files_has_one_entry() {
    let mut objects = ObjectStore::new();
    let files = staged(&[(b"d/one", H1), (b"d/three", H1), (b"d/two", H2)]);
    let root = create_tree_recur(&mut objects, &files, b"").unwrap();
    let content = tree_content(&objects, &root);
    assert_eq!(content.len(), "040000 d".len() + 1 + 32);
    assert!(content.starts_with(b"040000 d\0"));
    let sub = hash(&encode(
        ObjectKind::Tree,
        &[record(b"100644", b"one", H1), record(b"100644", b"three", H1), record(b"100644", b"two", H2)]
            .concat(),
    ));
    assert_eq!(&content[9..], &from_hex(&sub).unwrap()[..]);
    assert_eq!(objects.len(), 2);
}

#[test]
fn directories_with_only_subdirectories_get_trees() {
    let mut objects = ObjectStore::new();
    let files = staged(&[(b"x/y/z.txt", H1), (b"x/w.txt", H2)]);
    let root = create_tree_recur(&mut objects, &files, b"").unwrap();
    assert_eq!(
        root,
        b"795208bebb0e0d736eca9b75085dcdcaaaad8deb0d64fff3c681439abc274aed".to_vec()
    );
    let tx = b"6ee064cd99f43ff3c58748c2b007c21ff1666dd2b9b64afb1ce07afc5719dc25";
    let ty = b"abd450df09490bcffefb419da9590f3188f4b4fdb21b5d5ab10c5b8931771f5a";
    assert_eq!(tree_content(&objects, &root), record(b"040000", b"x", tx));
    let mut expected = record(b"100644", b"w.txt", H2);
    expected.extend(record(b"040000", b"y", ty));
    assert_eq!(tree_content(&objects, tx), expected);
    assert_eq!(tree_content(&objects, ty), record(b"100644", b"z.txt", H1));
    assert_eq!(objects.len(), 3);
}

#[test]
fn subdirectories_come_in_the_order_in_which_they_are_first_named() {
    let mut objects = ObjectStore::new();
    let files = staged(&[(b"b/1", H2), (b"a/2", H1)]);
    let root = create_tree_recur(&mut objects, &files, b"").unwrap();
    assert_eq!(
        root,
        b"0fcece90c5df4c81d240ec41e1ce361b050b6370f9d3e99722491fdabb970575".to_vec()
    );
    let content = tree_content(&objects, &root);
    assert!(content.starts_with(b"040000 a\0"));
}

#[test]
fn every_staged_file_is_in_the_trees_once() {
    let mut objects = ObjectStore::new();
    let paths: [&[u8]; 6] = [b"a", b"d/b", b"d/e/c", b"d/e/f/g", b"h/i", b"d/j"];
    let mut index = Index::new();
    for path in paths {
        index.insert(path.to_vec(), hash(&encode(ObjectKind::Blob, path)));
    }
    create_tree_recur(&mut objects, &index, b"").unwrap();
    // Trees: root, d/, d/e/, d/e/f/, h/.
    assert_eq!(objects.len(), 5);
    let mut files = 0;
    let mut dirs = 0;
    for entry in objects.entries() {
        let content = tree_content(&objects, &entry.hash);
        let mut at = 0;
        while at < content.len() {
            let nul = at + content[at..].iter().position(|b| *b == 0).unwrap();
            if content[at..].starts_with(b"100644 ") {
                files += 1;
            } else {
                assert!(content[at..].starts_with(b"040000 "));
                dirs += 1;
            }
            at = nul + 1 + 32;
        }
    }
    assert_eq!(files, 6);
    assert_eq!(dirs, 4);
}

#[test]
fn an_absolute_path_goes_through_a_directory_without_a_name() {
    let mut objects = ObjectStore::new();
    let files = staged(&[(b"/a", H1)]);
    let root = create_tree_recur(&mut objects, &files, b"").unwrap();
    let inner = hash(&encode(ObjectKind::Tree, &record(b"100644", b"a", H1)));
    assert_eq!(tree_content(&objects, &root), record(b"040000", b"", &inner));
}

#[test]
fn a_staged_hash_that_is_not_hex_stops_the_tree() {
    let mut objects = ObjectStore::new();
    let files = staged(&[(b"a.txt", b"xyz")]);
    assert_eq!(create_tree_recur(&mut objects, &files, b""), Err(Error::InvalidHash));
    assert_eq!(objects.len(), 0);
}

#[test]
fn a_bad_hash_below_a_subdirectory_stops_the_tree() {
    let mut objects = ObjectStore::new();
    let files = staged(&[(b"a.txt", H1), (b"d/e/f", b"123")]);
    assert_eq!(create_tree_recur(&mut objects, &files, b""), Err(Error::InvalidHash));
}

#[test]
fn a_bad_hash_outside_the_prefix_does_not_matter() {
    let mut objects = ObjectStore::new();
    let files = staged(&[(b"bad", b"zz"), (b"d/ok", H1)]);
    let sub = create_tree_recur(&mut objects, &files, b"d/").unwrap();
    assert_eq!(sub, hash(&encode(ObjectKind::Tree, &record(b"100644", b"ok", H1))));
}

#[test]
fn building_the_same_tree_twice_stores_it_once() {
    let mut objects = ObjectStore::new();
    let files = staged(&[(b"a.txt", H1), (b"dir/b.txt", H2)]);
    let first = create_tree_recur(&mut objects, &files, b"").unwrap();
    let second = create_tree_recur(&mut objects, &files, b"").unwrap();
    assert_eq!(first, second);
    assert_eq!(objects.len(), 2);
}

#[test]
fn hashes_of_any_even_length_are_taken_as_raw_bytes() {
    let mut objects = ObjectStore::new();
    let files = staged(&[(b"f", b"ABcd")]);
    let root = create_tree_recur(&mut objects, &files, b"").unwrap();
    assert_eq!(tree_content(&objects, &root), b"100644 f\0\xab\xcd".to_vec());
}
