use lut::{
    add_files, encode, hash, inspect_object, load_object, save_object, should_descend, Cli,
    Commands, Error, ObjectKind, ObjectStore, SourceFile,
};

fn file(path: &[u8], content: &[u8]) -> SourceFile {
    SourceFile { path: path.to_vec(), content: content.to_vec() }
}

#[test]
fn add_stages_each_file_with_the_hash_of_its_blob() {
    let mut objects = ObjectStore::new();
    let files = vec![file(b"dir/b.txt", b"world"), file(b"a.txt", b"hello")];
    let index = add_files(&mut objects, &files).unwrap();
    let entries = index.entries();
    assert_eq!(entries.len(), 2);
    assert_eq!(entries[0].path, b"a.txt".to_vec());
    assert_eq!(
        entries[0].hash,
        b"8aec4e4876f854f688d0ebfc8f37598f38e5fd6903cccc850ca36591175aeb60".to_vec()
    );
    assert_eq!(entries[1].path, b"dir/b.txt".to_vec());
    assert_eq!(
        entries[1].hash,
        b"8df3dab4ddfa6eb2a34065cda27d95af2709d4d2658e1b5fbd145822acf42b28".to_vec()
    );
    assert_eq!(objects.len(), 2);
    assert_eq!(load_object(&objects, &entries[0].hash), Ok(b"blob 5\0hello".to_vec()));
}

#[test]
fn add_stages_only_files_whose_blobs_are_new() {
    let mut objects = ObjectStore::new();
    let files = vec![file(b"one", b"same"), file(b"two", b"same"), file(b"three", b"other")];
    let index = add_files(&mut objects, &files).unwrap();
    let paths: Vec<Vec<u8>> = index.entries().iter().map(|e| e.path.clone()).collect();
    assert_eq!(paths, vec![b"one".to_vec(), b"three".to_vec()]);
    assert_eq!(objects.len(), 2);
    let again = add_files(&mut objects, &files).unwrap();
    assert!(again.is_empty());
    assert_eq!(objects.len(), 2);
}

#[test]
fn add_of_no_files_stages_nothing() {
    let mut objects = ObjectStore::new();
    let index = add_files(&mut objects, &Vec::new()).unwrap();
    assert!(index.is_empty());
    assert_eq!(objects.len(), 0);
}

#[test]
fn same_content_has_the_same_hash_under_any_path() {
    let mut first = ObjectStore::new();
    let mut second = ObjectStore::new();
    let a = add_files(&mut first, &vec![file(b"x/y", b"content")]).unwrap();
    let b = add_files(&mut second, &vec![file(b"z", b"pad"), file(b"other", b"content")]).unwrap();
    assert_eq!(a.entries()[0].hash, b.entries()[0].hash);
    assert_eq!(a.entries()[0].hash, hash(&encode(ObjectKind::Blob, b"content")));
}

#[test]
fn walk_goes_down_into_directories_but_the_control_directory() {
    assert!(should_descend(true, b"src"));
    assert!(should_descend(true, b".lutx"));
    assert!(should_descend(true, b""));
    assert!(!should_descend(true, b".lut"));
    assert!(!should_descend(false, b"src"));
    assert!(!should_descend(false, b".lut"));
}

#[test]
fn inspect_gives_header_and_body_in_hex() {
    let mut objects = ObjectStore::new();
    let store = encode(ObjectKind::Blob, b"hi\0\xff");
    let id = hash(&store);
    save_object(&mut objects, &id, &store).unwrap();
    let (header, body) = inspect_object(&objects, &id).unwrap();
    assert_eq!(header, b"blob 4".to_vec());
    assert_eq!(body, b"686900ff".to_vec());
}

#[test]
fn inspect_of_store_bytes_without_nul_is_all_header() {
    let mut objects = ObjectStore::new();
    save_object(&mut objects, b"id", b"plain").unwrap();
    let (header, body) = inspect_object(&objects, b"id").unwrap();
    assert_eq!(header, b"plain".to_vec());
    assert!(body.is_empty());
}

#[test]
fn inspect_of_a_missing_hash_is_not_found() {
    let objects = ObjectStore::new();
    assert_eq!(inspect_object(&objects, b"none"), Err(Error::NotFound));
}

#[test]
fn commands_carry_their_arguments() {
    let cli = Cli { command: Commands::Add { path: ".".to_string() } };
    assert!(matches!(&cli.command, Commands::Add { path } if path == "."));
    let cli = Cli { command: Commands::Debug { hash: "abcd".to_string() } };
    assert!(matches!(&cli.command, Commands::Debug { hash } if hash == "abcd"));
    assert!(matches!(Commands::Commit, Commands::Commit));
    assert!(matches!(Commands::Init, Commands::Init));
    assert!(matches!(Commands::Log, Commands::Log));
    assert_eq!(format!("{:?}", Commands::Log), "Log");
}
