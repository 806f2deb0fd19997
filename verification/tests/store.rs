use lut::{
    encode, hash, load_object, object_dir, object_path, save_object, Error, ObjectKind,
    ObjectStore,
};
use std::io::Read;

fn inflate(stream: &[u8]) -> Vec<u8> {
    let mut decoder = flate2::read::ZlibDecoder::new(stream);
    let mut data = Vec::new();
    decoder.read_to_end(&mut data).unwrap();
    data
}

fn from_hex_text(text: &str) -> Vec<u8> {
    hex::decode(text).unwrap()
}

#[test]
fn new_store_is_empty() {
    let objects = ObjectStore::new();
    assert_eq!(objects.len(), 0);
    assert!(objects.entries().is_empty());
    assert!(!objects.contains(b"ab"));
}

#[test]
fn save_reports_newly_stored_then_already_stored() {
    let mut objects = ObjectStore::new();
    let store = encode(ObjectKind::Blob, b"hello");
    let id = hash(&store);
    assert_eq!(save_object(&mut objects, &id, &store), Ok(true));
    assert_eq!(save_object(&mut objects, &id, &store), Ok(false));
    assert_eq!(objects.len(), 1);
}

#[test]
fn second_save_leaves_the_entry_untouched() {
    let mut objects = ObjectStore::new();
    let store = encode(ObjectKind::Blob, b"hello");
    let id = hash(&store);
    save_object(&mut objects, &id, &store).unwrap();
    let before = objects.get(&id).unwrap().clone();
    let other = encode(ObjectKind::Blob, b"something else");
    assert_eq!(save_object(&mut objects, &id, &other), Ok(false));
    assert_eq!(objects.get(&id).unwrap(), &before);
    assert_eq!(load_object(&objects, &id).unwrap(), store);
}

#[test]
fn save_keeps_a_zlib_stream_of_the_store_bytes() {
    let mut objects = ObjectStore::new();
    let store = encode(ObjectKind::Blob, &vec![b'a'; 4000]);
    let id = hash(&store);
    save_object(&mut objects, &id, &store).unwrap();
    let stream = objects.get(&id).unwrap();
    assert_ne!(stream, &store);
    assert!(stream.len() < store.len());
    assert_eq!(stream[0], 0x78);
    assert_eq!(inflate(stream), store);
}

#[test]
fn load_returns_the_saved_store_bytes() {
    let mut objects = ObjectStore::new();
    let content: Vec<u8> = (0..2000u32).map(|i| (i * 7 % 251) as u8).collect();
    let store = encode(ObjectKind::Blob, &content);
    let id = hash(&store);
    save_object(&mut objects, &id, &store).unwrap();
    assert_eq!(load_object(&objects, &id), Ok(store));
}

#[test]
fn load_round_trips_an_empty_blob() {
    let mut objects = ObjectStore::new();
    let store = encode(ObjectKind::Blob, b"");
    let id = hash(&store);
    save_object(&mut objects, &id, &store).unwrap();
    assert_eq!(load_object(&objects, &id), Ok(b"blob 0\0".to_vec()));
}

#[test]
fn load_of_a_missing_hash_is_not_found() {
    let objects = ObjectStore::new();
    assert_eq!(load_object(&objects, b"00ff"), Err(Error::NotFound));
    assert_eq!(load_object(&objects, b""), Err(Error::NotFound));
}

#[test]
fn load_of_bytes_that_do_not_inflate_is_corrupt() {
    let mut objects = ObjectStore::new();
    assert!(objects.put(b"abcd".to_vec(), b"this is no zlib stream".to_vec()));
    assert_eq!(load_object(&objects, b"abcd"), Err(Error::CorruptObject));
}

#[test]
fn load_of_a_cut_stream_is_corrupt() {
    let mut objects = ObjectStore::new();
    let stream = from_hex_text("789c4bcac94f523065c848cdc9c9070019aa0409");
    assert!(objects.put(b"cut".to_vec(), stream[..8].to_vec()));
    assert_eq!(load_object(&objects, b"cut"), Err(Error::CorruptObject));
}

#[test]
fn load_inflates_a_stream_written_elsewhere() {
    let mut objects = ObjectStore::new();
    let stream = from_hex_text("789c4bcac94f523065c848cdc9c9070019aa0409");
    assert!(objects.put(b"8aec".to_vec(), stream));
    assert_eq!(load_object(&objects, b"8aec"), Ok(b"blob 5\0hello".to_vec()));
}

#[test]
fn put_is_write_once() {
    let mut objects = ObjectStore::new();
    assert!(objects.put(b"k".to_vec(), vec![1, 2, 3]));
    assert!(!objects.put(b"k".to_vec(), vec![4, 5, 6]));
    assert_eq!(objects.get(b"k"), Some(&vec![1, 2, 3]));
    assert_eq!(objects.get(b"other"), None);
    assert_eq!(objects.len(), 1);
}

#[test]
fn entries_come_in_the_order_of_saving() {
    let mut objects = ObjectStore::new();
    objects.put(b"bb".to_vec(), vec![1]);
    objects.put(b"aa".to_vec(), vec![2]);
    let all = objects.entries();
    assert_eq!(all.len(), 2);
    assert_eq!(all[0].hash, b"bb".to_vec());
    assert_eq!(all[0].stream, vec![1]);
    assert_eq!(all[1].hash, b"aa".to_vec());
    assert!(objects.contains(b"aa"));
}

#[test]
fn object_path_splits_the_hash_after_two_characters() {
    let id = b"8aec4e4876f854f688d0ebfc8f37598f38e5fd6903cccc850ca36591175aeb60";
    assert_eq!(object_dir(id), b".lut/objects/8a".to_vec());
    assert_eq!(
        object_path(id),
        b".lut/objects/8a/ec4e4876f854f688d0ebfc8f37598f38e5fd6903cccc850ca36591175aeb60".to_vec()
    );
    let name = object_path(id);
    assert_eq!(name.len() - ".lut/objects/8a/".len(), 62);
}

#[test]
fn object_path_of_two_characters_has_an_empty_file_name() {
    assert_eq!(object_dir(b"ab"), b".lut/objects/ab".to_vec());
    assert_eq!(object_path(b"ab"), b".lut/objects/ab/".to_vec());
}

#[test]
fn a_new_object_comes_behind_what_the_store_held() {
    let mut objects = ObjectStore::new();
    objects.put(b"zz".to_vec(), vec![1]);
    let store = encode(ObjectKind::Blob, b"hello");
    let id = hash(&store);
    assert_eq!(save_object(&mut objects, &id, &store), Ok(true));
    assert_eq!(save_object(&mut objects, b"zz", &store), Ok(false));
    let all = objects.entries();
    assert_eq!(all.len(), 2);
    assert_eq!(all[0].hash, b"zz".to_vec());
    assert_eq!(all[1].hash, id);
}
