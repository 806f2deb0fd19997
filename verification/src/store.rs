//! The object store: compressed objects kept under their hashes, written
//! once and never changed.
//!
//! The store is a value. Whoever keeps it on disk reads the entries into it
//! before an operation and writes the new ones out afterwards.

use crate::bytes::{ascii, bytes_eq, copy_range, extend, push_text, SLASH};
use crate::error::Error;
use vstd::prelude::*;

verus! {

#[verifier::external_type_specification]
#[verifier::external_body]
pub struct ExIoError(std::io::Error);

/// The zlib stream that the encoder writes for `data` at the default
/// level, or `None` where it reports an error.
pub uninterp spec fn deflated(data: Seq<u8>) -> Option<Seq<u8>>;

/// What the decoder reads from `stream`, or `None` where it reports an
/// error.
pub uninterp spec fn inflated(stream: Seq<u8>) -> Option<Seq<u8>>;

/// Calls `flate2::write::ZlibEncoder` on an empty `Vec` at
/// `Compression::default()`: `new`, `write_all`, `finish`.
/// Believed of it: whether it fails and what stream it hands back depend
/// on the data alone, which `deflated` names, and a stream that it hands
/// back is one from which `flate2`'s zlib decoder reads the data back.
#[verifier::external_body]
fn zlib_compress(buffer: &[u8]) -> (r: Result<Vec<u8>, std::io::Error>)
    ensures
        match r {
            Ok(stream) => deflated(buffer@) == Some(stream@) && inflated(stream@) == Some(
                buffer@,
            ),
            Err(_) => deflated(buffer@) is None,
        },
{
    let mut encoder = flate2::write::ZlibEncoder::new(Vec::new(), flate2::Compression::default());
    std::io::Write::write_all(&mut encoder, buffer)?;
    encoder.finish()
}

/// Calls `flate2::bufread::ZlibDecoder` on the stream: `new`, then
/// `read_to_end`.
/// Believed of it: whether it fails and what it reads depend on the stream
/// alone, which `inflated` names.
#[verifier::external_body]
fn zlib_decompress(stream: &[u8]) -> (r: Result<Vec<u8>, std::io::Error>)
    ensures
        match r {
            Ok(data) => inflated(stream@) == Some(data@),
            Err(_) => inflated(stream@) is None,
        },
{
    let mut decoder = flate2::bufread::ZlibDecoder::new(stream);
    let mut data = Vec::new();
    std::io::Read::read_to_end(&mut decoder, &mut data)?;
    Ok(data)
}

/// One entry of the store: a hash and the compressed bytes kept under it.
pub struct StoredObject {
    pub hash: Vec<u8>,
    pub stream: Vec<u8>,
}

/// A content-addressed store. Its view maps each hash to the store bytes
/// that loading it gives, or to `None` where the entry does not inflate.
pub struct ObjectStore {
    entries: Vec<StoredObject>,
}

impl View for ObjectStore {
    type V = Map<Seq<u8>, Option<Seq<u8>>>;

    open spec fn view(&self) -> Self::V {
        self.streams().map_values(|stream: Seq<u8>| inflated(stream))
    }
}

/// The store after a save: unchanged where the hash is taken, else with
/// the object under it.
pub open spec fn saved(
    m: Map<Seq<u8>, Option<Seq<u8>>>,
    hash: Seq<u8>,
    store: Seq<u8>,
) -> Map<Seq<u8>, Option<Seq<u8>>> {
    if m.contains_key(hash) {
        m
    } else {
        m.insert(hash, Some(store))
    }
}

/// A save fails where the hash is free and the encoder fails on the
/// store bytes. Under a hash that is taken nothing is compressed.
pub open spec fn save_fails(
    m: Map<Seq<u8>, Option<Seq<u8>>>,
    hash: Seq<u8>,
    store: Seq<u8>,
) -> bool {
    !m.contains_key(hash) && deflated(store) is None
}

/// What loading a hash gives.
pub open spec fn loaded(m: Map<Seq<u8>, Option<Seq<u8>>>, hash: Seq<u8>) -> Result<Seq<u8>, Error> {
    if !m.contains_key(hash) {
        Err(Error::NotFound)
    } else {
        match m[hash] {
            Some(store) => Ok(store),
            None => Err(Error::CorruptObject),
        }
    }
}

/// The directory of an object: the store's root and the first two
/// characters of the hash.
pub open spec fn object_dir_of(hash: Seq<u8>) -> Seq<u8> {
    ascii(".lut/objects/"@) + hash.take(2)
}

/// The file of an object: its directory, a slash, and the rest of the hash.
pub open spec fn object_path_of(hash: Seq<u8>) -> Seq<u8> {
    object_dir_of(hash) + seq![SLASH] + hash.skip(2)
}

/// Idempotent store: after a save under a hash, a second save under the
/// same hash finds it taken and changes nothing, whatever it brings.
pub proof fn lemma_save_idempotent(
    m: Map<Seq<u8>, Option<Seq<u8>>>,
    hash: Seq<u8>,
    first: Seq<u8>,
    second: Seq<u8>,
)
    ensures
        saved(m, hash, first).contains_key(hash),
        saved(saved(m, hash, first), hash, second) == saved(m, hash, first),
{
}

/// Write once: a save changes no entry that the store already holds.
pub proof fn lemma_save_keeps(m: Map<Seq<u8>, Option<Seq<u8>>>, hash: Seq<u8>, store: Seq<u8>)
    ensures
        m.submap_of(saved(m, hash, store)),
{
}

/// A store that grew out of a store that grew out of a third still holds
/// every entry of the third unchanged.
pub proof fn lemma_submap_transitive(
    a: Map<Seq<u8>, Option<Seq<u8>>>,
    b: Map<Seq<u8>, Option<Seq<u8>>>,
    c: Map<Seq<u8>, Option<Seq<u8>>>,
)
    requires
        a.submap_of(b),
        b.submap_of(c),
    ensures
        a.submap_of(c),
{
    assert forall|k: Seq<u8>| #[trigger] a.dom().contains(k) implies c.dom().contains(k) && a[k]
        == c[k] by {
        assert(b.dom().contains(k));
    }
}

/// A sequence that begins with one that begins with a third begins with
/// the third: what came first into a store stays first.
pub proof fn lemma_order_transitive(a: Seq<Seq<u8>>, b: Seq<Seq<u8>>, c: Seq<Seq<u8>>)
    requires
        a.is_prefix_of(b),
        b.is_prefix_of(c),
    ensures
        a.is_prefix_of(c),
{
    assert forall|j: int| 0 <= j < a.len() implies a[j] == c[j] by {
        assert(a[j] == b.subrange(0, a.len() as int)[j]);
        assert(b[j] == c.subrange(0, b.len() as int)[j]);
    }
    assert(a =~= c.subrange(0, a.len() as int));
}

/// Round trip: loading what was saved under a free hash gives the saved
/// store bytes, byte for byte.
pub proof fn lemma_load_saved(m: Map<Seq<u8>, Option<Seq<u8>>>, hash: Seq<u8>, store: Seq<u8>)
    requires
        !m.contains_key(hash) || m[hash] == Some(store),
    ensures
        loaded(saved(m, hash, store), hash) == Ok::<Seq<u8>, Error>(store),
{
}

impl ObjectStore {
    /// The compressed bytes under each hash.
    pub closed spec fn streams(&self) -> Map<Seq<u8>, Seq<u8>> {
        Map::new(
            |k: Seq<u8>| exists|i: int| 0 <= i < self.entries@.len() && self.entries@[i].hash@ == k,
            |k: Seq<u8>| self.entries@[self.index_of(k)].stream@,
        )
    }

    closed spec fn index_of(&self, k: Seq<u8>) -> int {
        choose|i: int| 0 <= i < self.entries@.len() && self.entries@[i].hash@ == k
    }

    /// No hash is held twice.
    pub closed spec fn wf(&self) -> bool {
        forall|i: int, j: int|
            0 <= i < j < self.entries@.len() ==> self.entries@[i].hash@ != self.entries@[j].hash@
    }

    /// The hashes in the order in which they came into the store.
    pub closed spec fn order(&self) -> Seq<Seq<u8>> {
        Seq::new(self.entries@.len(), |i: int| self.entries@[i].hash@)
    }

    /// The number of objects held.
    pub open spec fn count(&self) -> nat {
        self.order().len()
    }

    proof fn lemma_entry(&self, i: int)
        requires
            self.wf(),
            0 <= i < self.entries@.len(),
        ensures
            self.streams().contains_key(self.entries@[i].hash@),
            self.streams()[self.entries@[i].hash@] == self.entries@[i].stream@,
            self.index_of(self.entries@[i].hash@) == i,
    {
        let k = self.entries@[i].hash@;
        let j = self.index_of(k);
        assert(0 <= j < self.entries@.len() && self.entries@[j].hash@ == k);
    }

    /// An empty store.
    pub fn new() -> (objects: ObjectStore)
        ensures
            objects.wf(),
            objects.streams() == Map::<Seq<u8>, Seq<u8>>::empty(),
            objects@ == Map::<Seq<u8>, Option<Seq<u8>>>::empty(),
            objects.order() == Seq::<Seq<u8>>::empty(),
    {
        let objects = ObjectStore { entries: Vec::new() };
        assert(objects.order() =~= Seq::<Seq<u8>>::empty());
        assert(objects.streams() =~= Map::<Seq<u8>, Seq<u8>>::empty());
        assert(objects@ =~= Map::<Seq<u8>, Option<Seq<u8>>>::empty());
        objects
    }

    /// The number of objects held.
    pub fn len(&self) -> (n: usize)
        ensures
            n == self.count(),
    {
        self.entries.len()
    }

    /// The entries in the order in which they came: each hash of the store
    /// once, with its compressed bytes.
    pub fn entries(&self) -> (all: &Vec<StoredObject>)
        requires
            self.wf(),
        ensures
            all@.len() == self.order().len(),
            forall|i: int| 0 <= i < all@.len() ==> #[trigger] all@[i].hash@ == self.order()[i],
            forall|i: int|
                0 <= i < all@.len() ==> self.streams().contains_key(#[trigger] all@[i].hash@)
                    && self.streams()[all@[i].hash@] == all@[i].stream@,
            forall|k: Seq<u8>|
                self.streams().contains_key(k) ==> exists|i: int|
                    0 <= i < all@.len() && #[trigger] all@[i].hash@ == k,
    {
        proof {
            assert forall|i: int| 0 <= i < self.entries@.len() implies self.streams().contains_key(
                #[trigger] self.entries@[i].hash@,
            ) && self.streams()[self.entries@[i].hash@] == self.entries@[i].stream@ by {
                self.lemma_entry(i);
            }
        }
        &self.entries
    }

    fn position(&self, hash: &[u8]) -> (r: Option<usize>)
        requires
            self.wf(),
        ensures
            match r {
                Some(i) => i < self.entries@.len() && self.entries@[i as int].hash@ == hash@,
                None => !self.streams().contains_key(hash@),
            },
    {
        let mut i: usize = 0;
        while i < self.entries.len()
            invariant
                i <= self.entries@.len(),
                forall|j: int| 0 <= j < i ==> self.entries@[j].hash@ != hash@,
            decreases self.entries@.len() - i,
        {
            if bytes_eq(self.entries[i].hash.as_slice(), hash) {
                return Some(i);
            }
            i += 1;
        }
        None
    }

    /// Whether the store holds an object under `hash`.
    pub fn contains(&self, hash: &[u8]) -> (held: bool)
        requires
            self.wf(),
        ensures
            held == self@.contains_key(hash@),
            held == self.streams().contains_key(hash@),
    {
        match self.position(hash) {
            Some(i) => {
                proof {
                    self.lemma_entry(i as int);
                }
                true
            },
            None => false,
        }
    }

    /// The compressed bytes under `hash`, if the store holds it.
    pub fn get(&self, hash: &[u8]) -> (r: Option<&Vec<u8>>)
        requires
            self.wf(),
        ensures
            match r {
                Some(stream) => self.streams().contains_key(hash@) && self.streams()[hash@]
                    == stream@,
                None => !self.streams().contains_key(hash@),
            },
    {
        match self.position(hash) {
            Some(i) => {
                proof {
                    self.lemma_entry(i as int);
                }
                Some(&self.entries[i].stream)
            },
            None => None,
        }
    }

    /// Puts compressed bytes under `hash` unless the hash is taken, and
    /// says whether it did.
    #[verifier::rlimit(40)]
    pub fn put(&mut self, hash: Vec<u8>, stream: Vec<u8>) -> (fresh: bool)
        requires
            old(self).wf(),
        ensures
            final(self).wf(),
            fresh == !old(self).streams().contains_key(hash@),
            fresh ==> final(self).streams() == old(self).streams().insert(hash@, stream@),
            fresh ==> final(self)@ == old(self)@.insert(hash@, inflated(stream@)),
            fresh ==> final(self).order() == old(self).order().push(hash@),
            !fresh ==> *final(self) == *old(self),
    {
        match self.position(hash.as_slice()) {
            Some(i) => {
                proof {
                    self.lemma_entry(i as int);
                }
                false
            },
            None => {
                let ghost before = *self;
                let ghost k = hash@;
                let ghost v = stream@;
                self.entries.push(StoredObject { hash, stream });
                proof {
                    let n = before.entries@.len() as int;
                    assert(self.entries@[n].hash@ == k);
                    assert(self.wf()) by {
                        assert forall|i: int, j: int|
                            0 <= i < j < self.entries@.len() implies self.entries@[i].hash@
                            != self.entries@[j].hash@ by {
                            if j < n {
                                assert(self.entries@[i] == before.entries@[i]);
                                assert(self.entries@[j] == before.entries@[j]);
                            } else {
                                assert(self.entries@[i] == before.entries@[i]);
                                assert(before.streams().contains_key(before.entries@[i].hash@));
                            }
                        }
                    }
                    assert forall|q: Seq<u8>| #[trigger]
                        self.streams().contains_key(q) <==> before.streams().insert(
                            k,
                            v,
                        ).contains_key(q) by {
                        if before.streams().contains_key(q) {
                            let i = before.index_of(q);
                            assert(self.entries@[i] == before.entries@[i]);
                        }
                        if self.streams().contains_key(q) && q != k {
                            let i = self.index_of(q);
                            assert(i < n);
                            assert(self.entries@[i] == before.entries@[i]);
                        }
                    }
                    assert forall|q: Seq<u8>| #[trigger]
                        self.streams().contains_key(q) implies self.streams()[q]
                        == before.streams().insert(k, v)[q] by {
                        let i = self.index_of(q);
                        self.lemma_entry(i);
                        if i < n {
                            assert(self.entries@[i] == before.entries@[i]);
                            before.lemma_entry(i);
                        }
                    }
                    assert(self.streams() =~= before.streams().insert(k, v));
                    assert(self.order() =~= before.order().push(k));
                    assert(self@ =~= before@.insert(k, inflated(v)));
                }
                true
            },
        }
    }
}

/// Saves an object under its hash. Where the hash is taken, nothing is
/// written and `false` comes back. Otherwise the store bytes are compressed
/// and kept behind what the store holds already, and `true` comes back; or
/// the encoder fails, and the store stays as it was.
pub fn save_object(objects: &mut ObjectStore, hash_hex: &[u8], store: &[u8]) -> (r: Result<
    bool,
    Error,
>)
    requires
        old(objects).wf(),
    ensures
        final(objects).wf(),
        r is Err <==> save_fails(old(objects)@, hash_hex@, store@),
        match r {
            Ok(fresh) => {
                &&& fresh == !old(objects)@.contains_key(hash_hex@)
                &&& final(objects)@ == saved(old(objects)@, hash_hex@, store@)
                &&& fresh ==> (deflated(store@) matches Some(stream)
                    && final(objects).streams() == old(objects).streams().insert(
                    hash_hex@,
                    stream,
                ))
                &&& fresh ==> final(objects).order() == old(objects).order().push(hash_hex@)
                &&& !fresh ==> *final(objects) == *old(objects)
            },
            Err(e) => e == Error::IOFailure && *final(objects) == *old(objects),
        },
{
    if objects.contains(hash_hex) {
        return Ok(false);
    }
    match zlib_compress(store) {
        Ok(stream) => {
            let key = copy_range(hash_hex, 0, hash_hex.len());
            assert(key@ =~= hash_hex@);
            Ok(objects.put(key, stream))
        },
        Err(_) => Err(Error::IOFailure),
    }
}

/// Loads the store bytes of the object under a hash: inflates what the
/// store holds there.
pub fn load_object(objects: &ObjectStore, hash_hex: &[u8]) -> (r: Result<Vec<u8>, Error>)
    requires
        objects.wf(),
    ensures
        match r {
            Ok(store) => loaded(objects@, hash_hex@) == Ok::<Seq<u8>, Error>(store@),
            Err(e) => loaded(objects@, hash_hex@) == Err::<Seq<u8>, Error>(e),
        },
{
    match objects.get(hash_hex) {
        None => Err(Error::NotFound),
        Some(stream) => match zlib_decompress(stream.as_slice()) {
            Ok(store) => Ok(store),
            Err(_) => Err(Error::CorruptObject),
        },
    }
}

/// The directory in which an object's file lies.
pub fn object_dir(hash_hex: &[u8]) -> (dir: Vec<u8>)
    requires
        hash_hex@.len() >= 2,
    ensures
        dir@ == object_dir_of(hash_hex@),
{
    let mut dir: Vec<u8> = Vec::new();
    proof {
        reveal_strlit(".lut/objects/");
    }
    push_text(&mut dir, ".lut/objects/");
    extend(&mut dir, vstd::slice::slice_subrange(hash_hex, 0, 2));
    dir
}

/// The path of an object's file.
pub fn object_path(hash_hex: &[u8]) -> (path: Vec<u8>)
    requires
        hash_hex@.len() >= 2,
    ensures
        path@ == object_path_of(hash_hex@),
{
    let mut path = object_dir(hash_hex);
    path.push(SLASH);
    extend(&mut path, vstd::slice::slice_subrange(hash_hex, 2, hash_hex.len()));
    path
}

} // verus!
