//! Staging files as blobs, and looking into a stored object.

use crate::bytes::{ascii, ascii_bytes, bytes_eq, copy_range, find, find_byte, lemma_find, NUL};
use crate::codec::{encode, encoded, hash, hex_lower, object_id, to_hex, ObjectKind};
use crate::error::Error;
use crate::index::Index;
use crate::store::{
    lemma_order_transitive, lemma_submap_transitive, load_object, loaded, save_fails,
    save_object, saved, ObjectStore,
};
use vstd::prelude::*;

verus! {

/// A file to stage: its path and its bytes.
pub struct SourceFile {
    pub path: Vec<u8>,
    pub content: Vec<u8>,
}

impl View for SourceFile {
    type V = (Seq<u8>, Seq<u8>);

    open spec fn view(&self) -> (Seq<u8>, Seq<u8>) {
        (self.path@, self.content@)
    }
}

/// The files of a vector as pairs of path and content.
pub open spec fn file_views(files: Seq<SourceFile>) -> Seq<(Seq<u8>, Seq<u8>)> {
    files.map_values(|f: SourceFile| f@)
}

/// The hash of the blob of a file's bytes.
pub open spec fn blob_id(content: Seq<u8>) -> Seq<u8> {
    object_id(encoded(ObjectKind::Blob, content))
}

/// The store after the blobs of `files` were saved in order.
pub open spec fn added_store(
    m: Map<Seq<u8>, Option<Seq<u8>>>,
    files: Seq<(Seq<u8>, Seq<u8>)>,
) -> Map<Seq<u8>, Option<Seq<u8>>>
    decreases files.len(),
{
    if files.len() == 0 {
        m
    } else {
        saved(
            added_store(m, files.drop_last()),
            blob_id(files.last().1),
            encoded(ObjectKind::Blob, files.last().1),
        )
    }
}

/// The staging table after `files` were added to a store: a file is
/// staged where its blob was new to the store when its turn came.
pub open spec fn added_index(
    m: Map<Seq<u8>, Option<Seq<u8>>>,
    files: Seq<(Seq<u8>, Seq<u8>)>,
) -> Map<Seq<u8>, Seq<u8>>
    decreases files.len(),
{
    if files.len() == 0 {
        Map::empty()
    } else {
        let before = added_index(m, files.drop_last());
        if added_store(m, files.drop_last()).contains_key(blob_id(files.last().1)) {
            before
        } else {
            before.insert(files.last().0, blob_id(files.last().1))
        }
    }
}

/// Adding `files` to a store stops over the first file whose blob is new
/// to the store when its turn comes and on which the encoder fails.
pub open spec fn add_fails(
    m: Map<Seq<u8>, Option<Seq<u8>>>,
    files: Seq<(Seq<u8>, Seq<u8>)>,
) -> bool
    decreases files.len(),
{
    files.len() > 0 && (add_fails(m, files.drop_last()) || save_fails(
        added_store(m, files.drop_last()),
        blob_id(files.last().1),
        encoded(ObjectKind::Blob, files.last().1),
    ))
}

/// What stops the work on the first files stops the work on all of them.
pub proof fn lemma_add_fails(
    m: Map<Seq<u8>, Option<Seq<u8>>>,
    files: Seq<(Seq<u8>, Seq<u8>)>,
    j: int,
)
    requires
        0 <= j <= files.len(),
        add_fails(m, files.take(j)),
    ensures
        add_fails(m, files),
    decreases files.len() - j,
{
    if j < files.len() {
        assert(files.take(j + 1).drop_last() =~= files.take(j));
        lemma_add_fails(m, files, j + 1);
    } else {
        assert(files.take(j) =~= files);
    }
}

/// Where the encoder fails on nothing, adding files does not stop.
pub proof fn lemma_add_succeeds(m: Map<Seq<u8>, Option<Seq<u8>>>, files: Seq<(Seq<u8>, Seq<u8>)>)
    ensures
        (forall|d: Seq<u8>| (#[trigger] crate::store::deflated(d)) is Some) ==> !add_fails(
            m,
            files,
        ),
    decreases files.len(),
{
    if files.len() > 0 {
        lemma_add_succeeds(m, files.drop_last());
    }
}

/// The header of store bytes: what stands before the first NUL, or all of
/// them where there is none.
pub open spec fn header_of(store: Seq<u8>) -> Seq<u8> {
    store.take(find(store, NUL))
}

/// The body of store bytes: what stands after the first NUL, or nothing
/// where there is none.
pub open spec fn body_of(store: Seq<u8>) -> Seq<u8> {
    if find(store, NUL) < store.len() {
        store.skip(find(store, NUL) + 1)
    } else {
        Seq::empty()
    }
}

/// Whether a walk over a directory goes down into an entry: into every
/// directory but the control directory. Every other entry is read as a
/// file.
pub fn should_descend(is_dir: bool, name: &[u8]) -> (down: bool)
    ensures
        down == (is_dir && name@ != ascii(".lut"@)),
{
    proof {
        reveal_strlit(".lut");
    }
    is_dir && !bytes_eq(name, ascii_bytes(".lut"))
}

/// Saves the blob of each file and stages the files whose blobs were new
/// to the store. The table starts empty. A save that fails stops the work
/// with `IOFailure`; blobs saved before that stay, and every new blob
/// comes behind what the store held.
pub fn add_files(objects: &mut ObjectStore, files: &Vec<SourceFile>) -> (r: Result<Index, Error>)
    requires
        old(objects).wf(),
    ensures
        final(objects).wf(),
        old(objects)@.submap_of(final(objects)@),
        old(objects).order().is_prefix_of(final(objects).order()),
        r is Err <==> add_fails(old(objects)@, file_views(files@)),
        match r {
            Ok(index) => {
                &&& index.wf()
                &&& index.map() == added_index(old(objects)@, file_views(files@))
                &&& final(objects)@ == added_store(old(objects)@, file_views(files@))
            },
            Err(e) => e == Error::IOFailure,
        },
{
    let ghost all = file_views(files@);
    let mut index = Index::new();
    let mut i: usize = 0;
    assert(all.take(0) =~= Seq::<(Seq<u8>, Seq<u8>)>::empty());
    assert(objects.order().subrange(0, objects.order().len() as int) =~= objects.order());
    while i < files.len()
        invariant
            i <= files@.len(),
            all == file_views(files@),
            objects.wf(),
            index.wf(),
            old(objects)@.submap_of(objects@),
            old(objects).order().is_prefix_of(objects.order()),
            !add_fails(old(objects)@, all.take(i as int)),
            objects@ == added_store(old(objects)@, all.take(i as int)),
            index.map() == added_index(old(objects)@, all.take(i as int)),
        decreases files@.len() - i,
    {
        let ghost before = objects@;
        let ghost order_before = objects.order();
        proof {
            assert(all.take(i + 1).drop_last() =~= all.take(i as int));
            assert(all.take(i + 1).last() == files@[i as int]@);
        }
        let store = encode(ObjectKind::Blob, files[i].content.as_slice());
        let id = hash(store.as_slice());
        match save_object(objects, id.as_slice(), store.as_slice()) {
            Ok(fresh) => {
                if fresh {
                    let path = copy_range(files[i].path.as_slice(), 0, files[i].path.len());
                    assert(path@ =~= files@[i as int].path@);
                    index.insert(path, id);
                }
            },
            Err(e) => {
                proof {
                    assert(add_fails(old(objects)@, all.take(i + 1)));
                    lemma_add_fails(old(objects)@, all, i + 1);
                }
                return Err(e);
            },
        }
        proof {
            lemma_submap_transitive(old(objects)@, before, objects@);
            assert(order_before.is_prefix_of(objects.order())) by {
                assert(order_before.push(id@).subrange(0, order_before.len() as int)
                    =~= order_before);
                assert(order_before.subrange(0, order_before.len() as int) =~= order_before);
            }
            lemma_order_transitive(old(objects).order(), order_before, objects.order());
        }
        i += 1;
    }
    assert(all.take(all.len() as int) =~= all);
    Ok(index)
}

/// Loads an object and gives its header and its body in hex. Store bytes
/// without a NUL are all header.
pub fn inspect_object(objects: &ObjectStore, hash_hex: &[u8]) -> (r: Result<
    (Vec<u8>, Vec<u8>),
    Error,
>)
    requires
        objects.wf(),
    ensures
        match r {
            Ok(parts) => loaded(objects@, hash_hex@) matches Ok(store) && parts.0@ == header_of(
                store,
            ) && parts.1@ == hex_lower(body_of(store)),
            Err(e) => loaded(objects@, hash_hex@) == Err::<Seq<u8>, Error>(e),
        },
{
    let store = match load_object(objects, hash_hex) {
        Ok(store) => store,
        Err(e) => {
            return Err(e);
        },
    };
    let n = find_byte(store.as_slice(), NUL);
    proof {
        lemma_find(store@, NUL);
    }
    let header = copy_range(store.as_slice(), 0, n);
    let body = if n < store.len() {
        copy_range(store.as_slice(), n + 1, store.len())
    } else {
        Vec::new()
    };
    assert(body@ =~= body_of(store@));
    Ok((header, to_hex(body.as_slice())))
}

} // verus!
