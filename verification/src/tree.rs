//! The tree assembler: from the flat staging table to one tree object for
//! each directory level.
//!
//! A tree lists the files of its directory in the order of the staging
//! table, then its subdirectories in the order in which the table first
//! names them.

use crate::bytes::{
    ascii, bytes_eq, copy_range, extend, find, find_byte, lemma_find, push_text, starts_with,
    views, NUL, SLASH, SPACE,
};
use crate::codec::{
    digest, encode, encoded, from_hex, hash, hex_bytes, is_hex, lemma_hex_round_trip, object_id,
    ObjectKind,
};
use crate::error::Error;
use crate::index::Index;
use crate::store::{
    deflated, lemma_order_transitive, lemma_save_keeps, lemma_submap_transitive, save_fails,
    save_object, saved, ObjectStore,
};
use vstd::prelude::*;

verus! {

/// One entry of a tree: a file with the raw hash of its blob, or a
/// subdirectory with the raw hash of its tree.
pub struct TreeEntry {
    pub dir: bool,
    pub name: Seq<u8>,
    pub id: Seq<u8>,
}

/// The mode of a file entry.
pub open spec fn file_mode() -> Seq<u8> {
    ascii("100644"@)
}

/// The mode of a subdirectory entry.
pub open spec fn dir_mode() -> Seq<u8> {
    ascii("040000"@)
}

/// The record of one entry: mode, space, name, NUL, raw hash.
pub open spec fn record(e: TreeEntry) -> Seq<u8> {
    (if e.dir {
        dir_mode()
    } else {
        file_mode()
    }) + seq![SPACE] + e.name + seq![NUL] + e.id
}

/// The content of a tree: the records of its entries in order.
pub open spec fn records(entries: Seq<TreeEntry>) -> Seq<u8>
    decreases entries.len(),
{
    if entries.len() == 0 {
        Seq::empty()
    } else {
        records(entries.drop_last()) + record(entries.last())
    }
}

/// What is left of a path after the prefix of a directory.
pub open spec fn rest_of(path: Seq<u8>, prefix: Seq<u8>) -> Seq<u8> {
    path.skip(prefix.len() as int)
}

/// The path names a file directly in the directory of `prefix`.
pub open spec fn is_file_at(path: Seq<u8>, prefix: Seq<u8>) -> bool {
    prefix.is_prefix_of(path) && find(rest_of(path, prefix), SLASH) == rest_of(path, prefix).len()
}

/// The path leads into a subdirectory of the directory of `prefix`.
pub open spec fn is_below(path: Seq<u8>, prefix: Seq<u8>) -> bool {
    prefix.is_prefix_of(path) && find(rest_of(path, prefix), SLASH) < rest_of(path, prefix).len()
}

/// The name of the subdirectory into which the path leads.
pub open spec fn segment(path: Seq<u8>, prefix: Seq<u8>) -> Seq<u8> {
    rest_of(path, prefix).take(find(rest_of(path, prefix), SLASH))
}

/// The prefix of the subdirectory `name` of the directory of `prefix`.
pub open spec fn child(prefix: Seq<u8>, name: Seq<u8>) -> Seq<u8> {
    prefix + name + seq![SLASH]
}

/// The length of the longest staged path.
pub open spec fn longest(staged: Seq<(Seq<u8>, Seq<u8>)>) -> nat
    decreases staged.len(),
{
    if staged.len() == 0 {
        0
    } else if longest(staged.drop_last()) < staged.last().0.len() {
        staged.last().0.len()
    } else {
        longest(staged.drop_last())
    }
}

/// The file entries of the directory of `prefix`, in staging order.
pub open spec fn file_entries(staged: Seq<(Seq<u8>, Seq<u8>)>, prefix: Seq<u8>) -> Seq<TreeEntry>
    decreases staged.len(),
{
    if staged.len() == 0 {
        Seq::empty()
    } else {
        let before = file_entries(staged.drop_last(), prefix);
        let path = staged.last().0;
        if is_file_at(path, prefix) {
            before.push(
                TreeEntry {
                    dir: false,
                    name: rest_of(path, prefix),
                    id: hex_bytes(staged.last().1),
                },
            )
        } else {
            before
        }
    }
}

/// The names of the subdirectories of the directory of `prefix`, each
/// once, in the order in which the staging table first leads into them.
pub open spec fn subdirs(staged: Seq<(Seq<u8>, Seq<u8>)>, prefix: Seq<u8>) -> Seq<Seq<u8>>
    decreases staged.len(),
{
    if staged.len() == 0 {
        Seq::empty()
    } else {
        let before = subdirs(staged.drop_last(), prefix);
        let path = staged.last().0;
        if is_below(path, prefix) && !before.contains(segment(path, prefix)) {
            before.push(segment(path, prefix))
        } else {
            before
        }
    }
}

/// The entries of the tree of the directory of `prefix`: its files, then
/// its subdirectories.
pub open spec fn tree_entries(staged: Seq<(Seq<u8>, Seq<u8>)>, prefix: Seq<u8>) -> Seq<TreeEntry>
    decreases longest(staged) - prefix.len(), 1nat, 0nat,
{
    file_entries(staged, prefix) + dir_entries(staged, prefix, subdirs(staged, prefix))
}

/// The subdirectory entries for `names`: each refers to the tree of the
/// subdirectory by the digest of its store bytes.
pub open spec fn dir_entries(
    staged: Seq<(Seq<u8>, Seq<u8>)>,
    prefix: Seq<u8>,
    names: Seq<Seq<u8>>,
) -> Seq<TreeEntry>
    decreases longest(staged) - prefix.len(), 0nat, names.len(),
{
    if names.len() == 0 {
        Seq::empty()
    } else {
        let before = dir_entries(staged, prefix, names.drop_last());
        let sub = child(prefix, names.last());
        if sub.len() <= longest(staged) {
            before.push(
                TreeEntry { dir: true, name: names.last(), id: digest(tree_bytes(staged, sub)) },
            )
        } else {
            before
        }
    }
}

/// The store bytes of the tree of the directory of `prefix`.
pub open spec fn tree_bytes(staged: Seq<(Seq<u8>, Seq<u8>)>, prefix: Seq<u8>) -> Seq<u8>
    decreases longest(staged) - prefix.len(), 2nat, 0nat,
{
    encoded(ObjectKind::Tree, records(tree_entries(staged, prefix)))
}

/// The hash of the tree of the directory of `prefix`.
pub open spec fn tree_id(staged: Seq<(Seq<u8>, Seq<u8>)>, prefix: Seq<u8>) -> Seq<u8> {
    object_id(tree_bytes(staged, prefix))
}

/// The store after the tree of `prefix` and the trees below it were saved:
/// the subdirectories first, in their order, then the tree itself.
pub open spec fn with_tree(
    m: Map<Seq<u8>, Option<Seq<u8>>>,
    staged: Seq<(Seq<u8>, Seq<u8>)>,
    prefix: Seq<u8>,
) -> Map<Seq<u8>, Option<Seq<u8>>>
    decreases longest(staged) - prefix.len(), 1nat, 0nat,
{
    saved(
        with_dirs(m, staged, prefix, subdirs(staged, prefix)),
        tree_id(staged, prefix),
        tree_bytes(staged, prefix),
    )
}

/// The store after the trees of the subdirectories `names` were saved.
pub open spec fn with_dirs(
    m: Map<Seq<u8>, Option<Seq<u8>>>,
    staged: Seq<(Seq<u8>, Seq<u8>)>,
    prefix: Seq<u8>,
    names: Seq<Seq<u8>>,
) -> Map<Seq<u8>, Option<Seq<u8>>>
    decreases longest(staged) - prefix.len(), 0nat, names.len(),
{
    if names.len() == 0 {
        m
    } else {
        let before = with_dirs(m, staged, prefix, names.drop_last());
        let sub = child(prefix, names.last());
        if sub.len() <= longest(staged) {
            with_tree(before, staged, sub)
        } else {
            before
        }
    }
}

/// Every staged file directly in the directory of `prefix` has a hash
/// that is a string of hex digit pairs.
pub open spec fn files_valid(staged: Seq<(Seq<u8>, Seq<u8>)>, prefix: Seq<u8>) -> bool {
    forall|i: int|
        0 <= i < staged.len() && is_file_at((#[trigger] staged[i]).0, prefix) ==> is_hex(
            staged[i].1,
        )
}

/// Why the work on the tree of `prefix` stops, if it does: over a file of
/// the directory whose hash is not hex, else over the first subdirectory
/// whose tree fails, else over the save of the tree itself.
pub open spec fn tree_failure(
    m: Map<Seq<u8>, Option<Seq<u8>>>,
    staged: Seq<(Seq<u8>, Seq<u8>)>,
    prefix: Seq<u8>,
) -> Option<Error>
    decreases longest(staged) - prefix.len(), 1nat, 0nat,
{
    if !files_valid(staged, prefix) {
        Some(Error::InvalidHash)
    } else {
        match dirs_failure(m, staged, prefix, subdirs(staged, prefix)) {
            Some(e) => Some(e),
            None => if save_fails(
                with_dirs(m, staged, prefix, subdirs(staged, prefix)),
                tree_id(staged, prefix),
                tree_bytes(staged, prefix),
            ) {
                Some(Error::IOFailure)
            } else {
                None
            },
        }
    }
}

/// Why the work on the trees of the subdirectories `names` stops, if it
/// does: over the first of them whose tree fails, in a store that holds
/// the trees of those before it.
pub open spec fn dirs_failure(
    m: Map<Seq<u8>, Option<Seq<u8>>>,
    staged: Seq<(Seq<u8>, Seq<u8>)>,
    prefix: Seq<u8>,
    names: Seq<Seq<u8>>,
) -> Option<Error>
    decreases longest(staged) - prefix.len(), 0nat, names.len(),
{
    if names.len() == 0 {
        None
    } else {
        match dirs_failure(m, staged, prefix, names.drop_last()) {
            Some(e) => Some(e),
            None => {
                let sub = child(prefix, names.last());
                if sub.len() <= longest(staged) {
                    tree_failure(
                        with_dirs(m, staged, prefix, names.drop_last()),
                        staged,
                        sub,
                    )
                } else {
                    None
                }
            },
        }
    }
}

/// Every staged hash under `prefix` is a string of hex digit pairs.
pub open spec fn tree_valid(staged: Seq<(Seq<u8>, Seq<u8>)>, prefix: Seq<u8>) -> bool {
    forall|i: int|
        0 <= i < staged.len() && prefix.is_prefix_of((#[trigger] staged[i]).0) ==> is_hex(
            staged[i].1,
        )
}

/// The first failure among the subdirectories is the failure of them all.
pub proof fn lemma_failure_stays(
    m: Map<Seq<u8>, Option<Seq<u8>>>,
    staged: Seq<(Seq<u8>, Seq<u8>)>,
    prefix: Seq<u8>,
    names: Seq<Seq<u8>>,
    j: int,
    e: Error,
)
    requires
        0 <= j <= names.len(),
        dirs_failure(m, staged, prefix, names.take(j)) == Some(e),
    ensures
        dirs_failure(m, staged, prefix, names) == Some(e),
    decreases names.len() - j,
{
    if j < names.len() {
        assert(names.take(j + 1).drop_last() =~= names.take(j));
        lemma_failure_stays(m, staged, prefix, names, j + 1, e);
    } else {
        assert(names.take(j) =~= names);
    }
}

/// Where the encoder fails on nothing, the work on a tree stops over
/// nothing but a staged hash that is not hex.
pub proof fn lemma_tree_succeeds(
    m: Map<Seq<u8>, Option<Seq<u8>>>,
    staged: Seq<(Seq<u8>, Seq<u8>)>,
    prefix: Seq<u8>,
)
    ensures
        tree_valid(staged, prefix) && (forall|d: Seq<u8>| (#[trigger] deflated(d)) is Some)
            ==> tree_failure(m, staged, prefix) is None,
    decreases longest(staged) - prefix.len(), 1nat, 0nat,
{
    if tree_valid(staged, prefix) && (forall|d: Seq<u8>| (#[trigger] deflated(d)) is Some) {
        lemma_dirs_succeed(m, staged, prefix, subdirs(staged, prefix), subdirs(staged, prefix).len() as int);
        assert(subdirs(staged, prefix).take(subdirs(staged, prefix).len() as int) =~= subdirs(
            staged,
            prefix,
        ));
    }
}

/// Where the encoder fails on nothing and every staged hash under the
/// prefix is hex, the work on the first `j` subdirectories does not stop.
pub proof fn lemma_dirs_succeed(
    m: Map<Seq<u8>, Option<Seq<u8>>>,
    staged: Seq<(Seq<u8>, Seq<u8>)>,
    prefix: Seq<u8>,
    names: Seq<Seq<u8>>,
    j: int,
)
    requires
        tree_valid(staged, prefix),
        forall|d: Seq<u8>| (#[trigger] deflated(d)) is Some,
        0 <= j <= names.len(),
    ensures
        dirs_failure(m, staged, prefix, names.take(j)) is None,
    decreases longest(staged) - prefix.len(), 0nat, j,
{
    if j > 0 {
        let done = names.take(j - 1);
        let sub = child(prefix, names[j - 1]);
        assert(names.take(j).drop_last() =~= done);
        assert(names.take(j).last() == names[j - 1]);
        lemma_dirs_succeed(m, staged, prefix, names, j - 1);
        if sub.len() <= longest(staged) {
            assert(sub.subrange(0, prefix.len() as int) =~= prefix);
            assert(tree_valid(staged, sub)) by {
                assert forall|i: int|
                    0 <= i < staged.len() && sub.is_prefix_of(
                        (#[trigger] staged[i]).0,
                    ) implies is_hex(staged[i].1) by {
                    lemma_prefix_transitive(prefix, sub, staged[i].0);
                }
            }
            lemma_tree_succeeds(with_dirs(m, staged, prefix, done), staged, sub);
        }
    }
}

/// No staged path is longer than `longest`.
pub proof fn lemma_longest(staged: Seq<(Seq<u8>, Seq<u8>)>, i: int)
    requires
        0 <= i < staged.len(),
    ensures
        staged[i].0.len() <= longest(staged),
    decreases staged.len(),
{
    if i < staged.len() - 1 {
        lemma_longest(staged.drop_last(), i);
    }
}

/// A path that leads into a subdirectory begins with the prefix of that
/// subdirectory.
pub proof fn lemma_child_prefix(path: Seq<u8>, prefix: Seq<u8>)
    requires
        is_below(path, prefix),
    ensures
        child(prefix, segment(path, prefix)).is_prefix_of(path),
        find(segment(path, prefix), SLASH) == segment(path, prefix).len(),
{
    let rest = rest_of(path, prefix);
    let n = find(rest, SLASH);
    lemma_find(rest, SLASH);
    let c = child(prefix, segment(path, prefix));
    assert(c.len() == prefix.len() + n + 1);
    assert forall|j: int| 0 <= j < c.len() implies c[j] == path[j] by {
        if j < prefix.len() {
            assert(path.subrange(0, prefix.len() as int)[j] == path[j]);
        } else if j < prefix.len() + n {
            assert(c[j] == rest[j - prefix.len()]);
        } else {
            assert(c[j] == SLASH);
            assert(rest[n] == path[prefix.len() + n]);
        }
    }
    assert(c =~= path.subrange(0, c.len() as int));
    let seg = segment(path, prefix);
    assert forall|j: int| 0 <= j < seg.len() implies seg[j] != SLASH by {
        assert(seg[j] == rest[j]);
    }
    crate::bytes::lemma_find_at(seg, SLASH, seg.len() as int);
}

/// A path under the prefix of a subdirectory leads into that subdirectory.
pub proof fn lemma_under_child(path: Seq<u8>, prefix: Seq<u8>, name: Seq<u8>)
    requires
        child(prefix, name).is_prefix_of(path),
        find(name, SLASH) == name.len(),
    ensures
        is_below(path, prefix),
        segment(path, prefix) == name,
{
    let c = child(prefix, name);
    let rest = rest_of(path, prefix);
    assert forall|j: int| 0 <= j < c.len() implies c[j] == path[j] by {
        assert(path.subrange(0, c.len() as int)[j] == path[j]);
    }
    assert forall|j: int| 0 <= j < prefix.len() implies prefix[j] == path[j] by {
        assert(prefix[j] == c[j]);
    }
    assert(prefix =~= path.subrange(0, prefix.len() as int));
    lemma_find(name, SLASH);
    assert forall|j: int| 0 <= j < name.len() implies rest[j] != SLASH by {
        assert(rest[j] == c[prefix.len() + j]);
        assert(c[prefix.len() + j] == name[j]);
    }
    assert(rest[name.len() as int] == c[(prefix.len() + name.len()) as int]);
    crate::bytes::lemma_find_at(rest, SLASH, name.len() as int);
    assert forall|j: int| 0 <= j < name.len() implies rest.take(name.len() as int)[j]
        == name[j] by {
        assert(rest[j] == c[prefix.len() + j]);
    }
    assert(rest.take(name.len() as int) =~= name);
}

/// Each name among the subdirectories comes from a staged path that leads
/// into it.
pub proof fn lemma_subdirs_sound(staged: Seq<(Seq<u8>, Seq<u8>)>, prefix: Seq<u8>, k: int)
    requires
        0 <= k < subdirs(staged, prefix).len(),
    ensures
        exists|i: int|
            0 <= i < staged.len() && is_below((#[trigger] staged[i]).0, prefix) && segment(
                staged[i].0,
                prefix,
            ) == subdirs(staged, prefix)[k],
    decreases staged.len(),
{
    let before = subdirs(staged.drop_last(), prefix);
    if k < before.len() {
        lemma_subdirs_sound(staged.drop_last(), prefix, k);
        let i = choose|i: int|
            0 <= i < staged.drop_last().len() && is_below(
                (#[trigger] staged.drop_last()[i]).0,
                prefix,
            ) && segment(staged.drop_last()[i].0, prefix) == before[k];
        assert(staged[i] == staged.drop_last()[i]);
    } else {
        let i = staged.len() - 1;
        assert(is_below(staged[i].0, prefix));
    }
}

/// The subdirectory into which a staged path leads is among the names.
pub proof fn lemma_subdirs_complete(staged: Seq<(Seq<u8>, Seq<u8>)>, prefix: Seq<u8>, i: int)
    requires
        0 <= i < staged.len(),
        is_below(staged[i].0, prefix),
    ensures
        subdirs(staged, prefix).contains(segment(staged[i].0, prefix)),
    decreases staged.len(),
{
    let before = subdirs(staged.drop_last(), prefix);
    let now = subdirs(staged, prefix);
    let name = segment(staged[i].0, prefix);
    if i < staged.len() - 1 {
        lemma_subdirs_complete(staged.drop_last(), prefix, i);
        let k = choose|k: int| 0 <= k < before.len() && before[k] == name;
        assert(now[k] == name);
    } else if before.contains(name) {
        let k = choose|k: int| 0 <= k < before.len() && before[k] == name;
        assert(now[k] == name);
    } else {
        assert(now[now.len() - 1] == name);
    }
}

/// No name occurs twice among the subdirectories.
pub proof fn lemma_subdirs_distinct(staged: Seq<(Seq<u8>, Seq<u8>)>, prefix: Seq<u8>)
    ensures
        subdirs(staged, prefix).no_duplicates(),
    decreases staged.len(),
{
    if staged.len() != 0 {
        lemma_subdirs_distinct(staged.drop_last(), prefix);
    }
}

/// The prefix of each subdirectory among the names is no longer than the
/// longest staged path.
pub proof fn lemma_subdir_fits(staged: Seq<(Seq<u8>, Seq<u8>)>, prefix: Seq<u8>, k: int)
    requires
        0 <= k < subdirs(staged, prefix).len(),
    ensures
        prefix.len() < child(prefix, subdirs(staged, prefix)[k]).len() <= longest(staged),
        find(subdirs(staged, prefix)[k], SLASH) == subdirs(staged, prefix)[k].len(),
{
    lemma_subdirs_sound(staged, prefix, k);
    let i = choose|i: int|
        0 <= i < staged.len() && is_below((#[trigger] staged[i]).0, prefix) && segment(
            staged[i].0,
            prefix,
        ) == subdirs(staged, prefix)[k];
    lemma_child_prefix(staged[i].0, prefix);
    lemma_longest(staged, i);
}

fn contains_name(names: &Vec<Vec<u8>>, name: &[u8]) -> (found: bool)
    ensures
        found == views(names@).contains(name@),
{
    let mut i: usize = 0;
    while i < names.len()
        invariant
            i <= names@.len(),
            forall|j: int| 0 <= j < i ==> views(names@)[j] != name@,
        decreases names@.len() - i,
    {
        if bytes_eq(names[i].as_slice(), name) {
            assert(views(names@)[i as int] == name@);
            return true;
        }
        i += 1;
    }
    false
}

fn push_record(content: &mut Vec<u8>, dir: bool, name: &[u8], id: &[u8])
    ensures
        final(content)@ == old(content)@ + record(TreeEntry { dir, name: name@, id: id@ }),
{
    proof {
        reveal_strlit("040000");
        reveal_strlit("100644");
    }
    if dir {
        push_text(content, "040000");
    } else {
        push_text(content, "100644");
    }
    content.push(SPACE);
    extend(content, name);
    content.push(NUL);
    extend(content, id);
    assert(content@ =~= old(content)@ + record(TreeEntry { dir, name: name@, id: id@ }));
}

/// Builds and saves the tree of the directory of `prefix` and the trees of
/// all directories below it, and returns the hash of the tree of `prefix`.
/// With the empty prefix this is the root tree of the staging table.
///
/// A staged hash under `prefix` that is not hex stops the work with
/// `InvalidHash`; a save that fails stops it with `IOFailure`. The first
/// of these on the way through the directories decides. Trees saved before
/// that stay, and every new tree comes behind what the store held.
#[verifier::rlimit(40)]
pub fn create_tree_recur(objects: &mut ObjectStore, files: &Index, prefix: &[u8]) -> (r: Result<
    Vec<u8>,
    Error,
>)
    requires
        old(objects).wf(),
    ensures
        final(objects).wf(),
        old(objects)@.submap_of(final(objects)@),
        old(objects).order().is_prefix_of(final(objects).order()),
        !tree_valid(files@, prefix@) ==> r is Err,
        r == Err::<Vec<u8>, Error>(Error::InvalidHash) ==> !tree_valid(files@, prefix@),
        match r {
            Ok(id) => {
                &&& tree_failure(old(objects)@, files@, prefix@) is None
                &&& id@ == tree_id(files@, prefix@)
                &&& final(objects)@ == with_tree(old(objects)@, files@, prefix@)
            },
            Err(e) => tree_failure(old(objects)@, files@, prefix@) == Some(e),
        },
    decreases longest(files@) - prefix@.len(),
{
    let ghost staged = files@;
    let ghost pre = prefix@;
    let entries = files.entries();
    let mut content: Vec<u8> = Vec::new();
    let mut names: Vec<Vec<u8>> = Vec::new();
    let mut i: usize = 0;
    assert(staged.take(0) =~= Seq::<(Seq<u8>, Seq<u8>)>::empty());
    assert(objects.order().subrange(0, objects.order().len() as int) =~= objects.order());
    while i < entries.len()
        invariant
            i <= entries@.len(),
            entries@.len() == staged.len(),
            forall|j: int|
                0 <= j < entries@.len() ==> (#[trigger] entries@[j].path@, entries@[j].hash@)
                    == staged[j],
            prefix@ == pre,
            files@ == staged,
            *objects == *old(objects),
            objects.wf(),
            content@ == records(file_entries(staged.take(i as int), pre)),
            views(names@) == subdirs(staged.take(i as int), pre),
            forall|j: int|
                0 <= j < i && is_file_at((#[trigger] staged[j]).0, pre) ==> is_hex(staged[j].1),
        decreases entries@.len() - i,
    {
        let path = entries[i].path.as_slice();
        let ghost now = staged.take(i + 1);
        proof {
            assert((entries@[i as int].path@, entries@[i as int].hash@) == staged[i as int]);
            assert(now.drop_last() =~= staged.take(i as int));
            assert(now.last() == staged[i as int]);
        }
        if starts_with(path, prefix) {
            let rest = vstd::slice::slice_subrange(path, prefix.len(), path.len());
            assert(rest@ =~= rest_of(path@, pre));
            let n = find_byte(rest, SLASH);
            proof {
                lemma_find(rest@, SLASH);
            }
            if n < rest.len() {
                let name = vstd::slice::slice_subrange(rest, 0, n);
                assert(name@ =~= segment(path@, pre));
                if !contains_name(&names, name) {
                    let ghost before = views(names@);
                    let owned = copy_range(name, 0, name.len());
                    assert(owned@ =~= name@);
                    names.push(owned);
                    assert(views(names@) =~= before.push(name@));
                }
            } else {
                match from_hex(entries[i].hash.as_slice()) {
                    Ok(raw) => {
                        let ghost e = TreeEntry { dir: false, name: rest@, id: raw@ };
                        let ghost so_far = file_entries(staged.take(i as int), pre);
                        push_record(&mut content, false, rest, raw.as_slice());
                        proof {
                            assert(file_entries(now, pre) == so_far.push(e));
                            assert(so_far.push(e).drop_last() =~= so_far);
                        }
                    },
                    Err(e) => {
                        assert(pre.is_prefix_of(staged[i as int].0));
                        assert(is_file_at(staged[i as int].0, pre));
                        assert(!files_valid(staged, pre));
                        return Err(e);
                    },
                }
            }
        }
        i += 1;
    }
    assert(staged.take(staged.len() as int) =~= staged);
    let ghost files_here = file_entries(staged, pre);
    let ghost all_names = subdirs(staged, pre);
    let mut k: usize = 0;
    assert(all_names.take(0) =~= Seq::<Seq<u8>>::empty());
    assert(files_here + Seq::<TreeEntry>::empty() =~= files_here);
    while k < names.len()
        invariant
            k <= names@.len(),
            files@ == staged,
            prefix@ == pre,
            views(names@) == all_names,
            all_names == subdirs(staged, pre),
            files_here == file_entries(staged, pre),
            objects.wf(),
            old(objects)@.submap_of(objects@),
            old(objects).order().is_prefix_of(objects.order()),
            files_valid(staged, pre),
            dirs_failure(old(objects)@, staged, pre, all_names.take(k as int)) is None,
            content@ == records(files_here + dir_entries(staged, pre, all_names.take(k as int))),
            objects@ == with_dirs(old(objects)@, staged, pre, all_names.take(k as int)),
            forall|j: int| 0 <= j < k ==> tree_valid(staged, child(pre, #[trigger] all_names[j])),
        decreases names@.len() - k,
    {
        let name = names[k].as_slice();
        let ghost done = all_names.take(k as int);
        let ghost next = all_names.take(k + 1);
        let mut sub = copy_range(prefix, 0, prefix.len());
        extend(&mut sub, name);
        sub.push(SLASH);
        proof {
            assert(name@ == all_names[k as int]);
            assert(sub@ =~= child(pre, name@));
            lemma_subdir_fits(staged, pre, k as int);
            assert(next.drop_last() =~= done);
            assert(next.last() == name@);
        }
        let ghost before = objects@;
        let ghost order_before = objects.order();
        let id = match create_tree_recur(objects, files, sub.as_slice()) {
            Ok(id) => id,
            Err(e) => {
                proof {
                    lemma_submap_transitive(old(objects)@, before, objects@);
                    lemma_order_transitive(old(objects).order(), order_before, objects.order());
                    assert(dirs_failure(old(objects)@, staged, pre, next) == Some(e));
                    lemma_failure_stays(old(objects)@, staged, pre, all_names, k + 1, e);
                    if e == Error::InvalidHash {
                        let j = choose|j: int|
                            0 <= j < staged.len() && sub@.is_prefix_of((#[trigger] staged[j]).0)
                                && !is_hex(staged[j].1);
                        lemma_prefix_transitive(pre, sub@, staged[j].0);
                    }
                }
                return Err(e);
            },
        };
        proof {
            lemma_submap_transitive(old(objects)@, before, objects@);
            lemma_order_transitive(old(objects).order(), order_before, objects.order());
            lemma_hex_round_trip(digest(tree_bytes(staged, sub@)));
        }
        let raw = match from_hex(id.as_slice()) {
            Ok(raw) => raw,
            Err(e) => {
                return Err(e);
            },
        };
        let ghost entry = TreeEntry { dir: true, name: name@, id: raw@ };
        let ghost so_far = files_here + dir_entries(staged, pre, done);
        push_record(&mut content, true, name, raw.as_slice());
        proof {
            assert(dir_entries(staged, pre, next) == dir_entries(staged, pre, done).push(entry));
            assert(files_here + dir_entries(staged, pre, next) =~= so_far.push(entry));
            assert(so_far.push(entry).drop_last() =~= so_far);
        }
        k += 1;
    }
    assert(all_names.take(all_names.len() as int) =~= all_names);
    let store = encode(ObjectKind::Tree, content.as_slice());
    let id = hash(store.as_slice());
    let ghost before = objects@;
    let ghost order_before = objects.order();
    match save_object(objects, id.as_slice(), store.as_slice()) {
        Ok(_) => {},
        Err(e) => {
            return Err(e);
        },
    }
    proof {
        lemma_submap_transitive(old(objects)@, before, objects@);
        assert(order_before.is_prefix_of(objects.order())) by {
            assert(order_before.push(id@).subrange(0, order_before.len() as int)
                =~= order_before);
            assert(order_before.subrange(0, order_before.len() as int) =~= order_before);
        }
        lemma_order_transitive(old(objects).order(), order_before, objects.order());
        assert forall|j: int|
            0 <= j < staged.len() && pre.is_prefix_of((#[trigger] staged[j]).0) implies is_hex(
            staged[j].1,
        ) by {
            let path = staged[j].0;
            lemma_find(rest_of(path, pre), SLASH);
            if is_below(path, pre) {
                lemma_subdirs_complete(staged, pre, j);
                let name = segment(path, pre);
                let at = choose|at: int| 0 <= at < all_names.len() && all_names[at] == name;
                assert(tree_valid(staged, child(pre, all_names[at])));
                lemma_child_prefix(path, pre);
            }
        }
    }
    Ok(id)
}

/// Saving the trees of a directory changes no entry that the store held
/// before.
pub proof fn lemma_with_tree_grows(
    m: Map<Seq<u8>, Option<Seq<u8>>>,
    staged: Seq<(Seq<u8>, Seq<u8>)>,
    prefix: Seq<u8>,
)
    ensures
        m.submap_of(with_tree(m, staged, prefix)),
    decreases longest(staged) - prefix.len(), 1nat, 0nat,
{
    let below = with_dirs(m, staged, prefix, subdirs(staged, prefix));
    lemma_with_dirs_grows(m, staged, prefix, subdirs(staged, prefix));
    lemma_save_keeps(below, tree_id(staged, prefix), tree_bytes(staged, prefix));
    lemma_submap_transitive(m, below, with_tree(m, staged, prefix));
}

/// Saving the trees of subdirectories changes no entry that the store
/// held before.
pub proof fn lemma_with_dirs_grows(
    m: Map<Seq<u8>, Option<Seq<u8>>>,
    staged: Seq<(Seq<u8>, Seq<u8>)>,
    prefix: Seq<u8>,
    names: Seq<Seq<u8>>,
)
    ensures
        m.submap_of(with_dirs(m, staged, prefix, names)),
    decreases longest(staged) - prefix.len(), 0nat, names.len(),
{
    if names.len() > 0 {
        let before = with_dirs(m, staged, prefix, names.drop_last());
        let sub = child(prefix, names.last());
        lemma_with_dirs_grows(m, staged, prefix, names.drop_last());
        if sub.len() <= longest(staged) {
            lemma_with_tree_grows(before, staged, sub);
            lemma_submap_transitive(m, before, with_tree(before, staged, sub));
        }
    }
}

/// A prefix of a prefix of a path is a prefix of the path.
pub proof fn lemma_prefix_transitive(a: Seq<u8>, b: Seq<u8>, c: Seq<u8>)
    requires
        a.is_prefix_of(b),
        b.is_prefix_of(c),
    ensures
        a.is_prefix_of(c),
{
    assert forall|j: int| 0 <= j < a.len() implies a[j] == c[j] by {
        assert(a[j] == b.subrange(0, a.len() as int)[j]);
        assert(b[j] == c.subrange(0, b.len() as int)[j]);
    }
    assert(a =~= c.subrange(0, a.len() as int));
}

} // verus!
