//! The root tree expanded through its subdirectories: every staged file is
//! in it once, and every directory on the way to a file once.

use crate::bytes::{find, lemma_find, SLASH};
use crate::codec::hex_bytes;
use crate::tree::{
    child, dir_entries, file_entries, is_below, is_file_at, lemma_child_prefix,
    lemma_prefix_transitive, lemma_subdir_fits, lemma_subdirs_complete, lemma_subdirs_distinct,
    lemma_under_child, longest, rest_of, segment, subdirs, tree_entries, TreeEntry,
};
use vstd::multiset::Multiset;
use vstd::prelude::*;
use vstd::seq_lib::{lemma_multiset_commutative, to_multiset_build, to_multiset_len};

verus! {

/// What a tree holds of a staged entry: its path and its raw hash.
pub open spec fn leaf(entry: (Seq<u8>, Seq<u8>)) -> (Seq<u8>, Seq<u8>) {
    (entry.0, hex_bytes(entry.1))
}

/// The staged entries as the trees hold them.
pub open spec fn leaves(staged: Seq<(Seq<u8>, Seq<u8>)>) -> Seq<(Seq<u8>, Seq<u8>)> {
    Seq::new(staged.len(), |i: int| leaf(staged[i]))
}

/// The files of the tree of `prefix` and of all trees below it, each with
/// its full path and its raw hash: the tree expanded through its
/// subdirectory entries.
pub open spec fn expand_files(staged: Seq<(Seq<u8>, Seq<u8>)>, prefix: Seq<u8>) -> Seq<
    (Seq<u8>, Seq<u8>),
>
    decreases longest(staged) - prefix.len(), 1nat, 0nat,
{
    expand_file_entries(staged, prefix, tree_entries(staged, prefix))
}

/// The files that `entries` of the tree of `prefix` lead to: a file entry
/// gives itself, a subdirectory entry the files of its tree.
pub open spec fn expand_file_entries(
    staged: Seq<(Seq<u8>, Seq<u8>)>,
    prefix: Seq<u8>,
    entries: Seq<TreeEntry>,
) -> Seq<(Seq<u8>, Seq<u8>)>
    decreases longest(staged) - prefix.len(), 0nat, entries.len(),
{
    if entries.len() == 0 {
        Seq::empty()
    } else {
        let before = expand_file_entries(staged, prefix, entries.drop_last());
        let e = entries.last();
        if !e.dir {
            before.push((prefix + e.name, e.id))
        } else if child(prefix, e.name).len() <= longest(staged) {
            before + expand_files(staged, child(prefix, e.name))
        } else {
            before
        }
    }
}

/// The prefixes of the subdirectories of the tree of `prefix` and of all
/// trees below it: one for each subdirectory entry met in the expansion.
pub open spec fn expand_dirs(staged: Seq<(Seq<u8>, Seq<u8>)>, prefix: Seq<u8>) -> Seq<Seq<u8>>
    decreases longest(staged) - prefix.len(), 1nat, 0nat,
{
    expand_dir_entries(staged, prefix, tree_entries(staged, prefix))
}

/// The prefixes of the subdirectories that `entries` of the tree of
/// `prefix` lead to.
pub open spec fn expand_dir_entries(
    staged: Seq<(Seq<u8>, Seq<u8>)>,
    prefix: Seq<u8>,
    entries: Seq<TreeEntry>,
) -> Seq<Seq<u8>>
    decreases longest(staged) - prefix.len(), 0nat, entries.len(),
{
    if entries.len() == 0 {
        Seq::empty()
    } else {
        let before = expand_dir_entries(staged, prefix, entries.drop_last());
        let e = entries.last();
        if !e.dir {
            before
        } else if child(prefix, e.name).len() <= longest(staged) {
            before.push(child(prefix, e.name)) + expand_dirs(staged, child(prefix, e.name))
        } else {
            before.push(child(prefix, e.name))
        }
    }
}

/// `q` is the prefix of a directory on the way to a staged file: it ends
/// in a slash and some staged path begins with it.
pub open spec fn is_dir_prefix(staged: Seq<(Seq<u8>, Seq<u8>)>, q: Seq<u8>) -> bool {
    &&& q.len() > 0
    &&& q.last() == SLASH
    &&& exists|i: int| 0 <= i < staged.len() && q.is_prefix_of((#[trigger] staged[i]).0)
}

spec fn leaves_under(staged: Seq<(Seq<u8>, Seq<u8>)>, prefix: Seq<u8>) -> Seq<(Seq<u8>, Seq<u8>)>
    decreases staged.len(),
{
    if staged.len() == 0 {
        Seq::empty()
    } else {
        let before = leaves_under(staged.drop_last(), prefix);
        if prefix.is_prefix_of(staged.last().0) {
            before.push(leaf(staged.last()))
        } else {
            before
        }
    }
}

spec fn files_here(staged: Seq<(Seq<u8>, Seq<u8>)>, prefix: Seq<u8>) -> Seq<(Seq<u8>, Seq<u8>)>
    decreases staged.len(),
{
    if staged.len() == 0 {
        Seq::empty()
    } else {
        let before = files_here(staged.drop_last(), prefix);
        if is_file_at(staged.last().0, prefix) {
            before.push(leaf(staged.last()))
        } else {
            before
        }
    }
}

spec fn under_children(
    staged: Seq<(Seq<u8>, Seq<u8>)>,
    prefix: Seq<u8>,
    names: Seq<Seq<u8>>,
) -> Seq<(Seq<u8>, Seq<u8>)>
    decreases names.len(),
{
    if names.len() == 0 {
        Seq::empty()
    } else {
        under_children(staged, prefix, names.drop_last()) + leaves_under(
            staged,
            child(prefix, names.last()),
        )
    }
}

spec fn below(staged: Seq<(Seq<u8>, Seq<u8>)>, prefix: Seq<u8>, names: Seq<Seq<u8>>) -> Seq<
    (Seq<u8>, Seq<u8>),
>
    decreases names.len(),
{
    if names.len() == 0 {
        Seq::empty()
    } else {
        below(staged, prefix, names.drop_last()) + expand_files(
            staged,
            child(prefix, names.last()),
        )
    }
}

spec fn hits(path: Seq<u8>, prefix: Seq<u8>, names: Seq<Seq<u8>>) -> bool {
    exists|k: int| 0 <= k < names.len() && child(prefix, #[trigger] names[k]).is_prefix_of(path)
}

spec fn slash_free(names: Seq<Seq<u8>>) -> bool {
    forall|k: int| 0 <= k < names.len() ==> find(#[trigger] names[k], SLASH) == names[k].len()
}

spec fn fitting(staged: Seq<(Seq<u8>, Seq<u8>)>, prefix: Seq<u8>, names: Seq<Seq<u8>>) -> bool {
    forall|k: int|
        0 <= k < names.len() ==> prefix.len() < child(prefix, #[trigger] names[k]).len()
            <= longest(staged)
}

proof fn lemma_file_entries_concat(
    staged: Seq<(Seq<u8>, Seq<u8>)>,
    prefix: Seq<u8>,
    a: Seq<TreeEntry>,
    b: Seq<TreeEntry>,
)
    ensures
        expand_file_entries(staged, prefix, a + b) == expand_file_entries(staged, prefix, a)
            + expand_file_entries(staged, prefix, b),
    decreases b.len(),
{
    if b.len() == 0 {
        assert(a + b =~= a);
        assert(expand_file_entries(staged, prefix, a) + expand_file_entries(staged, prefix, b)
            =~= expand_file_entries(staged, prefix, a));
    } else {
        lemma_file_entries_concat(staged, prefix, a, b.drop_last());
        assert((a + b).drop_last() =~= a + b.drop_last());
        assert((a + b).last() == b.last());
        assert(expand_file_entries(staged, prefix, a + b) =~= expand_file_entries(
            staged,
            prefix,
            a,
        ) + expand_file_entries(staged, prefix, b));
    }
}

proof fn lemma_file_leaves(
    staged: Seq<(Seq<u8>, Seq<u8>)>,
    prefix: Seq<u8>,
    s: Seq<(Seq<u8>, Seq<u8>)>,
)
    ensures
        expand_file_entries(staged, prefix, file_entries(s, prefix)) == files_here(s, prefix),
    decreases s.len(),
{
    if s.len() > 0 {
        lemma_file_leaves(staged, prefix, s.drop_last());
        let path = s.last().0;
        if is_file_at(path, prefix) {
            let before = file_entries(s.drop_last(), prefix);
            let e = TreeEntry {
                dir: false,
                name: rest_of(path, prefix),
                id: hex_bytes(s.last().1),
            };
            assert(file_entries(s, prefix) == before.push(e));
            assert(before.push(e).drop_last() =~= before);
            assert(prefix + rest_of(path, prefix) =~= path);
        }
    }
}

proof fn lemma_dir_leaves(staged: Seq<(Seq<u8>, Seq<u8>)>, prefix: Seq<u8>, names: Seq<Seq<u8>>)
    requires
        fitting(staged, prefix, names),
    ensures
        expand_file_entries(staged, prefix, dir_entries(staged, prefix, names)) == below(
            staged,
            prefix,
            names,
        ),
    decreases names.len(),
{
    if names.len() > 0 {
        assert forall|k: int| 0 <= k < names.drop_last().len() implies prefix.len() < child(
            prefix,
            #[trigger] names.drop_last()[k],
        ).len() <= longest(staged) by {
            assert(names.drop_last()[k] == names[k]);
        }
        lemma_dir_leaves(staged, prefix, names.drop_last());
        let before = dir_entries(staged, prefix, names.drop_last());
        let sub = child(prefix, names.last());
        assert(names.last() == names[names.len() - 1]);
        let e = TreeEntry {
            dir: true,
            name: names.last(),
            id: crate::codec::digest(crate::tree::tree_bytes(staged, sub)),
        };
        assert(dir_entries(staged, prefix, names) == before.push(e));
        assert(before.push(e).drop_last() =~= before);
    }
}

proof fn lemma_leaves_all(staged: Seq<(Seq<u8>, Seq<u8>)>)
    ensures
        leaves_under(staged, Seq::empty()) == leaves(staged),
    decreases staged.len(),
{
    if staged.len() > 0 {
        lemma_leaves_all(staged.drop_last());
        let root = Seq::<u8>::empty();
        assert(root =~= staged.last().0.subrange(0, 0));
        assert(leaves(staged.drop_last()).push(leaf(staged.last())) =~= leaves(staged));
    } else {
        assert(leaves(staged) =~= Seq::empty());
    }
}

proof fn lemma_children_none(prefix: Seq<u8>, names: Seq<Seq<u8>>)
    ensures
        under_children(Seq::empty(), prefix, names) == Seq::<(Seq<u8>, Seq<u8>)>::empty(),
    decreases names.len(),
{
    if names.len() > 0 {
        lemma_children_none(prefix, names.drop_last());
        assert(under_children(Seq::empty(), prefix, names) =~= Seq::<
            (Seq<u8>, Seq<u8>),
        >::empty());
    }
}

proof fn lemma_child_under(prefix: Seq<u8>, name: Seq<u8>)
    ensures
        prefix.is_prefix_of(child(prefix, name)),
{
    assert(child(prefix, name).subrange(0, prefix.len() as int) =~= prefix);
}

proof fn lemma_one_hit(path: Seq<u8>, prefix: Seq<u8>, names: Seq<Seq<u8>>, a: int, b: int)
    requires
        names.no_duplicates(),
        slash_free(names),
        0 <= a < names.len(),
        0 <= b < names.len(),
        child(prefix, names[a]).is_prefix_of(path),
        child(prefix, names[b]).is_prefix_of(path),
    ensures
        a == b,
{
    lemma_under_child(path, prefix, names[a]);
    lemma_under_child(path, prefix, names[b]);
}

#[verifier::rlimit(40)]
proof fn lemma_children_step(
    s: Seq<(Seq<u8>, Seq<u8>)>,
    prefix: Seq<u8>,
    names: Seq<Seq<u8>>,
)
    requires
        s.len() > 0,
        names.no_duplicates(),
        slash_free(names),
    ensures
        under_children(s, prefix, names).to_multiset() == under_children(
            s.drop_last(),
            prefix,
            names,
        ).to_multiset().add(
            if hits(s.last().0, prefix, names) {
                Multiset::singleton(leaf(s.last()))
            } else {
                Multiset::empty()
            },
        ),
    decreases names.len(),
{
    broadcast use vstd::multiset::group_multiset_axioms;

    let path = s.last().0;
    if names.len() == 0 {
        assert(under_children(s, prefix, names).to_multiset() =~= under_children(
            s.drop_last(),
            prefix,
            names,
        ).to_multiset().add(Multiset::empty()));
    } else {
        let dl = names.drop_last();
        let last = names.len() - 1;
        let c = child(prefix, names.last());
        assert(names.last() == names[last]);
        assert forall|k: int| 0 <= k < dl.len() implies find(#[trigger] dl[k], SLASH)
            == dl[k].len() by {
            assert(dl[k] == names[k]);
        }
        assert(dl.no_duplicates()) by {
            assert forall|i: int, j: int|
                0 <= i < dl.len() && 0 <= j < dl.len() && i != j implies dl[i] != dl[j] by {
                assert(dl[i] == names[i] && dl[j] == names[j]);
            }
        }
        lemma_children_step(s, prefix, dl);
        lemma_multiset_commutative(under_children(s, prefix, dl), leaves_under(s, c));
        lemma_multiset_commutative(
            under_children(s.drop_last(), prefix, dl),
            leaves_under(s.drop_last(), c),
        );
        if c.is_prefix_of(path) {
            to_multiset_build(leaves_under(s.drop_last(), c), leaf(s.last()));
            assert(hits(path, prefix, names));
            if hits(path, prefix, dl) {
                let k = choose|k: int|
                    0 <= k < dl.len() && child(prefix, #[trigger] dl[k]).is_prefix_of(path);
                assert(dl[k] == names[k]);
                lemma_one_hit(path, prefix, names, k, last);
            }
        } else {
            if hits(path, prefix, names) {
                let k = choose|k: int|
                    0 <= k < names.len() && child(prefix, #[trigger] names[k]).is_prefix_of(path);
                assert(k < last);
                assert(dl[k] == names[k]);
                assert(hits(path, prefix, dl));
            }
            if hits(path, prefix, dl) {
                let k = choose|k: int|
                    0 <= k < dl.len() && child(prefix, #[trigger] dl[k]).is_prefix_of(path);
                assert(dl[k] == names[k]);
                assert(hits(path, prefix, names));
            }
        }
        assert(under_children(s, prefix, names).to_multiset() =~= under_children(
            s.drop_last(),
            prefix,
            names,
        ).to_multiset().add(
            if hits(path, prefix, names) {
                Multiset::singleton(leaf(s.last()))
            } else {
                Multiset::empty()
            },
        ));
    }
}

#[verifier::rlimit(40)]
proof fn lemma_partition(s: Seq<(Seq<u8>, Seq<u8>)>, prefix: Seq<u8>, names: Seq<Seq<u8>>)
    requires
        names.no_duplicates(),
        slash_free(names),
        forall|i: int|
            0 <= i < s.len() && is_below((#[trigger] s[i]).0, prefix) ==> names.contains(
                segment(s[i].0, prefix),
            ),
    ensures
        leaves_under(s, prefix).to_multiset() == files_here(s, prefix).to_multiset().add(
            under_children(s, prefix, names).to_multiset(),
        ),
    decreases s.len(),
{
    broadcast use vstd::multiset::group_multiset_axioms;

    if s.len() == 0 {
        lemma_children_none(prefix, names);
        assert(s =~= Seq::empty());
        let none = Seq::<(Seq<u8>, Seq<u8>)>::empty();
        lemma_multiset_commutative(none, none);
        assert(none + none =~= none);
        assert(leaves_under(s, prefix).to_multiset() =~= files_here(s, prefix).to_multiset().add(
            under_children(s, prefix, names).to_multiset(),
        ));
    } else {
        let earlier = s.drop_last();
        let path = s.last().0;
        assert forall|i: int|
            0 <= i < earlier.len() && is_below((#[trigger] earlier[i]).0, prefix) implies names.contains(
            segment(earlier[i].0, prefix)) by {
            assert(earlier[i] == s[i]);
        }
        lemma_partition(earlier, prefix, names);
        lemma_children_step(s, prefix, names);
        to_multiset_build(leaves_under(earlier, prefix), leaf(s.last()));
        to_multiset_build(files_here(earlier, prefix), leaf(s.last()));
        let one = Multiset::singleton(leaf(s.last()));
        let children = under_children(earlier, prefix, names).to_multiset();
        if hits(path, prefix, names) {
            let k = choose|k: int|
                0 <= k < names.len() && child(prefix, #[trigger] names[k]).is_prefix_of(path);
            lemma_under_child(path, prefix, names[k]);
            assert(is_below(path, prefix));
        }
        if prefix.is_prefix_of(path) {
            lemma_find(rest_of(path, prefix), SLASH);
            assert(leaves_under(s, prefix) == leaves_under(earlier, prefix).push(leaf(s.last())));
            if is_below(path, prefix) {
                assert(s[s.len() - 1] == s.last());
                let name = segment(path, prefix);
                assert(names.contains(name));
                let k = choose|k: int| 0 <= k < names.len() && names[k] == name;
                lemma_child_prefix(path, prefix);
                assert(child(prefix, names[k]).is_prefix_of(path));
                assert(hits(path, prefix, names));
                assert(files_here(s, prefix) == files_here(earlier, prefix));
                assert(under_children(s, prefix, names).to_multiset() == children.add(one));
            } else {
                assert(is_file_at(path, prefix));
                assert(!hits(path, prefix, names));
                assert(files_here(s, prefix) == files_here(earlier, prefix).push(leaf(s.last())));
                assert(under_children(s, prefix, names).to_multiset() == children.add(
                    Multiset::empty(),
                ));
            }
        } else {
            assert(!is_below(path, prefix));
            assert(!hits(path, prefix, names));
            assert(leaves_under(s, prefix) == leaves_under(earlier, prefix));
            assert(files_here(s, prefix) == files_here(earlier, prefix));
        }
        assert(leaves_under(s, prefix).to_multiset() =~= files_here(s, prefix).to_multiset().add(
            under_children(s, prefix, names).to_multiset(),
        ));
    }
}

#[verifier::rlimit(40)]
proof fn lemma_expand_files(staged: Seq<(Seq<u8>, Seq<u8>)>, prefix: Seq<u8>)
    ensures
        expand_files(staged, prefix).to_multiset() == leaves_under(staged, prefix).to_multiset(),
    decreases longest(staged) - prefix.len(), 1nat, 0nat,
{
    broadcast use vstd::multiset::group_multiset_axioms;

    let names = subdirs(staged, prefix);
    lemma_file_entries_concat(
        staged,
        prefix,
        file_entries(staged, prefix),
        dir_entries(staged, prefix, names),
    );
    lemma_file_leaves(staged, prefix, staged);
    assert(fitting(staged, prefix, names) && slash_free(names)) by {
        assert forall|k: int| 0 <= k < names.len() implies prefix.len() < child(
            prefix,
            #[trigger] names[k],
        ).len() <= longest(staged) && find(names[k], SLASH) == names[k].len() by {
            lemma_subdir_fits(staged, prefix, k);
        }
    }
    lemma_dir_leaves(staged, prefix, names);
    lemma_below_children(staged, prefix, names);
    lemma_subdirs_distinct(staged, prefix);
    assert forall|i: int|
        0 <= i < staged.len() && is_below((#[trigger] staged[i]).0, prefix) implies names.contains(
        segment(staged[i].0, prefix)) by {
        lemma_subdirs_complete(staged, prefix, i);
    }
    lemma_partition(staged, prefix, names);
    lemma_multiset_commutative(files_here(staged, prefix), below(staged, prefix, names));
}

proof fn lemma_below_children(
    staged: Seq<(Seq<u8>, Seq<u8>)>,
    prefix: Seq<u8>,
    names: Seq<Seq<u8>>,
)
    requires
        fitting(staged, prefix, names),
    ensures
        below(staged, prefix, names).to_multiset() == under_children(
            staged,
            prefix,
            names,
        ).to_multiset(),
    decreases longest(staged) - prefix.len(), 0nat, names.len(),
{
    broadcast use vstd::multiset::group_multiset_axioms;

    if names.len() > 0 {
        let dl = names.drop_last();
        let c = child(prefix, names.last());
        assert(names.last() == names[names.len() - 1]);
        assert forall|k: int| 0 <= k < dl.len() implies prefix.len() < child(
            prefix,
            #[trigger] dl[k],
        ).len() <= longest(staged) by {
            assert(dl[k] == names[k]);
        }
        lemma_below_children(staged, prefix, dl);
        lemma_expand_files(staged, c);
        lemma_multiset_commutative(below(staged, prefix, dl), expand_files(staged, c));
        lemma_multiset_commutative(under_children(staged, prefix, dl), leaves_under(staged, c));
    }
}

/// Tree completeness, files. The root tree, expanded through its
/// subdirectory entries, holds exactly the staged files: each staged pair
/// of path and hash as often as the staging table holds it, with its full
/// path and its raw hash, and so as many file entries as there are staged
/// paths.
pub proof fn lemma_tree_holds_files(staged: Seq<(Seq<u8>, Seq<u8>)>)
    ensures
        expand_files(staged, Seq::empty()).to_multiset() == leaves(staged).to_multiset(),
        expand_files(staged, Seq::empty()).len() == staged.len(),
{
    lemma_expand_files(staged, Seq::empty());
    lemma_leaves_all(staged);
    to_multiset_len(expand_files(staged, Seq::empty()));
    to_multiset_len(leaves(staged));
}

spec fn dirs_below(staged: Seq<(Seq<u8>, Seq<u8>)>, prefix: Seq<u8>, names: Seq<Seq<u8>>) -> Seq<
    Seq<u8>,
>
    decreases names.len(),
{
    if names.len() == 0 {
        Seq::empty()
    } else {
        dirs_below(staged, prefix, names.drop_last()).push(child(prefix, names.last()))
            + expand_dirs(staged, child(prefix, names.last()))
    }
}

spec fn dir_under(staged: Seq<(Seq<u8>, Seq<u8>)>, prefix: Seq<u8>, q: Seq<u8>) -> bool {
    is_dir_prefix(staged, q) && prefix.is_prefix_of(q) && q.len() > prefix.len()
}

spec fn leading(staged: Seq<(Seq<u8>, Seq<u8>)>, prefix: Seq<u8>, names: Seq<Seq<u8>>) -> bool {
    forall|k: int|
        0 <= k < names.len() ==> exists|i: int|
            0 <= i < staged.len() && child(prefix, #[trigger] names[k]).is_prefix_of(
                (#[trigger] staged[i]).0,
            )
}

proof fn lemma_dir_entries_concat(
    staged: Seq<(Seq<u8>, Seq<u8>)>,
    prefix: Seq<u8>,
    a: Seq<TreeEntry>,
    b: Seq<TreeEntry>,
)
    ensures
        expand_dir_entries(staged, prefix, a + b) == expand_dir_entries(staged, prefix, a)
            + expand_dir_entries(staged, prefix, b),
    decreases b.len(),
{
    if b.len() == 0 {
        assert(a + b =~= a);
        assert(expand_dir_entries(staged, prefix, a) + expand_dir_entries(staged, prefix, b)
            =~= expand_dir_entries(staged, prefix, a));
    } else {
        lemma_dir_entries_concat(staged, prefix, a, b.drop_last());
        assert((a + b).drop_last() =~= a + b.drop_last());
        assert((a + b).last() == b.last());
        assert(expand_dir_entries(staged, prefix, a + b) =~= expand_dir_entries(
            staged,
            prefix,
            a,
        ) + expand_dir_entries(staged, prefix, b));
    }
}

proof fn lemma_file_dirs(
    staged: Seq<(Seq<u8>, Seq<u8>)>,
    prefix: Seq<u8>,
    s: Seq<(Seq<u8>, Seq<u8>)>,
)
    ensures
        expand_dir_entries(staged, prefix, file_entries(s, prefix)) == Seq::<Seq<u8>>::empty(),
    decreases s.len(),
{
    if s.len() > 0 {
        lemma_file_dirs(staged, prefix, s.drop_last());
        let path = s.last().0;
        if is_file_at(path, prefix) {
            let before = file_entries(s.drop_last(), prefix);
            let e = TreeEntry {
                dir: false,
                name: rest_of(path, prefix),
                id: hex_bytes(s.last().1),
            };
            assert(file_entries(s, prefix) == before.push(e));
            assert(before.push(e).drop_last() =~= before);
        }
    }
}

proof fn lemma_dir_dirs(staged: Seq<(Seq<u8>, Seq<u8>)>, prefix: Seq<u8>, names: Seq<Seq<u8>>)
    requires
        fitting(staged, prefix, names),
    ensures
        expand_dir_entries(staged, prefix, dir_entries(staged, prefix, names)) == dirs_below(
            staged,
            prefix,
            names,
        ),
    decreases names.len(),
{
    if names.len() > 0 {
        assert forall|k: int| 0 <= k < names.drop_last().len() implies prefix.len() < child(
            prefix,
            #[trigger] names.drop_last()[k],
        ).len() <= longest(staged) by {
            assert(names.drop_last()[k] == names[k]);
        }
        lemma_dir_dirs(staged, prefix, names.drop_last());
        let before = dir_entries(staged, prefix, names.drop_last());
        let sub = child(prefix, names.last());
        assert(names.last() == names[names.len() - 1]);
        let e = TreeEntry {
            dir: true,
            name: names.last(),
            id: crate::codec::digest(crate::tree::tree_bytes(staged, sub)),
        };
        assert(dir_entries(staged, prefix, names) == before.push(e));
        assert(before.push(e).drop_last() =~= before);
    }
}

#[verifier::rlimit(40)]
proof fn lemma_dirs_below(
    staged: Seq<(Seq<u8>, Seq<u8>)>,
    prefix: Seq<u8>,
    names: Seq<Seq<u8>>,
    q: Seq<u8>,
)
    requires
        fitting(staged, prefix, names),
        slash_free(names),
        names.no_duplicates(),
        leading(staged, prefix, names),
    ensures
        dirs_below(staged, prefix, names).to_multiset().count(q) == (if is_dir_prefix(staged, q)
            && hits(q, prefix, names) {
            1nat
        } else {
            0nat
        }),
    decreases longest(staged) - prefix.len(), 0nat, names.len(),
{
    broadcast use vstd::multiset::group_multiset_axioms;

    if names.len() == 0 {
        let none = Seq::<Seq<u8>>::empty();
        to_multiset_len(none);
        assert(dirs_below(staged, prefix, names) == none);
        assert(none.to_multiset().count(q) == 0) by {
            vstd::multiset::axiom_count_le_len(none.to_multiset(), q);
        }
    } else {
        let dl = names.drop_last();
        let last = names.len() - 1;
        let c = child(prefix, names.last());
        assert(names.last() == names[last]);
        assert forall|k: int| 0 <= k < dl.len() implies prefix.len() < child(
            prefix,
            #[trigger] dl[k],
        ).len() <= longest(staged) && find(dl[k], SLASH) == dl[k].len() by {
            assert(dl[k] == names[k]);
        }
        assert(dl.no_duplicates()) by {
            assert forall|i: int, j: int|
                0 <= i < dl.len() && 0 <= j < dl.len() && i != j implies dl[i] != dl[j] by {
                assert(dl[i] == names[i] && dl[j] == names[j]);
            }
        }
        assert(leading(staged, prefix, dl)) by {
            assert forall|k: int| 0 <= k < dl.len() implies exists|i: int|
                0 <= i < staged.len() && child(prefix, #[trigger] dl[k]).is_prefix_of(
                    (#[trigger] staged[i]).0,
                ) by {
                assert(dl[k] == names[k]);
            }
        }
        lemma_dirs_below(staged, prefix, dl, q);
        lemma_expand_dirs(staged, c, q);
        let before = dirs_below(staged, prefix, dl);
        lemma_multiset_commutative(before.push(c), expand_dirs(staged, c));
        to_multiset_build(before, c);
        assert(dirs_below(staged, prefix, names).to_multiset().count(q) == before.to_multiset().count(
            q,
        ) + (if c == q {
            1nat
        } else {
            0nat
        }) + expand_dirs(staged, c).to_multiset().count(q));
        assert(c.subrange(0, c.len() as int) =~= c);
        if c.is_prefix_of(q) {
            assert(hits(q, prefix, names));
            if hits(q, prefix, dl) {
                let k = choose|k: int|
                    0 <= k < dl.len() && child(prefix, #[trigger] dl[k]).is_prefix_of(q);
                assert(dl[k] == names[k]);
                lemma_one_hit(q, prefix, names, k, last);
            }
            if q.len() == c.len() {
                assert(q =~= c);
                assert(c.last() == SLASH);
                assert(is_dir_prefix(staged, c));
            }
        } else {
            if hits(q, prefix, names) {
                let k = choose|k: int|
                    0 <= k < names.len() && child(prefix, #[trigger] names[k]).is_prefix_of(q);
                assert(k < last);
                assert(dl[k] == names[k]);
                assert(hits(q, prefix, dl));
            }
            if hits(q, prefix, dl) {
                let k = choose|k: int|
                    0 <= k < dl.len() && child(prefix, #[trigger] dl[k]).is_prefix_of(q);
                assert(dl[k] == names[k]);
                assert(hits(q, prefix, names));
            }
        }
    }
}

#[verifier::rlimit(40)]
proof fn lemma_expand_dirs(staged: Seq<(Seq<u8>, Seq<u8>)>, prefix: Seq<u8>, q: Seq<u8>)
    ensures
        expand_dirs(staged, prefix).to_multiset().count(q) == (if dir_under(staged, prefix, q) {
            1nat
        } else {
            0nat
        }),
    decreases longest(staged) - prefix.len(), 1nat, 0nat,
{
    let names = subdirs(staged, prefix);
    lemma_dir_entries_concat(
        staged,
        prefix,
        file_entries(staged, prefix),
        dir_entries(staged, prefix, names),
    );
    lemma_file_dirs(staged, prefix, staged);
    assert(fitting(staged, prefix, names) && slash_free(names)) by {
        assert forall|k: int| 0 <= k < names.len() implies prefix.len() < child(
            prefix,
            #[trigger] names[k],
        ).len() <= longest(staged) && find(names[k], SLASH) == names[k].len() by {
            lemma_subdir_fits(staged, prefix, k);
        }
    }
    assert(leading(staged, prefix, names)) by {
        assert forall|k: int| 0 <= k < names.len() implies exists|i: int|
            0 <= i < staged.len() && child(prefix, #[trigger] names[k]).is_prefix_of(
                (#[trigger] staged[i]).0,
            ) by {
            crate::tree::lemma_subdirs_sound(staged, prefix, k);
            let i = choose|i: int|
                0 <= i < staged.len() && is_below((#[trigger] staged[i]).0, prefix) && segment(
                    staged[i].0,
                    prefix,
                ) == names[k];
            lemma_child_prefix(staged[i].0, prefix);
        }
    }
    lemma_dir_dirs(staged, prefix, names);
    lemma_subdirs_distinct(staged, prefix);
    lemma_dirs_below(staged, prefix, names, q);
    assert(Seq::<Seq<u8>>::empty() + dirs_below(staged, prefix, names) =~= dirs_below(
        staged,
        prefix,
        names,
    ));
    if is_dir_prefix(staged, q) && hits(q, prefix, names) {
        let k = choose|k: int|
            0 <= k < names.len() && child(prefix, #[trigger] names[k]).is_prefix_of(q);
        lemma_child_under(prefix, names[k]);
        lemma_prefix_transitive(prefix, child(prefix, names[k]), q);
    }
    if dir_under(staged, prefix, q) {
        let rest = rest_of(q, prefix);
        lemma_find(rest, SLASH);
        assert(rest.last() == q.last());
        assert(is_below(q, prefix));
        let name = segment(q, prefix);
        lemma_child_prefix(q, prefix);
        let i = choose|i: int| 0 <= i < staged.len() && q.is_prefix_of((#[trigger] staged[i]).0);
        lemma_prefix_transitive(child(prefix, name), q, staged[i].0);
        lemma_under_child(staged[i].0, prefix, name);
        lemma_subdirs_complete(staged, prefix, i);
        let k = choose|k: int| 0 <= k < names.len() && names[k] == name;
        assert(child(prefix, names[k]).is_prefix_of(q));
        assert(hits(q, prefix, names));
    }
}

/// Tree completeness, directories. The root tree, expanded through its
/// subdirectory entries, holds exactly one subdirectory entry for each
/// directory on the way to a staged file, and none for anything else.
pub proof fn lemma_tree_holds_dirs(staged: Seq<(Seq<u8>, Seq<u8>)>, q: Seq<u8>)
    ensures
        expand_dirs(staged, Seq::empty()).to_multiset().count(q) == (if is_dir_prefix(staged, q) {
            1nat
        } else {
            0nat
        }),
{
    lemma_expand_dirs(staged, Seq::empty(), q);
    assert(Seq::<u8>::empty() =~= q.subrange(0, 0));
}

} // verus!
