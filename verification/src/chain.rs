//! What holds of a chain of commits: a commit is read back as it was
//! built, and a walk from the head meets every commit once.

use crate::bytes::{is_blank, lacks, lemma_find_at, trim_end, trim_start, NEWLINE};
use crate::codec::{
    digest, encoded, lemma_content_addressing, lemma_decode_encode, lemma_encoded_injective,
    lemma_object_id, object_id, ObjectKind,
};
use crate::error::Error;
use crate::commit::{
    author_tag, commit_at, commit_bytes, commit_content, commit_failure, commit_id, committed,
    committer_tag,
    history, parent_line, parent_of, parent_tag, parsed_commit, scan, tree_tag,
    with_header_line, CommitView, Fields, LogView,
};
use crate::store::{lemma_save_keeps, lemma_submap_transitive, loaded, saved};
use crate::tree::{lemma_tree_succeeds, lemma_with_tree_grows, tree_id, tree_valid, with_tree};
use vstd::prelude::*;

verus! {

/// What one commit of a series is made from: the staging table, the
/// signature line and the message.
pub struct CommitInput {
    pub staged: Seq<(Seq<u8>, Seq<u8>)>,
    pub who: Seq<u8>,
    pub message: Seq<u8>,
}

/// The store and the head after a series of commits, each on top of the
/// head that the one before it left.
pub open spec fn after_commits(
    m: Map<Seq<u8>, Option<Seq<u8>>>,
    head: Seq<u8>,
    inputs: Seq<CommitInput>,
) -> (Map<Seq<u8>, Option<Seq<u8>>>, Seq<u8>)
    decreases inputs.len(),
{
    if inputs.len() == 0 {
        (m, head)
    } else {
        let before = after_commits(m, head, inputs.drop_last());
        let x = inputs.last();
        (
            committed(before.0, x.staged, before.1, x.who, x.message),
            commit_id(x.staged, before.1, x.who, x.message),
        )
    }
}

/// The hash of a commit is free in the store, or the store holds that
/// very commit under it: no other object has taken the hash.
pub open spec fn not_taken(
    m: Map<Seq<u8>, Option<Seq<u8>>>,
    staged: Seq<(Seq<u8>, Seq<u8>)>,
    head: Seq<u8>,
    who: Seq<u8>,
    message: Seq<u8>,
) -> bool {
    let id = commit_id(staged, head, who, message);
    let with_trees = with_tree(m, staged, Seq::empty());
    with_trees.contains_key(id) ==> with_trees[id] == Some(
        commit_bytes(staged, head, who, message),
    )
}

/// No commit of the series found its hash taken by another object when it
/// was saved.
pub open spec fn none_taken(
    m: Map<Seq<u8>, Option<Seq<u8>>>,
    head: Seq<u8>,
    inputs: Seq<CommitInput>,
) -> bool
    decreases inputs.len(),
{
    inputs.len() == 0 || {
        let before = after_commits(m, head, inputs.drop_last());
        let x = inputs.last();
        &&& none_taken(m, head, inputs.drop_last())
        &&& not_taken(before.0, x.staged, before.1, x.who, x.message)
    }
}

/// Each commit but the last names the next as its parent, and the last
/// names none.
pub open spec fn chained(entries: Seq<LogView>) -> bool {
    &&& forall|i: int|
        0 <= i < entries.len() - 1 ==> (#[trigger] entries[i]).commit.parent == Some(
            entries[i + 1].hash,
        )
    &&& entries.len() > 0 ==> entries.last().commit.parent is None
}

/// The bytes of the four tags.
proof fn lemma_tags()
    ensures
        tree_tag() == seq![116u8, 114, 101, 101, 32],
        parent_tag() == seq![112u8, 97, 114, 101, 110, 116, 32],
        author_tag() == seq![97u8, 117, 116, 104, 111, 114, 32],
        committer_tag() == seq![99u8, 111, 109, 109, 105, 116, 116, 101, 114, 32],
{
    reveal_strlit("tree ");
    reveal_strlit("parent ");
    reveal_strlit("author ");
    reveal_strlit("committer ");
    assert(tree_tag() =~= seq![116u8, 114, 101, 101, 32]);
    assert(parent_tag() =~= seq![112u8, 97, 114, 101, 110, 116, 32]);
    assert(author_tag() =~= seq![97u8, 117, 116, 104, 111, 114, 32]);
    assert(committer_tag() =~= seq![99u8, 111, 109, 109, 105, 116, 116, 101, 114, 32]);
}

proof fn lemma_not_prefix(tag: Seq<u8>, line: Seq<u8>)
    requires
        tag.len() > 0,
        line.len() > 0,
        tag[0] != line[0],
    ensures
        !tag.is_prefix_of(line),
{
    if tag.is_prefix_of(line) {
        assert(line.subrange(0, tag.len() as int)[0] == line[0]);
    }
}

proof fn lemma_scan_line(line: Seq<u8>, rest: Seq<u8>, f: Fields)
    requires
        lacks(line, NEWLINE),
        line.len() > 0,
    ensures
        scan(line + seq![NEWLINE] + rest, f) == scan(rest, with_header_line(f, line)),
{
    let s = line + seq![NEWLINE] + rest;
    assert forall|j: int| 0 <= j < line.len() implies s[j] != NEWLINE by {
        assert(s[j] == line[j]);
    }
    assert(s[line.len() as int] == NEWLINE);
    lemma_find_at(s, NEWLINE, line.len() as int);
    assert(s.take(line.len() as int) =~= line);
    assert(s.skip(line.len() as int + 1) =~= rest);
}

proof fn lemma_tagged(tag: Seq<u8>, value: Seq<u8>)
    requires
        lacks(tag, NEWLINE),
        lacks(value, NEWLINE),
    ensures
        lacks(tag + value, NEWLINE),
        tag.is_prefix_of(tag + value),
        (tag + value).skip(tag.len() as int) == value,
{
    let line = tag + value;
    assert forall|j: int| 0 <= j < line.len() implies line[j] != NEWLINE by {
        if j < tag.len() {
            assert(line[j] == tag[j]);
        } else {
            assert(line[j] == value[j - tag.len()]);
        }
    }
    assert(line.subrange(0, tag.len() as int) =~= tag);
    assert(line.skip(tag.len() as int) =~= value);
}

proof fn lemma_tree_line(f: Fields, tree: Seq<u8>)
    ensures
        with_header_line(f, tree_tag() + tree) == (Fields { tree: Some(tree), ..f }),
        (tree_tag() + tree).len() > 0,
        lacks(tree_tag(), NEWLINE),
{
    lemma_tags();
    let line = tree_tag() + tree;
    assert(line.subrange(0, tree_tag().len() as int) =~= tree_tag());
    assert(line.skip(tree_tag().len() as int) =~= tree);
}

proof fn lemma_parent_line(f: Fields, parent: Seq<u8>)
    ensures
        with_header_line(f, parent_tag() + parent) == (Fields { parent: Some(parent), ..f }),
        (parent_tag() + parent).len() > 0,
        lacks(parent_tag(), NEWLINE),
{
    lemma_tags();
    let line = parent_tag() + parent;
    lemma_not_prefix(tree_tag(), line);
    assert(line.subrange(0, parent_tag().len() as int) =~= parent_tag());
    assert(line.skip(parent_tag().len() as int) =~= parent);
}

proof fn lemma_author_line(f: Fields, who: Seq<u8>)
    ensures
        with_header_line(f, author_tag() + who) == (Fields { author: Some(who), ..f }),
        (author_tag() + who).len() > 0,
        lacks(author_tag(), NEWLINE),
{
    lemma_tags();
    let line = author_tag() + who;
    lemma_not_prefix(tree_tag(), line);
    lemma_not_prefix(parent_tag(), line);
    assert(line.subrange(0, author_tag().len() as int) =~= author_tag());
    assert(line.skip(author_tag().len() as int) =~= who);
}

proof fn lemma_committer_line(f: Fields, who: Seq<u8>)
    ensures
        with_header_line(f, committer_tag() + who) == f,
        (committer_tag() + who).len() > 0,
        lacks(committer_tag(), NEWLINE),
{
    lemma_tags();
    let line = committer_tag() + who;
    lemma_not_prefix(tree_tag(), line);
    lemma_not_prefix(parent_tag(), line);
    lemma_not_prefix(author_tag(), line);
}

proof fn lemma_scan_tagged(tag: Seq<u8>, value: Seq<u8>, rest: Seq<u8>, f: Fields)
    requires
        lacks(tag, NEWLINE),
        lacks(value, NEWLINE),
        (tag + value).len() > 0,
    ensures
        scan(tag + value + seq![NEWLINE] + rest, f) == scan(
            rest,
            with_header_line(f, tag + value),
        ),
{
    lemma_tagged(tag, value);
    lemma_scan_line(tag + value, rest, f);
}

proof fn lemma_scan_message(message: Seq<u8>, f: Fields)
    ensures
        scan(seq![NEWLINE] + message, f) == match (f.tree, f.author) {
            (Some(tree), Some(author)) => Some(
                CommitView { tree, parent: f.parent, author, message },
            ),
            _ => None,
        },
{
    let r = seq![NEWLINE] + message;
    assert(r[0] == NEWLINE);
    lemma_find_at(r, NEWLINE, 0);
    assert(r.skip(1) =~= message);
}

/// A commit is read back as it was built: from content built of a tree, a
/// parent, a signature line and a message, the same four are read,
/// provided that the first three hold no line feed.
#[verifier::rlimit(40)]
pub proof fn lemma_parse_built(
    tree: Seq<u8>,
    parent: Option<Seq<u8>>,
    who: Seq<u8>,
    message: Seq<u8>,
)
    requires
        lacks(tree, NEWLINE),
        parent matches Some(p) ==> lacks(p, NEWLINE),
        lacks(who, NEWLINE),
    ensures
        parsed_commit(commit_content(tree, parent, who, message)) == Some(
            CommitView { tree, parent, author: who, message },
        ),
{
    let f0 = Fields { tree: None, parent: None, author: None };
    let f1 = Fields { tree: Some(tree), parent: None, author: None };
    let f2 = Fields { tree: Some(tree), parent, author: None };
    let f3 = Fields { tree: Some(tree), parent, author: Some(who) };
    let r4 = seq![NEWLINE] + message;
    let r3 = committer_tag() + who + seq![NEWLINE] + r4;
    let r2 = author_tag() + who + seq![NEWLINE] + r3;
    let r1 = parent_line(parent) + r2;
    let r0 = tree_tag() + tree + seq![NEWLINE] + r1;
    assert(commit_content(tree, parent, who, message) =~= r0);
    lemma_tree_line(f0, tree);
    lemma_scan_tagged(tree_tag(), tree, r1, f0);
    assert(scan(r0, f0) == scan(r1, f1));
    assert(scan(r1, f1) == scan(r2, f2)) by {
        match parent {
            Some(p) => {
                assert(r1 =~= parent_tag() + p + seq![NEWLINE] + r2);
                lemma_parent_line(f1, p);
                lemma_scan_tagged(parent_tag(), p, r2, f1);
            },
            None => {
                assert(r1 =~= r2);
            },
        }
    }
    lemma_author_line(f2, who);
    lemma_scan_tagged(author_tag(), who, r3, f2);
    assert(scan(r2, f2) == scan(r3, f3));
    lemma_committer_line(f3, who);
    lemma_scan_tagged(committer_tag(), who, r4, f3);
    assert(scan(r3, f3) == scan(r4, f3));
    lemma_scan_message(message, f3);
}

/// Where the encoder fails on nothing, a commit stops over nothing but a
/// staged hash that is not hex.
pub proof fn lemma_commit_succeeds(
    m: Map<Seq<u8>, Option<Seq<u8>>>,
    staged: Seq<(Seq<u8>, Seq<u8>)>,
    head: Seq<u8>,
    who: Seq<u8>,
    message: Seq<u8>,
)
    ensures
        tree_valid(staged, Seq::empty()) && (forall|d: Seq<u8>|
            (#[trigger] crate::store::deflated(d)) is Some) ==> commit_failure(
            m,
            staged,
            head,
            who,
            message,
        ) is None,
{
    lemma_tree_succeeds(m, staged, Seq::empty());
}

/// A commit on top of a head is another object than the first commit of
/// the same table by the same hand: the two differ in the parent line, so
/// their store bytes differ, and their hashes are the same only where
/// their SHA-256 digests are.
pub proof fn lemma_parent_line_tells(
    staged: Seq<(Seq<u8>, Seq<u8>)>,
    head: Seq<u8>,
    who: Seq<u8>,
    message: Seq<u8>,
)
    requires
        parent_of(head) is Some,
    ensures
        commit_bytes(staged, head, who, message) != commit_bytes(
            staged,
            Seq::empty(),
            who,
            message,
        ),
        commit_id(staged, head, who, message) == commit_id(staged, Seq::empty(), who, message)
            <==> digest(commit_bytes(staged, head, who, message)) == digest(
            commit_bytes(staged, Seq::empty(), who, message),
        ),
{
    lemma_tags();
    let root = Seq::<u8>::empty();
    let tree = tree_id(staged, root);
    assert(trim_start(root) == root);
    assert(trim_end(root) == root);
    assert(parent_of(root) is None);
    let p = parent_of(head)->0;
    let first = commit_content(tree, None, who, message);
    let later = commit_content(tree, Some(p), who, message);
    let t = tree_tag() + tree + seq![NEWLINE];
    let r = author_tag() + who + seq![NEWLINE] + committer_tag() + who + seq![NEWLINE]
        + seq![NEWLINE] + message;
    assert(first =~= t + r);
    assert(later =~= t + (parent_tag() + p + seq![NEWLINE]) + r);
    assert(first[t.len() as int] == author_tag()[0]);
    assert(later[t.len() as int] == parent_tag()[0]);
    assert(first != later);
    if encoded(ObjectKind::Commit, first) == encoded(ObjectKind::Commit, later) {
        lemma_encoded_injective(ObjectKind::Commit, first, ObjectKind::Commit, later);
    }
    lemma_content_addressing(ObjectKind::Commit, later, ObjectKind::Commit, first);
}

/// A hash holds no blank byte and no line feed, so that a head pointer
/// that holds a hash names that hash as the parent.
pub proof fn lemma_head_is_parent(store: Seq<u8>)
    ensures
        lacks(object_id(store), NEWLINE),
        parent_of(object_id(store)) == Some(object_id(store)),
{
    let id = object_id(store);
    lemma_object_id(store);
    assert(!is_blank(id[0]));
    assert(!is_blank(id[63]));
    assert(trim_start(id) == id);
    assert(id.last() == id[63]);
    assert(trim_end(id) == id);
}

/// A walk that ended without failure ends the same way in a store that
/// grew out of the one it was made in.
pub proof fn lemma_history_grows(
    m: Map<Seq<u8>, Option<Seq<u8>>>,
    grown: Map<Seq<u8>, Option<Seq<u8>>>,
    hash: Seq<u8>,
    limit: nat,
)
    requires
        m.submap_of(grown),
        history(m, hash, limit).1 is None,
    ensures
        history(grown, hash, limit) == history(m, hash, limit),
    decreases limit,
{
    if limit > 0 {
        if m.dom().contains(hash) {
            assert(grown.dom().contains(hash) && grown[hash] == m[hash]);
            assert(commit_at(grown, hash) == commit_at(m, hash));
            match commit_at(m, hash) {
                Ok(c) => match c.parent {
                    Some(p) => {
                        lemma_history_grows(m, grown, p, (limit - 1) as nat);
                    },
                    None => {},
                },
                Err(_) => {},
            }
        }
    }
}

/// A walk that ended without failure ends the same way under a larger
/// limit.
pub proof fn lemma_history_limit(
    m: Map<Seq<u8>, Option<Seq<u8>>>,
    hash: Seq<u8>,
    limit: nat,
    larger: nat,
)
    requires
        limit <= larger,
        history(m, hash, limit).1 is None,
    ensures
        history(m, hash, larger) == history(m, hash, limit),
    decreases limit,
{
    if limit > 0 {
        match commit_at(m, hash) {
            Ok(c) => match c.parent {
                Some(p) => {
                    lemma_history_limit(m, p, (limit - 1) as nat, (larger - 1) as nat);
                },
                None => {},
            },
            Err(_) => {},
        }
    }
}

/// One link of the chain. A commit whose hash no other object had taken
/// is met first on the walk from it, says what it was built from, and is
/// followed by the walk from the head that it was put on, where that walk
/// ended without failure.
#[verifier::rlimit(40)]
pub proof fn lemma_commit_extends(
    m: Map<Seq<u8>, Option<Seq<u8>>>,
    staged: Seq<(Seq<u8>, Seq<u8>)>,
    head: Seq<u8>,
    who: Seq<u8>,
    message: Seq<u8>,
    limit: nat,
)
    requires
        lacks(who, NEWLINE),
        parent_of(head) matches Some(p) ==> lacks(p, NEWLINE) && history(m, p, limit).1 is None,
        not_taken(m, staged, head, who, message),
    ensures
        ({
            let here = LogView {
                hash: commit_id(staged, head, who, message),
                commit: CommitView {
                    tree: tree_id(staged, Seq::empty()),
                    parent: parent_of(head),
                    author: who,
                    message,
                },
            };
            history(
                committed(m, staged, head, who, message),
                commit_id(staged, head, who, message),
                limit + 1,
            ) == match parent_of(head) {
                Some(p) => (seq![here] + history(m, p, limit).0, None::<Error>),
                None => (seq![here], None::<Error>),
            }
        }),
{
    let root = Seq::<u8>::empty();
    let tree = tree_id(staged, root);
    let content = commit_content(tree, parent_of(head), who, message);
    let bytes = commit_bytes(staged, head, who, message);
    let id = commit_id(staged, head, who, message);
    let with_trees = with_tree(m, staged, root);
    let grown = committed(m, staged, head, who, message);
    lemma_object_id(crate::tree::tree_bytes(staged, root));
    assert(lacks(tree, NEWLINE));
    lemma_parse_built(tree, parent_of(head), who, message);
    lemma_decode_encode(ObjectKind::Commit, content);
    assert(grown[id] == Some(bytes));
    assert(loaded(grown, id) == Ok::<Seq<u8>, Error>(bytes));
    lemma_with_tree_grows(m, staged, root);
    lemma_save_keeps(with_trees, id, bytes);
    lemma_submap_transitive(m, with_trees, grown);
    match parent_of(head) {
        Some(p) => {
            lemma_history_grows(m, grown, p, limit);
        },
        None => {},
    }
}

/// Commit chaining. After a series of commits that starts with no head,
/// none of which found its hash taken by another object and each with a
/// signature line that holds no line feed, the walk from the head that the
/// last commit left meets exactly as many commits as were made, under any
/// limit that allows as many: it starts at the head, each commit names the
/// one before it in the series as its parent, and the first of the series
/// names none.
#[verifier::rlimit(40)]
pub proof fn lemma_commit_chain(
    m: Map<Seq<u8>, Option<Seq<u8>>>,
    inputs: Seq<CommitInput>,
    limit: nat,
)
    requires
        inputs.len() >= 1,
        limit >= inputs.len(),
        forall|i: int| 0 <= i < inputs.len() ==> lacks((#[trigger] inputs[i]).who, NEWLINE),
        none_taken(m, Seq::empty(), inputs),
    ensures
        ({
            let after = after_commits(m, Seq::empty(), inputs);
            let walk = history(after.0, after.1, limit);
            &&& walk.1 is None
            &&& walk.0.len() == inputs.len()
            &&& walk.0[0].hash == after.1
            &&& chained(walk.0)
        }),
    decreases inputs.len(),
{
    let root = Seq::<u8>::empty();
    let x = inputs.last();
    let earlier = inputs.drop_last();
    let before = after_commits(m, root, earlier);
    let after = after_commits(m, root, inputs);
    let n = earlier.len();
    if n == 0 {
        assert(trim_start(root) == root);
        assert(trim_end(root) == root);
        assert(parent_of(root) is None);
        lemma_commit_extends(m, x.staged, root, x.who, x.message, 0);
    } else {
        assert forall|i: int| 0 <= i < earlier.len() implies lacks(
            (#[trigger] earlier[i]).who,
            NEWLINE,
        ) by {
            assert(earlier[i] == inputs[i]);
        }
        lemma_commit_chain(m, earlier, n);
        let y = earlier.last();
        let earlier_before = after_commits(m, root, earlier.drop_last());
        lemma_head_is_parent(commit_bytes(y.staged, earlier_before.1, y.who, y.message));
        assert(parent_of(before.1) == Some(before.1));
        lemma_commit_extends(before.0, x.staged, before.1, x.who, x.message, n);
        let walk = history(after.0, after.1, n + 1);
        let tail = history(before.0, before.1, n).0;
        assert(walk.0 =~= seq![walk.0[0]] + tail);
        assert forall|i: int| 0 <= i < walk.0.len() - 1 implies (#[trigger] walk.0[i]).commit.parent
            == Some(walk.0[i + 1].hash) by {
            if i > 0 {
                assert(walk.0[i] == tail[i - 1]);
                assert(walk.0[i + 1] == tail[i]);
            } else {
                assert(walk.0[1] == tail[0]);
            }
        }
        assert(walk.0.last() == tail.last());
    }
    lemma_history_limit(after.0, after.1, inputs.len(), limit);
}

} // verus!
