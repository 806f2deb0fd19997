//! Commits: building one on top of the current head, reading one back, and
//! walking the chain of parents.
//!
//! The content of a commit is text: a `tree` line, a `parent` line unless
//! it is the first commit, an `author` and a `committer` line, a blank
//! line, and the message.

use crate::bytes::{
    ascii, ascii_bytes, copy_range, decimal, decimal_bytes, extend, find, find_byte, lemma_find,
    opt_view, push_text, starts_with, trim, trimmed, NEWLINE, SPACE,
};
use crate::codec::{decode, decoded, encode, encoded, hash, object_id, ObjectKind};
use crate::error::Error;
use crate::index::Index;
use crate::store::{
    lemma_order_transitive, lemma_submap_transitive, load_object, loaded, save_fails,
    save_object, saved, ObjectStore,
};
use crate::tree::{create_tree_recur, tree_failure, tree_id, tree_valid, with_tree};
use vstd::prelude::*;

verus! {

/// Who made a commit, and when.
pub struct Signature {
    pub name: Vec<u8>,
    pub timestamp: u64,
    pub offset: Vec<u8>,
}

/// What a commit says.
pub struct CommitInfo {
    pub tree: Vec<u8>,
    pub parent: Option<Vec<u8>>,
    pub author: Vec<u8>,
    pub message: Vec<u8>,
}

/// One commit met on a walk: its hash and what it says.
pub struct LogEntry {
    pub hash: Vec<u8>,
    pub commit: CommitInfo,
}

/// What a commit says, as byte strings.
pub struct CommitView {
    pub tree: Seq<u8>,
    pub parent: Option<Seq<u8>>,
    pub author: Seq<u8>,
    pub message: Seq<u8>,
}

/// One commit met on a walk, as byte strings.
pub struct LogView {
    pub hash: Seq<u8>,
    pub commit: CommitView,
}

/// The metadata found so far while the header lines of a commit are read.
pub struct Fields {
    pub tree: Option<Seq<u8>>,
    pub parent: Option<Seq<u8>>,
    pub author: Option<Seq<u8>>,
}

impl View for CommitInfo {
    type V = CommitView;

    open spec fn view(&self) -> CommitView {
        CommitView {
            tree: self.tree@,
            parent: opt_view(self.parent),
            author: self.author@,
            message: self.message@,
        }
    }
}

impl View for LogEntry {
    type V = LogView;

    open spec fn view(&self) -> LogView {
        LogView { hash: self.hash@, commit: self.commit@ }
    }
}

impl Signature {
    /// What stands behind `author` and `committer`: name, timestamp in
    /// decimal, and offset, with a space between them.
    pub open spec fn line(&self) -> Seq<u8> {
        self.name@ + seq![SPACE] + decimal(self.timestamp as nat) + seq![SPACE] + self.offset@
    }

    /// The bytes of `line`.
    pub fn line_bytes(&self) -> (line: Vec<u8>)
        ensures
            line@ == self.line(),
    {
        let mut line: Vec<u8> = Vec::new();
        extend(&mut line, self.name.as_slice());
        line.push(SPACE);
        let digits = decimal_bytes(self.timestamp);
        extend(&mut line, digits.as_slice());
        line.push(SPACE);
        extend(&mut line, self.offset.as_slice());
        assert(line@ =~= self.line());
        line
    }
}

/// How the line that names the tree begins.
pub open spec fn tree_tag() -> Seq<u8> {
    ascii("tree "@)
}

/// How the line that names the parent begins.
pub open spec fn parent_tag() -> Seq<u8> {
    ascii("parent "@)
}

/// How the line that names the author begins.
pub open spec fn author_tag() -> Seq<u8> {
    ascii("author "@)
}

/// How the line that names the committer begins.
pub open spec fn committer_tag() -> Seq<u8> {
    ascii("committer "@)
}

/// The views of the entries of a walk.
pub open spec fn log_views(entries: Seq<LogEntry>) -> Seq<LogView> {
    entries.map_values(|e: LogEntry| e@)
}

/// The parent that a head pointer names: what is left of it without the
/// blank bytes around it, or none where nothing is left.
pub open spec fn parent_of(head: Seq<u8>) -> Option<Seq<u8>> {
    if trimmed(head).len() == 0 {
        None
    } else {
        Some(trimmed(head))
    }
}

/// The line that names the parent, or nothing for a first commit.
pub open spec fn parent_line(parent: Option<Seq<u8>>) -> Seq<u8> {
    match parent {
        Some(p) => parent_tag() + p + seq![NEWLINE],
        None => Seq::empty(),
    }
}

/// The content of a commit.
pub open spec fn commit_content(
    tree: Seq<u8>,
    parent: Option<Seq<u8>>,
    who: Seq<u8>,
    message: Seq<u8>,
) -> Seq<u8> {
    tree_tag() + tree + seq![NEWLINE] + parent_line(parent) + author_tag() + who + seq![NEWLINE]
        + committer_tag() + who + seq![NEWLINE] + seq![NEWLINE] + message
}

/// The store bytes of the commit of a staging table on top of `head`.
pub open spec fn commit_bytes(
    staged: Seq<(Seq<u8>, Seq<u8>)>,
    head: Seq<u8>,
    who: Seq<u8>,
    message: Seq<u8>,
) -> Seq<u8> {
    encoded(
        ObjectKind::Commit,
        commit_content(tree_id(staged, Seq::empty()), parent_of(head), who, message),
    )
}

/// The hash of the commit of a staging table on top of `head`: the head
/// after the commit.
pub open spec fn commit_id(
    staged: Seq<(Seq<u8>, Seq<u8>)>,
    head: Seq<u8>,
    who: Seq<u8>,
    message: Seq<u8>,
) -> Seq<u8> {
    object_id(commit_bytes(staged, head, who, message))
}

/// The store after a commit: with the trees of the staging table, then
/// with the commit.
pub open spec fn committed(
    m: Map<Seq<u8>, Option<Seq<u8>>>,
    staged: Seq<(Seq<u8>, Seq<u8>)>,
    head: Seq<u8>,
    who: Seq<u8>,
    message: Seq<u8>,
) -> Map<Seq<u8>, Option<Seq<u8>>> {
    saved(
        with_tree(m, staged, Seq::empty()),
        commit_id(staged, head, who, message),
        commit_bytes(staged, head, who, message),
    )
}

/// Why a commit stops, if it does: over what stops the work on the root
/// tree, else over the save of the commit itself.
pub open spec fn commit_failure(
    m: Map<Seq<u8>, Option<Seq<u8>>>,
    staged: Seq<(Seq<u8>, Seq<u8>)>,
    head: Seq<u8>,
    who: Seq<u8>,
    message: Seq<u8>,
) -> Option<Error> {
    match tree_failure(m, staged, Seq::empty()) {
        Some(e) => Some(e),
        None => if save_fails(
            with_tree(m, staged, Seq::empty()),
            commit_id(staged, head, who, message),
            commit_bytes(staged, head, who, message),
        ) {
            Some(Error::IOFailure)
        } else {
            None
        },
    }
}

/// The metadata after one more header line. A line is told by how it
/// begins; a line that begins otherwise adds nothing.
pub open spec fn with_header_line(f: Fields, line: Seq<u8>) -> Fields {
    if tree_tag().is_prefix_of(line) {
        Fields { tree: Some(line.skip(tree_tag().len() as int)), ..f }
    } else if parent_tag().is_prefix_of(line) {
        Fields { parent: Some(line.skip(parent_tag().len() as int)), ..f }
    } else if author_tag().is_prefix_of(line) {
        Fields { author: Some(line.skip(author_tag().len() as int)), ..f }
    } else {
        f
    }
}

/// What the content of a commit says, read from `content` on with `f`
/// found so far. The header lines end at the first blank line; the
/// message is everything after it. Content without a blank line, or
/// without a `tree` or an `author` line before it, says nothing.
pub open spec fn scan(content: Seq<u8>, f: Fields) -> Option<CommitView>
    decreases content.len(),
{
    let n = find(content, NEWLINE);
    if n >= content.len() {
        None
    } else if n == 0 {
        match (f.tree, f.author) {
            (Some(tree), Some(author)) => Some(
                CommitView { tree, parent: f.parent, author, message: content.skip(1) },
            ),
            _ => None,
        }
    } else {
        proof {
            lemma_find(content, NEWLINE);
        }
        scan(content.skip(n + 1), with_header_line(f, content.take(n)))
    }
}

/// What the content of a commit says.
pub open spec fn parsed_commit(content: Seq<u8>) -> Option<CommitView> {
    scan(content, Fields { tree: None, parent: None, author: None })
}

/// The commit under a hash, or why there is none to be read.
pub open spec fn commit_at(m: Map<Seq<u8>, Option<Seq<u8>>>, hash: Seq<u8>) -> Result<
    CommitView,
    Error,
> {
    match loaded(m, hash) {
        Err(e) => Err(e),
        Ok(store) => match decoded(store) {
            None => Err(Error::CorruptObject),
            Some(parts) => match parsed_commit(parts.1) {
                None => Err(Error::MalformedMetadata),
                Some(c) => Ok(c),
            },
        },
    }
}

/// The walk from `hash` along the parents, over at most `limit` commits:
/// the commits met, the newest first, and the failure that ended the walk
/// if one did. A chain that goes on after `limit` commits ends the walk
/// with `MalformedMetadata`.
pub open spec fn history(m: Map<Seq<u8>, Option<Seq<u8>>>, hash: Seq<u8>, limit: nat) -> (
    Seq<LogView>,
    Option<Error>,
)
    decreases limit,
{
    if limit == 0 {
        (Seq::empty(), Some(Error::MalformedMetadata))
    } else {
        match commit_at(m, hash) {
            Err(e) => (Seq::empty(), Some(e)),
            Ok(c) => match c.parent {
                None => (seq![LogView { hash, commit: c }], None),
                Some(p) => {
                    let rest = history(m, p, (limit - 1) as nat);
                    (seq![LogView { hash, commit: c }] + rest.0, rest.1)
                },
            },
        }
    }
}

/// Builds the content of a commit.
#[verifier::rlimit(40)]
pub fn build_commit(tree_hex: &[u8], parent: Option<&[u8]>, who: &Signature, message: &[u8]) -> (content:
    Vec<u8>)
    ensures
        content@ == commit_content(
            tree_hex@,
            match parent {
                Some(p) => Some(p@),
                None => None,
            },
            who.line(),
            message@,
        ),
{
    proof {
        reveal_strlit("tree ");
        reveal_strlit("parent ");
        reveal_strlit("author ");
        reveal_strlit("committer ");
    }
    let mut content: Vec<u8> = Vec::new();
    push_text(&mut content, "tree ");
    extend(&mut content, tree_hex);
    content.push(NEWLINE);
    match parent {
        Some(p) => {
            push_text(&mut content, "parent ");
            extend(&mut content, p);
            content.push(NEWLINE);
        },
        None => {},
    }
    let line = who.line_bytes();
    push_text(&mut content, "author ");
    extend(&mut content, line.as_slice());
    content.push(NEWLINE);
    push_text(&mut content, "committer ");
    extend(&mut content, line.as_slice());
    content.push(NEWLINE);
    content.push(NEWLINE);
    extend(&mut content, message);
    assert(content@ =~= commit_content(
        tree_hex@,
        match parent {
            Some(p) => Some(p@),
            None => None,
        },
        who.line(),
        message@,
    ));
    content
}

/// Commits the staging table on top of `head`: saves its trees and a
/// commit that names the root tree and, unless `head` is blank, `head` as
/// its parent. Returns the hash of the commit, which is the new head. An
/// empty staging table is committed like any other.
pub fn commit(
    objects: &mut ObjectStore,
    head: &[u8],
    files: &Index,
    who: &Signature,
    message: &[u8],
) -> (r: Result<Vec<u8>, Error>)
    requires
        old(objects).wf(),
    ensures
        final(objects).wf(),
        old(objects)@.submap_of(final(objects)@),
        old(objects).order().is_prefix_of(final(objects).order()),
        !tree_valid(files@, Seq::empty()) ==> r is Err,
        r == Err::<Vec<u8>, Error>(Error::InvalidHash) ==> !tree_valid(files@, Seq::empty()),
        match r {
            Ok(id) => {
                &&& commit_failure(old(objects)@, files@, head@, who.line(), message@) is None
                &&& id@ == commit_id(files@, head@, who.line(), message@)
                &&& final(objects)@ == committed(
                    old(objects)@,
                    files@,
                    head@,
                    who.line(),
                    message@,
                )
            },
            Err(e) => commit_failure(old(objects)@, files@, head@, who.line(), message@) == Some(
                e,
            ),
        },
{
    let root: Vec<u8> = Vec::new();
    assert(root@ =~= Seq::<u8>::empty());
    let tree = match create_tree_recur(objects, files, root.as_slice()) {
        Ok(tree) => tree,
        Err(e) => {
            return Err(e);
        },
    };
    let ghost with_trees = objects@;
    let ghost order_with_trees = objects.order();
    let parent = trim(head);
    let content = if parent.len() == 0 {
        build_commit(tree.as_slice(), None, who, message)
    } else {
        build_commit(tree.as_slice(), Some(parent), who, message)
    };
    let store = encode(ObjectKind::Commit, content.as_slice());
    let id = hash(store.as_slice());
    match save_object(objects, id.as_slice(), store.as_slice()) {
        Ok(_) => {},
        Err(e) => {
            return Err(e);
        },
    }
    proof {
        lemma_submap_transitive(old(objects)@, with_trees, objects@);
        assert(order_with_trees.is_prefix_of(objects.order())) by {
            assert(order_with_trees.push(id@).subrange(0, order_with_trees.len() as int)
                =~= order_with_trees);
            assert(order_with_trees.subrange(0, order_with_trees.len() as int)
                =~= order_with_trees);
        }
        lemma_order_transitive(old(objects).order(), order_with_trees, objects.order());
    }
    Ok(id)
}

/// Reads what the content of a commit says.
#[verifier::rlimit(40)]
pub fn parse_commit(content: &[u8]) -> (r: Result<CommitInfo, Error>)
    ensures
        match r {
            Ok(info) => parsed_commit(content@) == Some(info@),
            Err(e) => e == Error::MalformedMetadata && parsed_commit(content@) is None,
        },
{
    let mut tree: Option<Vec<u8>> = None;
    let mut parent: Option<Vec<u8>> = None;
    let mut author: Option<Vec<u8>> = None;
    let mut pos: usize = 0;
    assert(content@.skip(0) =~= content@);
    loop
        invariant
            pos <= content@.len(),
            scan(
                content@.skip(pos as int),
                Fields { tree: opt_view(tree), parent: opt_view(parent), author: opt_view(author) },
            ) == parsed_commit(content@),
        decreases content@.len() - pos,
    {
        let rest = vstd::slice::slice_subrange(content, pos, content.len());
        assert(rest@ =~= content@.skip(pos as int));
        let n = find_byte(rest, NEWLINE);
        proof {
            lemma_find(rest@, NEWLINE);
        }
        if n >= rest.len() {
            return Err(Error::MalformedMetadata);
        }
        if n == 0 {
            let message = copy_range(rest, 1, rest.len());
            return match (tree, author) {
                (Some(tree), Some(author)) => Ok(CommitInfo { tree, parent, author, message }),
                _ => Err(Error::MalformedMetadata),
            };
        }
        let line = vstd::slice::slice_subrange(rest, 0, n);
        assert(line@ =~= rest@.take(n as int));
        proof {
            reveal_strlit("tree ");
            reveal_strlit("parent ");
            reveal_strlit("author ");
        }
        if starts_with(line, ascii_bytes("tree ")) {
            let value = copy_range(line, 5, n);
            assert(value@ =~= line@.skip(5));
            tree = Some(value);
        } else if starts_with(line, ascii_bytes("parent ")) {
            let value = copy_range(line, 7, n);
            assert(value@ =~= line@.skip(7));
            parent = Some(value);
        } else if starts_with(line, ascii_bytes("author ")) {
            let value = copy_range(line, 7, n);
            assert(value@ =~= line@.skip(7));
            author = Some(value);
        }
        assert(rest@.skip(n + 1) =~= content@.skip(pos + n + 1));
        pos = pos + n + 1;
    }
}

/// Reads the commit under a hash: loads the object, splits off its header
/// and reads what the content says.
pub fn read_commit(objects: &ObjectStore, hash_hex: &[u8]) -> (r: Result<CommitInfo, Error>)
    requires
        objects.wf(),
    ensures
        match r {
            Ok(info) => commit_at(objects@, hash_hex@) == Ok::<CommitView, Error>(info@),
            Err(e) => commit_at(objects@, hash_hex@) == Err::<CommitView, Error>(e),
        },
{
    let store = match load_object(objects, hash_hex) {
        Ok(store) => store,
        Err(e) => {
            return Err(e);
        },
    };
    let parts = match decode(store.as_slice()) {
        Ok(parts) => parts,
        Err(e) => {
            return Err(e);
        },
    };
    parse_commit(parts.1.as_slice())
}

/// Walks from the commit under `hash_hex` along the parents, over at most
/// `limit` commits. Returns the commits met, the newest first, and the
/// failure that ended the walk, if one did: the walk stops at the first
/// commit that cannot be read and does not go past it.
#[verifier::rlimit(40)]
pub fn log_commit(objects: &ObjectStore, hash_hex: &[u8], limit: usize) -> (r: (
    Vec<LogEntry>,
    Option<Error>,
))
    requires
        objects.wf(),
    ensures
        (log_views(r.0@), r.1) == history(objects@, hash_hex@, limit as nat),
{
    let mut entries: Vec<LogEntry> = Vec::new();
    let mut current = copy_range(hash_hex, 0, hash_hex.len());
    let mut left = limit;
    assert(current@ =~= hash_hex@);
    assert(log_views(entries@) + history(objects@, current@, left as nat).0 =~= history(
        objects@,
        hash_hex@,
        limit as nat,
    ).0);
    loop
        invariant
            objects.wf(),
            history(objects@, hash_hex@, limit as nat) == (
                log_views(entries@) + history(objects@, current@, left as nat).0,
                history(objects@, current@, left as nat).1,
            ),
        decreases left,
    {
        let ghost done = log_views(entries@);
        if left == 0 {
            assert(done + Seq::<LogView>::empty() =~= done);
            return (entries, Some(Error::MalformedMetadata));
        }
        match read_commit(objects, current.as_slice()) {
            Err(e) => {
                assert(done + Seq::<LogView>::empty() =~= done);
                return (entries, Some(e));
            },
            Ok(info) => {
                let ghost here = LogView { hash: current@, commit: info@ };
                let next = match &info.parent {
                    Some(p) => Some(copy_range(p.as_slice(), 0, p.len())),
                    None => None,
                };
                entries.push(LogEntry { hash: current, commit: info });
                assert(log_views(entries@) =~= done.push(here));
                match next {
                    None => {
                        assert(done.push(here) =~= done + seq![here]);
                        return (entries, None);
                    },
                    Some(p) => {
                        assert(p@ =~= here.commit.parent.unwrap());
                        assert(done.push(here) + history(objects@, p@, (left - 1) as nat).0
                            =~= done + (seq![here] + history(objects@, p@, (left - 1) as nat).0));
                        current = p;
                        left -= 1;
                    },
                }
            },
        }
    }
}

} // verus!
