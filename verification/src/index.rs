//! The staging table: paths with the hashes of their blobs, kept in the
//! order of the paths, and its two-column text form.

use crate::bytes::{
    blank, bytes_eq, copy_range, extend, find, find_byte, is_blank, lemma_find,
    lemma_lex_irreflexive, lemma_lex_total, lemma_lex_transitive, less_than, lex_lt, NEWLINE,
    SPACE,
};
use vstd::prelude::*;

verus! {

/// One staged file: its path and the hash of its blob in hex.
pub struct IndexEntry {
    pub path: Vec<u8>,
    pub hash: Vec<u8>,
}

/// The staging table. Its view is the sequence of its entries as pairs of
/// path and hash, in the order in which trees are built from them.
pub struct Index {
    entries: Vec<IndexEntry>,
}

impl View for Index {
    type V = Seq<(Seq<u8>, Seq<u8>)>;

    closed spec fn view(&self) -> Self::V {
        Seq::new(self.entries@.len(), |i: int| (self.entries@[i].path@, self.entries@[i].hash@))
    }
}

/// The paths rise strictly in lexicographic order, so none occurs twice.
pub open spec fn sorted(s: Seq<(Seq<u8>, Seq<u8>)>) -> bool {
    forall|i: int, j: int| #![trigger s[i], s[j]] 0 <= i < j < s.len() ==> lex_lt(s[i].0, s[j].0)
}

/// Whether some entry has the path `p`.
pub open spec fn has_path(s: Seq<(Seq<u8>, Seq<u8>)>, p: Seq<u8>) -> bool {
    exists|i: int| 0 <= i < s.len() && #[trigger] s[i].0 == p
}

/// The place of an entry with the path `p`.
pub open spec fn place_of(s: Seq<(Seq<u8>, Seq<u8>)>, p: Seq<u8>) -> int {
    choose|i: int| 0 <= i < s.len() && #[trigger] s[i].0 == p
}

/// The mapping from path to hash that a sequence of entries stands for.
pub open spec fn as_map(s: Seq<(Seq<u8>, Seq<u8>)>) -> Map<Seq<u8>, Seq<u8>> {
    Map::new(|p: Seq<u8>| has_path(s, p), |p: Seq<u8>| s[place_of(s, p)].1)
}

/// The length of the longest prefix of `s` without a blank byte.
pub open spec fn word_len(s: Seq<u8>) -> nat
    decreases s.len(),
{
    if s.len() == 0 || is_blank(s[0]) {
        0
    } else {
        1 + word_len(s.skip(1))
    }
}

/// The words of a line: its maximal runs of bytes that are not blank.
pub open spec fn fields(line: Seq<u8>) -> Seq<Seq<u8>>
    decreases line.len(),
{
    if line.len() == 0 {
        Seq::empty()
    } else if is_blank(line[0]) {
        fields(line.skip(1))
    } else {
        let n = word_len(line) as int;
        proof {
            lemma_word_len(line);
        }
        seq![line.take(n)] + fields(line.skip(n))
    }
}

/// The table after one line of the text: a line of exactly two words
/// stages the second word, the path, with the first, the hash.
pub open spec fn with_line(acc: Map<Seq<u8>, Seq<u8>>, line: Seq<u8>) -> Map<Seq<u8>, Seq<u8>> {
    let words = fields(line);
    if words.len() == 2 {
        acc.insert(words[1], words[0])
    } else {
        acc
    }
}

/// The table after the lines of `content`, starting from `acc`. A line
/// ends at a line feed or at the end of the text.
pub open spec fn with_lines(acc: Map<Seq<u8>, Seq<u8>>, content: Seq<u8>) -> Map<
    Seq<u8>,
    Seq<u8>,
>
    decreases content.len(),
{
    if content.len() == 0 {
        acc
    } else {
        let n = find(content, NEWLINE);
        proof {
            lemma_find(content, NEWLINE);
        }
        if n < content.len() {
            with_lines(with_line(acc, content.take(n)), content.skip(n + 1))
        } else {
            with_line(acc, content)
        }
    }
}

/// The table that a staging text stands for.
pub open spec fn parsed_index(content: Seq<u8>) -> Map<Seq<u8>, Seq<u8>> {
    with_lines(Map::empty(), content)
}

/// The line of one entry: hash, space, path, line feed.
pub open spec fn index_line(entry: (Seq<u8>, Seq<u8>)) -> Seq<u8> {
    entry.1 + seq![SPACE] + entry.0 + seq![NEWLINE]
}

/// The staging text of a sequence of entries: their lines in order.
pub open spec fn index_text(s: Seq<(Seq<u8>, Seq<u8>)>) -> Seq<u8>
    decreases s.len(),
{
    if s.len() == 0 {
        Seq::empty()
    } else {
        index_text(s.drop_last()) + index_line(s.last())
    }
}

/// What `word_len` returns: no byte before it is blank, and it stands on a
/// blank byte unless it is the length.
pub proof fn lemma_word_len(s: Seq<u8>)
    ensures
        word_len(s) <= s.len(),
        forall|j: int| 0 <= j < word_len(s) ==> !is_blank(s[j]),
        word_len(s) < s.len() ==> is_blank(s[word_len(s) as int]),
    decreases s.len(),
{
    if s.len() != 0 && !is_blank(s[0]) {
        let t = s.skip(1);
        lemma_word_len(t);
        assert forall|j: int| 0 <= j < word_len(s) implies !is_blank(s[j]) by {
            if j > 0 {
                assert(s[j] == t[j - 1]);
            }
        }
        assert(word_len(t) < t.len() ==> t[word_len(t) as int] == s[word_len(s) as int]);
    }
}

/// In a sorted sequence an entry is found under its path.
pub proof fn lemma_map_entry(s: Seq<(Seq<u8>, Seq<u8>)>, i: int)
    requires
        sorted(s),
        0 <= i < s.len(),
    ensures
        as_map(s).contains_key(s[i].0),
        as_map(s)[s[i].0] == s[i].1,
        place_of(s, s[i].0) == i,
{
    let p = s[i].0;
    assert(s[i].0 == p);
    let j = place_of(s, p);
    assert(0 <= j < s.len() && s[j].0 == p);
    lemma_lex_irreflexive(p);
    if j < i {
        assert(lex_lt(s[j].0, s[i].0));
    } else if i < j {
        assert(lex_lt(s[i].0, s[j].0));
    }
}

/// Without its first entry a sorted sequence is sorted, and stands for the
/// mapping without the first path.
proof fn lemma_tail(s: Seq<(Seq<u8>, Seq<u8>)>)
    requires
        sorted(s),
        s.len() > 0,
    ensures
        sorted(s.skip(1)),
        as_map(s.skip(1)) == as_map(s).remove(s[0].0),
{
    let t = s.skip(1);
    assert forall|a: int, b: int| #![trigger t[a], t[b]] 0 <= a < b < t.len() implies lex_lt(
        t[a].0,
        t[b].0,
    ) by {
        assert(lex_lt(s[a + 1].0, s[b + 1].0));
    }
    lemma_lex_irreflexive(s[0].0);
    assert forall|q: Seq<u8>| as_map(t).contains_key(q) <==> as_map(s).remove(
        s[0].0,
    ).contains_key(q) by {
        if has_path(t, q) {
            let j = place_of(t, q);
            assert(s[j + 1].0 == q);
            assert(lex_lt(s[0].0, s[j + 1].0));
        }
        if has_path(s, q) && q != s[0].0 {
            let j = place_of(s, q);
            assert(t[j - 1].0 == q);
        }
    }
    assert forall|q: Seq<u8>| as_map(t).contains_key(q) implies as_map(t)[q] == as_map(s).remove(
        s[0].0,
    )[q] by {
        let j = place_of(t, q);
        lemma_map_entry(t, j);
        lemma_map_entry(s, j + 1);
    }
    assert(as_map(t) =~= as_map(s).remove(s[0].0));
}

/// The order and the mapping fix the table: two sorted sequences that
/// stand for the same mapping are the same sequence.
pub proof fn lemma_sorted_unique(s: Seq<(Seq<u8>, Seq<u8>)>, t: Seq<(Seq<u8>, Seq<u8>)>)
    requires
        sorted(s),
        sorted(t),
        as_map(s) == as_map(t),
    ensures
        s == t,
    decreases s.len(),
{
    if s.len() == 0 {
        if t.len() > 0 {
            lemma_map_entry(t, 0);
            assert(has_path(s, t[0].0));
        }
        assert(s =~= t);
    } else {
        lemma_map_entry(s, 0);
        assert(has_path(t, s[0].0));
        let j = place_of(t, s[0].0);
        lemma_map_entry(t, 0);
        assert(has_path(s, t[0].0));
        let i = place_of(s, t[0].0);
        lemma_lex_irreflexive(s[0].0);
        if j > 0 {
            assert(lex_lt(t[0].0, t[j].0));
            if i > 0 {
                assert(lex_lt(s[0].0, s[i].0));
                lemma_lex_transitive(s[0].0, t[0].0, s[0].0);
            }
        }
        assert(s[0].0 == t[0].0);
        assert(s[0] == t[0]);
        lemma_tail(s);
        lemma_tail(t);
        lemma_sorted_unique(s.skip(1), t.skip(1));
        assert forall|k: int| 0 <= k < s.len() implies s[k] == t[k] by {
            if k > 0 {
                assert(s[k] == s.skip(1)[k - 1]);
                assert(t[k] == t.skip(1)[k - 1]);
            }
        }
        assert(s.len() == s.skip(1).len() + 1 && t.len() == t.skip(1).len() + 1);
        assert(s =~= t);
    }
}

/// Putting a new path at its place keeps the order and adds the pair.
#[verifier::rlimit(40)]
proof fn lemma_insert_new(s: Seq<(Seq<u8>, Seq<u8>)>, i: int, p: Seq<u8>, h: Seq<u8>)
    requires
        sorted(s),
        0 <= i <= s.len(),
        forall|j: int| 0 <= j < i ==> lex_lt(#[trigger] s[j].0, p),
        forall|j: int| i <= j < s.len() ==> lex_lt(p, #[trigger] s[j].0),
    ensures
        sorted(s.insert(i, (p, h))),
        as_map(s.insert(i, (p, h))) == as_map(s).insert(p, h),
{
    let t = s.insert(i, (p, h));
    assert(t.len() == s.len() + 1);
    assert(forall|j: int| 0 <= j < i ==> t[j] == s[j]);
    assert(t[i] == (p, h));
    assert(forall|j: int| i < j < t.len() ==> t[j] == s[j - 1]);
    assert forall|a: int, b: int| #![trigger t[a], t[b]] 0 <= a < b < t.len() implies lex_lt(
        t[a].0,
        t[b].0,
    ) by {
        if b < i {
            assert(lex_lt(s[a].0, s[b].0));
        } else if b == i {
            assert(lex_lt(s[a].0, p));
        } else if a < i {
            assert(lex_lt(s[a].0, p));
            assert(lex_lt(p, s[b - 1].0));
            lemma_lex_transitive(s[a].0, p, s[b - 1].0);
        } else if a == i {
            assert(lex_lt(p, s[b - 1].0));
        } else {
            assert(lex_lt(s[a - 1].0, s[b - 1].0));
        }
    }
    lemma_lex_irreflexive(p);
    assert forall|q: Seq<u8>| as_map(t).contains_key(q) <==> as_map(s).insert(
        p,
        h,
    ).contains_key(q) by {
        if has_path(t, q) {
            let j = place_of(t, q);
            if j < i {
                assert(s[j].0 == q);
            } else if j > i {
                assert(s[j - 1].0 == q);
            }
        }
        if has_path(s, q) {
            let j = place_of(s, q);
            if j < i {
                assert(t[j].0 == q);
            } else {
                assert(t[j + 1].0 == q);
            }
        }
        if q == p {
            assert(t[i].0 == q);
        }
    }
    assert forall|q: Seq<u8>| as_map(t).contains_key(q) implies as_map(t)[q] == as_map(s).insert(
        p,
        h,
    )[q] by {
        let j = place_of(t, q);
        lemma_map_entry(t, j);
        if j < i {
            lemma_map_entry(s, j);
        } else if j > i {
            lemma_map_entry(s, j - 1);
        }
    }
    assert(as_map(t) =~= as_map(s).insert(p, h));
}

/// Giving a path that is there a new hash keeps the order and changes
/// only that pair.
proof fn lemma_replace(s: Seq<(Seq<u8>, Seq<u8>)>, i: int, h: Seq<u8>)
    requires
        sorted(s),
        0 <= i < s.len(),
    ensures
        sorted(s.update(i, (s[i].0, h))),
        as_map(s.update(i, (s[i].0, h))) == as_map(s).insert(s[i].0, h),
{
    let p = s[i].0;
    let t = s.update(i, (p, h));
    assert forall|a: int, b: int| #![trigger t[a], t[b]] 0 <= a < b < t.len() implies lex_lt(
        t[a].0,
        t[b].0,
    ) by {
        assert(lex_lt(s[a].0, s[b].0));
    }
    assert forall|q: Seq<u8>| as_map(t).contains_key(q) <==> as_map(s).insert(
        p,
        h,
    ).contains_key(q) by {
        if has_path(t, q) {
            let j = place_of(t, q);
            assert(s[j].0 == q);
        }
        if has_path(s, q) {
            let j = place_of(s, q);
            assert(t[j].0 == q);
        }
        if q == p {
            assert(t[i].0 == q);
        }
    }
    assert forall|q: Seq<u8>| as_map(t).contains_key(q) implies as_map(t)[q] == as_map(s).insert(
        p,
        h,
    )[q] by {
        let j = place_of(t, q);
        lemma_map_entry(t, j);
        lemma_map_entry(s, j);
        lemma_lex_irreflexive(p);
        if j < i {
            assert(lex_lt(s[j].0, s[i].0));
        } else if i < j {
            assert(lex_lt(s[i].0, s[j].0));
        }
    }
    assert(as_map(t) =~= as_map(s).insert(p, h));
}

impl Index {
    /// The entries are in the order of their paths.
    pub open spec fn wf(&self) -> bool {
        sorted(self@)
    }

    /// The mapping from path to hash.
    pub open spec fn map(&self) -> Map<Seq<u8>, Seq<u8>> {
        as_map(self@)
    }

    /// An empty table.
    pub fn new() -> (index: Index)
        ensures
            index.wf(),
            index@ == Seq::<(Seq<u8>, Seq<u8>)>::empty(),
            index.map() == Map::<Seq<u8>, Seq<u8>>::empty(),
    {
        let index = Index { entries: Vec::new() };
        assert(index@ =~= Seq::<(Seq<u8>, Seq<u8>)>::empty());
        assert(index.map() =~= Map::<Seq<u8>, Seq<u8>>::empty());
        index
    }

    /// The number of staged paths.
    pub fn len(&self) -> (n: usize)
        ensures
            n == self@.len(),
    {
        self.entries.len()
    }

    /// Whether nothing is staged.
    pub fn is_empty(&self) -> (empty: bool)
        ensures
            empty == (self@.len() == 0),
    {
        self.entries.len() == 0
    }

    /// The entries in order.
    pub fn entries(&self) -> (all: &Vec<IndexEntry>)
        ensures
            all@.len() == self@.len(),
            forall|i: int|
                0 <= i < all@.len() ==> (#[trigger] all@[i].path@, all@[i].hash@) == self@[i],
    {
        &self.entries
    }

    /// Stages `path` with `hash`: a path that is staged already gets the
    /// new hash, a new path goes to its place in the order.
    #[verifier::rlimit(40)]
    pub fn insert(&mut self, path: Vec<u8>, hash: Vec<u8>)
        requires
            old(self).wf(),
        ensures
            final(self).wf(),
            final(self).map() == old(self).map().insert(path@, hash@),
    {
        let ghost s = self@;
        let ghost p = path@;
        let ghost h = hash@;
        let mut i: usize = 0;
        while i < self.entries.len() && less_than(
            self.entries[i].path.as_slice(),
            path.as_slice(),
        )
            invariant
                i <= self.entries@.len(),
                self@ == s,
                s.len() == self.entries@.len(),
                path@ == p,
                forall|j: int| 0 <= j < i ==> lex_lt(#[trigger] s[j].0, p),
                forall|j: int| 0 <= j < s.len() ==> #[trigger] s[j].0 == self.entries@[j].path@,
            decreases self.entries@.len() - i,
        {
            i += 1;
        }
        if i < self.entries.len() && bytes_eq(self.entries[i].path.as_slice(), path.as_slice()) {
            self.entries.set(i, IndexEntry { path, hash });
            proof {
                assert(self@ =~= s.update(i as int, (s[i as int].0, h)));
                lemma_replace(s, i as int, h);
            }
        } else {
            proof {
                assert forall|j: int| i <= j < s.len() implies lex_lt(p, #[trigger] s[j].0) by {
                    assert(s[i as int].0 == self.entries@[i as int].path@);
                    if !lex_lt(p, s[i as int].0) {
                        lemma_lex_total(p, s[i as int].0);
                    }
                    if j > i {
                        assert(lex_lt(s[i as int].0, s[j].0));
                        lemma_lex_transitive(p, s[i as int].0, s[j].0);
                    }
                }
                lemma_insert_new(s, i as int, p, h);
            }
            self.entries.insert(i, IndexEntry { path, hash });
            assert(self@ =~= s.insert(i as int, (p, h)));
        }
    }
}

/// The words of a line.
#[verifier::rlimit(40)]
pub fn split_fields(line: &[u8]) -> (words: Vec<Vec<u8>>)
    ensures
        words@.map_values(|w: Vec<u8>| w@) == fields(line@),
{
    let mut words: Vec<Vec<u8>> = Vec::new();
    let mut pos: usize = 0;
    assert(line@.skip(0) =~= line@);
    while pos < line.len()
        invariant
            pos <= line@.len(),
            words@.map_values(|w: Vec<u8>| w@) + fields(line@.skip(pos as int)) == fields(line@),
        decreases line@.len() - pos,
    {
        let ghost tail = line@.skip(pos as int);
        if blank(line[pos]) {
            assert(tail.skip(1) =~= line@.skip(pos + 1));
            pos += 1;
        } else {
            let mut end: usize = pos + 1;
            while end < line.len() && !blank(line[end])
                invariant
                    pos < end <= line@.len(),
                    forall|j: int| pos <= j < end ==> !is_blank(line@[j]),
                decreases line@.len() - end,
            {
                end += 1;
            }
            proof {
                lemma_word_len(tail);
                let n = word_len(tail) as int;
                if n < end - pos {
                    assert(is_blank(tail[n]));
                    assert(tail[n] == line@[pos + n]);
                } else if n > end - pos {
                    assert(!is_blank(tail[end - pos]));
                }
                assert(tail.take(n) =~= line@.subrange(pos as int, end as int));
                assert(tail.skip(n) =~= line@.skip(end as int));
            }
            let ghost before = words@.map_values(|w: Vec<u8>| w@);
            let word = copy_range(line, pos, end);
            words.push(word);
            assert(words@.map_values(|w: Vec<u8>| w@) =~= before.push(
                line@.subrange(pos as int, end as int),
            ));
            assert(before.push(line@.subrange(pos as int, end as int)) + fields(
                line@.skip(end as int),
            ) =~= before + fields(tail));
            pos = end;
        }
    }
    assert(fields(line@.skip(pos as int)) =~= Seq::<Seq<u8>>::empty());
    assert(words@.map_values(|w: Vec<u8>| w@) + Seq::<Seq<u8>>::empty() =~= words@.map_values(
        |w: Vec<u8>| w@,
    ));
    words
}

/// Reads a staging text: each line of exactly two words stages a path,
/// and a later line for the same path replaces an earlier one.
#[verifier::rlimit(40)]
pub fn read_index(content: &[u8]) -> (index: Index)
    ensures
        index.wf(),
        index.map() == parsed_index(content@),
{
    let mut index = Index::new();
    let mut pos: usize = 0;
    assert(content@.skip(0) =~= content@);
    while pos < content.len()
        invariant
            pos <= content@.len(),
            index.wf(),
            with_lines(index.map(), content@.skip(pos as int)) == parsed_index(content@),
        decreases content@.len() - pos,
    {
        let ghost tail = content@.skip(pos as int);
        let rest = vstd::slice::slice_subrange(content, pos, content.len());
        let n = find_byte(rest, NEWLINE);
        proof {
            assert(rest@ =~= tail);
            lemma_find(tail, NEWLINE);
        }
        let line = vstd::slice::slice_subrange(rest, 0, n);
        assert(line@ =~= tail.take(n as int));
        let mut words = split_fields(line);
        let ghost views = words@.map_values(|w: Vec<u8>| w@);
        let ghost staged = index.map();
        if words.len() == 2 {
            let path = words.pop();
            let hash = words.pop();
            match (path, hash) {
                (Some(path), Some(hash)) => {
                    assert(path@ == views[1]);
                    assert(hash@ == views[0]);
                    index.insert(path, hash);
                },
                _ => {},
            }
        }
        assert(index.map() == with_line(staged, tail.take(n as int)));
        if n < rest.len() {
            assert(tail.skip(n + 1) =~= content@.skip(pos + n + 1));
            pos = pos + n + 1;
        } else {
            assert(tail.take(n as int) =~= tail);
            pos = content.len();
        }
    }
    index
}

/// Writes the staging text: one line for each entry, in order.
pub fn write_index(files: &Index) -> (content: Vec<u8>)
    ensures
        content@ == index_text(files@),
{
    let entries = files.entries();
    let mut content: Vec<u8> = Vec::new();
    let mut i: usize = 0;
    assert(files@.take(0) =~= Seq::<(Seq<u8>, Seq<u8>)>::empty());
    while i < entries.len()
        invariant
            i <= entries@.len(),
            entries@.len() == files@.len(),
            forall|j: int|
                0 <= j < entries@.len() ==> (#[trigger] entries@[j].path@, entries@[j].hash@)
                    == files@[j],
            content@ == index_text(files@.take(i as int)),
        decreases entries@.len() - i,
    {
        let ghost before = content@;
        extend(&mut content, entries[i].hash.as_slice());
        content.push(SPACE);
        extend(&mut content, entries[i].path.as_slice());
        content.push(NEWLINE);
        proof {
            let next = files@.take(i + 1);
            assert(next.drop_last() =~= files@.take(i as int));
            assert(next.last() == files@[i as int]);
            assert((entries@[i as int].path@, entries@[i as int].hash@) == files@[i as int]);
            assert(content@ =~= before + index_line(files@[i as int]));
        }
        i += 1;
    }
    assert(files@.take(files@.len() as int) =~= files@);
    content
}

} // verus!
