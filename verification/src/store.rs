//! The flow store: a verified model of the storage root.
//!
//! The storage root is a directory holding one file per flow; the
//! directory is the sole source of truth.  [`FlowStore`] models its
//! contents as the files it holds, viewed abstractly as a `Map` from
//! filename to file content, and gives the four operations of the
//! store — write, read, delete, list — exact contracts over that view.

use vstd::prelude::*;
use vstd::relations::sorted_by;
use vstd::string::StringExecFns;

use crate::listing::flow_names_from_entries;
use crate::listing::lemma_listed_names_membership;
use crate::listing::lemma_listed_names_no_dup;
use crate::listing::lex_leq;
use crate::listing::listed_names;
use crate::listing::seq_views;
use crate::naming::flow_file_name;
use crate::naming::flow_key;

verus! {

broadcast use vstd::seq_lib::group_to_multiset_ensures;

/// The error a store operation reports.  The store itself can only
/// fail to find a flow; failures of the underlying filesystem are
/// surfaced by the caller that performs the file access.
#[derive(Clone, Copy, Debug, PartialEq, Eq, Structural)]
pub enum FlowError {
    /// No flow is stored under the requested name.
    NotFound,
}

impl FlowError {
    /// A human-readable description of the error.
    pub fn message(&self) -> (r: String)
        ensures
            r@ == "flow not found"@,
    {
        String::from_str("flow not found")
    }
}

/// One file of the storage root: its filename and its text content,
/// stored unchanged.
pub struct FileEntry {
    pub name: String,
    pub content: String,
}

/// Whether no two files of `s` share a filename, as a directory
/// guarantees.
pub open spec fn distinct_names(s: Seq<FileEntry>) -> bool {
    forall|i: int, j: int|
        0 <= i < j < s.len() ==> (#[trigger] s[i].name@) != (#[trigger] s[j].name@)
}

/// The contents of a directory as a map from filename to file content.
pub open spec fn as_map(s: Seq<FileEntry>) -> Map<Seq<char>, Seq<char>>
    decreases s.len(),
{
    if s.len() == 0 {
        Map::empty()
    } else {
        as_map(s.drop_last()).insert(s.last().name@, s.last().content@)
    }
}

/// A file of the directory is in the map.
proof fn lemma_as_map_contains_at(s: Seq<FileEntry>, i: int)
    requires
        0 <= i < s.len(),
    ensures
        as_map(s).contains_key(s[i].name@),
    decreases s.len(),
{
    if i < s.len() - 1 {
        lemma_as_map_contains_at(s.drop_last(), i);
    }
}

/// A filename under which no file of the directory is stored is not in
/// the map.
proof fn lemma_as_map_absent(s: Seq<FileEntry>, k: Seq<char>)
    requires
        forall|i: int| 0 <= i < s.len() ==> (#[trigger] s[i].name@) != k,
    ensures
        !as_map(s).contains_key(k),
    decreases s.len(),
{
    if s.len() > 0 {
        lemma_as_map_absent(s.drop_last(), k);
    }
}

/// In a directory without duplicate filenames, the map holds each
/// file's own content under its filename.
proof fn lemma_as_map_value(s: Seq<FileEntry>, i: int)
    requires
        distinct_names(s),
        0 <= i < s.len(),
    ensures
        as_map(s).contains_key(s[i].name@),
        as_map(s)[s[i].name@] == s[i].content@,
    decreases s.len(),
{
    if i < s.len() - 1 {
        assert(s[i].name@ != s.last().name@);
        lemma_as_map_value(s.drop_last(), i);
    }
}

/// Removing a file from a directory without duplicate filenames
/// removes its filename from the map.
proof fn lemma_as_map_remove(s: Seq<FileEntry>, i: int)
    requires
        distinct_names(s),
        0 <= i < s.len(),
    ensures
        as_map(s.remove(i)) == as_map(s).remove(s[i].name@),
    decreases s.len(),
{
    let k = s[i].name@;
    if i == s.len() - 1 {
        assert(s.remove(i) =~= s.drop_last());
        assert forall|j: int| 0 <= j < s.drop_last().len() implies (
        #[trigger] s.drop_last()[j].name@) != k by {
            assert(s[j].name@ != s[i].name@);
        }
        lemma_as_map_absent(s.drop_last(), k);
        assert(as_map(s.drop_last()) =~= as_map(s.drop_last()).insert(k, s[i].content@).remove(k));
    } else {
        assert(distinct_names(s.drop_last()));
        lemma_as_map_remove(s.drop_last(), i);
        assert(s.remove(i).drop_last() =~= s.drop_last().remove(i));
        assert(s.remove(i).last() == s.last());
        assert(s.last().name@ != k);
        assert(as_map(s.drop_last()).remove(k).insert(s.last().name@, s.last().content@)
            =~= as_map(s.drop_last()).insert(s.last().name@, s.last().content@).remove(k));
    }
}

/// The flow store: the files of the storage root, with no filename
/// stored twice.  Its view is the directory contents as a map from
/// filename to file content.
pub struct FlowStore {
    files: Vec<FileEntry>,
}

impl View for FlowStore {
    type V = Map<Seq<char>, Seq<char>>;

    closed spec fn view(&self) -> Map<Seq<char>, Seq<char>> {
        as_map(self.files@)
    }
}

impl FlowStore {
    /// Well-formedness: the directory holds at most one file per
    /// filename.
    pub closed spec fn wf(&self) -> bool {
        distinct_names(self.files@)
    }

    /// A store with no files: the state of a storage root that does
    /// not exist yet.
    pub fn new() -> (s: Self)
        ensures
            s.wf(),
            s@ == Map::<Seq<char>, Seq<char>>::empty(),
    {
        FlowStore { files: Vec::new() }
    }

    /// The index of the file stored under `filename`, if any.
    fn find_index(&self, filename: &String) -> (r: Option<usize>)
        ensures
            match r {
                Some(i) => i < self.files@.len() && self.files@[i as int].name@ == filename@,
                None => forall|i: int|
                    0 <= i < self.files@.len() ==> (#[trigger] self.files@[i].name@) != filename@,
            },
    {
        let mut i: usize = 0;
        while i < self.files.len()
            invariant
                i <= self.files@.len(),
                forall|j: int| 0 <= j < i ==> (#[trigger] self.files@[j].name@) != filename@,
            decreases self.files@.len() - i,
        {
            if self.files[i].name == *filename {
                return Some(i);
            }
            i = i + 1;
        }
        None
    }

    /// Stores `content` under the full filename `filename`, replacing
    /// any file of that name.  This models a file appearing in the
    /// storage root, whether by a flow write or by other means.
    pub fn place_file(&mut self, filename: String, content: String)
        requires
            old(self).wf(),
        ensures
            final(self).wf(),
            final(self)@ == old(self)@.insert(filename@, content@),
    {
        let entry = FileEntry { name: filename, content };
        match self.find_index(&entry.name) {
            Some(i) => {
                proof {
                    lemma_as_map_remove(self.files@, i as int);
                    let removed = self.files@.remove(i as int);
                    assert forall|p: int, q: int| 0 <= p < q < removed.len() implies (
                    #[trigger] removed[p].name@) != (#[trigger] removed[q].name@) by {
                        let p0 = if p < i { p } else { p + 1 };
                        let q0 = if q < i { q } else { q + 1 };
                        assert(removed[p] == self.files@[p0]);
                        assert(removed[q] == self.files@[q0]);
                    }
                    assert forall|j: int| 0 <= j < removed.len() implies (
                    #[trigger] removed[j].name@) != entry.name@ by {
                        let j0 = if j < i { j } else { j + 1 };
                        assert(removed[j] == self.files@[j0]);
                        assert(self.files@[j0].name@ != self.files@[i as int].name@);
                    }
                }
                self.files.remove(i);
                let ghost pre = self.files@;
                self.files.push(entry);
                proof {
                    assert(self.files@.drop_last() =~= pre);
                    assert(distinct_names(self.files@));
                    assert(self@ =~= old(self)@.insert(self.files@.last().name@,
                        self.files@.last().content@));
                }
            },
            None => {
                let ghost pre = self.files@;
                self.files.push(entry);
                proof {
                    assert(self.files@.drop_last() =~= pre);
                    assert(distinct_names(self.files@));
                }
            },
        }
    }

    /// Creates or overwrites the flow named `name`, storing the
    /// payload `data` unchanged under the name's filename.
    pub fn write(&mut self, name: &str, data: String)
        requires
            old(self).wf(),
        ensures
            final(self).wf(),
            final(self)@ == old(self)@.insert(flow_key(name@), data@),
    {
        let filename = flow_file_name(name);
        self.place_file(filename, data);
    }

    /// The payload stored under `name`, exactly as it was written, or
    /// a not-found error when no flow of that name is stored.
    pub fn read(&self, name: &str) -> (r: Result<String, FlowError>)
        requires
            self.wf(),
        ensures
            match r {
                Ok(d) => self@.contains_key(flow_key(name@)) && d@ == self@[flow_key(name@)],
                Err(e) => !self@.contains_key(flow_key(name@)) && e == FlowError::NotFound,
            },
    {
        let filename = flow_file_name(name);
        match self.find_index(&filename) {
            Some(i) => {
                proof {
                    lemma_as_map_value(self.files@, i as int);
                }
                Ok(self.files[i].content.clone())
            },
            None => {
                proof {
                    lemma_as_map_absent(self.files@, filename@);
                }
                Err(FlowError::NotFound)
            },
        }
    }

    /// Deletes the flow named `name` if it is stored.  Deleting an
    /// absent name succeeds and changes nothing: the operation never
    /// fails.
    pub fn delete(&mut self, name: &str)
        requires
            old(self).wf(),
        ensures
            final(self).wf(),
            final(self)@ == old(self)@.remove(flow_key(name@)),
    {
        let filename = flow_file_name(name);
        match self.find_index(&filename) {
            Some(i) => {
                proof {
                    lemma_as_map_remove(self.files@, i as int);
                    let removed = self.files@.remove(i as int);
                    assert forall|p: int, q: int| 0 <= p < q < removed.len() implies (
                    #[trigger] removed[p].name@) != (#[trigger] removed[q].name@) by {
                        let p0 = if p < i { p } else { p + 1 };
                        let q0 = if q < i { q } else { q + 1 };
                        assert(removed[p] == self.files@[p0]);
                        assert(removed[q] == self.files@[q0]);
                    }
                }
                self.files.remove(i);
            },
            None => {
                proof {
                    lemma_as_map_absent(self.files@, filename@);
                    assert(self@.remove(filename@) =~= self@);
                }
            },
        }
    }

    /// The names of all stored flows, in ascending lexicographic
    /// order, each exactly once.  Files whose name does not follow the
    /// naming convention are not listed.
    pub fn list(&self) -> (names: Vec<String>)
        requires
            self.wf(),
        ensures
            sorted_by(seq_views(names@), lex_leq()),
            seq_views(names@).no_duplicates(),
            forall|n: Seq<char>|
                #![trigger seq_views(names@).contains(n)]
                #![trigger self@.contains_key(flow_key(n))]
                seq_views(names@).contains(n) <==> self@.contains_key(flow_key(n)),
    {
        let mut entries: Vec<String> = Vec::new();
        let mut i: usize = 0;
        while i < self.files.len()
            invariant
                i <= self.files@.len(),
                entries@.len() == i,
                forall|j: int| 0 <= j < i ==> (#[trigger] entries@[j])@ == self.files@[j].name@,
            decreases self.files@.len() - i,
        {
            entries.push(self.files[i].name.clone());
            i = i + 1;
        }
        let names = flow_names_from_entries(&entries);
        proof {
            let es = seq_views(entries@);
            assert forall|j: int| 0 <= j < es.len() implies es[j] == self.files@[j].name@ by {}
            lemma_listed_names_membership(es);
            assert(es.no_duplicates());
            lemma_listed_names_no_dup(es);
            listed_names(es).lemma_multiset_has_no_duplicates();
            seq_views(names@).lemma_multiset_has_no_duplicates_conv();
            assert forall|n: Seq<char>|
                seq_views(names@).contains(n) <==> self@.contains_key(flow_key(n)) by {
                if seq_views(names@).contains(n) {
                    assert(seq_views(names@).to_multiset().count(n) > 0);
                    assert(listed_names(es).to_multiset().count(n) > 0);
                    assert(listed_names(es).contains(n));
                    assert(es.contains(flow_key(n)));
                    let j = choose|j: int| 0 <= j < es.len() && es[j] == flow_key(n);
                    lemma_as_map_contains_at(self.files@, j);
                }
                if self@.contains_key(flow_key(n)) {
                    if forall|j: int|
                        0 <= j < self.files@.len() ==> (#[trigger] self.files@[j].name@)
                            != flow_key(n) {
                        lemma_as_map_absent(self.files@, flow_key(n));
                    }
                    let j = choose|j: int|
                        0 <= j < self.files@.len() && self.files@[j].name@ == flow_key(n);
                    assert(es[j] == flow_key(n));
                    assert(es.contains(flow_key(n)));
                    assert(listed_names(es).contains(n));
                    assert(listed_names(es).to_multiset().count(n) > 0);
                    assert(seq_views(names@).to_multiset().count(n) > 0);
                    assert(seq_views(names@).contains(n));
                }
            }
        }
        names
    }
}

} // verus!
