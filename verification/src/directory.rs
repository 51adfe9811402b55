//! The store's directory as a value: the files it holds, by name, and the
//! changes made to them since they were last handed on.
//!
//! The store works on this image of its directory. Whoever keeps the files on
//! a disk loads them into a `Directory`, and carries out on the disk the
//! changes that the image records.

use crate::byte_map::{ascending, ByteMap};
use crate::order::{lemma_precedes_irreflexive, precedes};
use crate::segment::{is_segment_name, is_store_file};
use vstd::prelude::*;
use vstd::slice::slice_to_vec;

verus! {

/// One change to the files of a directory.
#[derive(Clone, Debug, PartialEq, Eq)]
pub enum Change {
    /// The file is created empty, or emptied if it was there.
    Create(Vec<u8>),
    /// The bytes are added at the end of the file, which is created if it
    /// was not there.
    Append(Vec<u8>, Vec<u8>),
    /// The first file takes the name of the second and replaces it.
    Rename(Vec<u8>, Vec<u8>),
    /// The file is deleted.
    Remove(Vec<u8>),
    /// Every file is deleted.
    RemoveAll,
}

/// A change as a mathematical value.
pub enum ChangeModel {
    Create(Seq<u8>),
    Append(Seq<u8>, Seq<u8>),
    Rename(Seq<u8>, Seq<u8>),
    Remove(Seq<u8>),
    RemoveAll,
}

impl View for Change {
    type V = ChangeModel;

    open spec fn view(&self) -> ChangeModel {
        match *self {
            Change::Create(name) => ChangeModel::Create(name@),
            Change::Append(name, bytes) => ChangeModel::Append(name@, bytes@),
            Change::Rename(from, to) => ChangeModel::Rename(from@, to@),
            Change::Remove(name) => ChangeModel::Remove(name@),
            Change::RemoveAll => ChangeModel::RemoveAll,
        }
    }
}

/// The changes of a list, as mathematical values.
pub open spec fn changes_of(list: Seq<Change>) -> Seq<ChangeModel> {
    Seq::new(list.len(), |i: int| list[i]@)
}

/// The bytes of a file, or none where no file has that name.
pub open spec fn contents(files: Map<Seq<u8>, Seq<u8>>, name: Seq<u8>) -> Seq<u8> {
    if files.contains_key(name) {
        files[name]
    } else {
        Seq::empty()
    }
}

/// The files after one change. Renaming a file that is not there changes
/// nothing, and neither does deleting one.
pub open spec fn applied(files: Map<Seq<u8>, Seq<u8>>, change: ChangeModel) -> Map<
    Seq<u8>,
    Seq<u8>,
> {
    match change {
        ChangeModel::Create(name) => files.insert(name, Seq::empty()),
        ChangeModel::Append(name, bytes) => files.insert(name, contents(files, name) + bytes),
        ChangeModel::Rename(from, to) => if files.contains_key(from) {
            files.remove(from).insert(to, files[from])
        } else {
            files
        },
        ChangeModel::Remove(name) => files.remove(name),
        ChangeModel::RemoveAll => Map::empty(),
    }
}

/// The files after a run of changes, made in order.
pub open spec fn replayed(files: Map<Seq<u8>, Seq<u8>>, changes: Seq<ChangeModel>) -> Map<
    Seq<u8>,
    Seq<u8>,
>
    decreases changes.len(),
{
    if changes.len() == 0 {
        files
    } else {
        applied(replayed(files, changes.drop_last()), changes.last())
    }
}

/// The files after two runs of changes are the files after the one run that
/// both make together.
pub proof fn lemma_replayed_add(
    files: Map<Seq<u8>, Seq<u8>>,
    first: Seq<ChangeModel>,
    second: Seq<ChangeModel>,
)
    ensures
        replayed(files, first + second) == replayed(replayed(files, first), second),
    decreases second.len(),
{
    if second.len() == 0 {
        assert(first + second =~= first);
    } else {
        lemma_replayed_add(files, first, second.drop_last());
        assert((first + second).drop_last() =~= first + second.drop_last());
    }
}

/// The names among `names` that end as segment file names do, in the order
/// in which they stand.
pub open spec fn segment_names(names: Seq<Seq<u8>>) -> Seq<Seq<u8>>
    decreases names.len(),
{
    if names.len() == 0 {
        Seq::empty()
    } else if is_segment_name(names.last()) {
        segment_names(names.drop_last()).push(names.last())
    } else {
        segment_names(names.drop_last())
    }
}

/// The byte strings that a vector of byte vectors holds.
pub open spec fn names_of(list: Seq<Vec<u8>>) -> Seq<Seq<u8>> {
    Seq::new(list.len(), |i: int| list[i]@)
}

/// A name is among the segment names of a list exactly if it is in the list
/// and ends as segment names do; and the segment names of an ascending list
/// ascend.
pub proof fn lemma_segment_names(names: Seq<Seq<u8>>)
    ensures
        forall|n: Seq<u8>| #[trigger]
            segment_names(names).contains(n) <==> names.contains(n) && is_segment_name(n),
        ascending(names) ==> ascending(segment_names(names)),
    decreases names.len(),
{
    if names.len() > 0 {
        let shorter = names.drop_last();
        let last = names.last();
        lemma_segment_names(shorter);
        let sel = segment_names(names);
        let sel_shorter = segment_names(shorter);
        assert forall|n: Seq<u8>| #[trigger] sel.contains(n) <==> names.contains(n)
            && is_segment_name(n) by {
            if sel.contains(n) {
                let i = choose|i: int| 0 <= i < sel.len() && sel[i] == n;
                if is_segment_name(last) && i == sel.len() - 1 {
                    assert(names[names.len() - 1] == n);
                } else {
                    assert(sel_shorter[i] == n);
                    assert(sel_shorter.contains(n));
                    let j = choose|j: int| 0 <= j < shorter.len() && shorter[j] == n;
                    assert(names[j] == n);
                }
            }
            if names.contains(n) && is_segment_name(n) {
                let j = choose|j: int| 0 <= j < names.len() && names[j] == n;
                if j == names.len() - 1 {
                    assert(sel[sel.len() - 1] == n);
                } else {
                    assert(shorter[j] == n);
                    assert(shorter.contains(n));
                    assert(sel_shorter.contains(n));
                    let i = choose|i: int| 0 <= i < sel_shorter.len() && sel_shorter[i] == n;
                    assert(sel[i] == n);
                }
            }
        }
        if ascending(names) {
            assert(ascending(shorter)) by {
                assert forall|i: int, j: int| 0 <= i < j < shorter.len() implies precedes(
                    #[trigger] shorter[i],
                    #[trigger] shorter[j],
                ) by {
                    assert(precedes(names[i], names[j]));
                }
            }
            assert forall|i: int, j: int| 0 <= i < j < sel.len() implies precedes(
                #[trigger] sel[i],
                #[trigger] sel[j],
            ) by {
                if j < sel_shorter.len() {
                    assert(precedes(sel_shorter[i], sel_shorter[j]));
                } else {
                    assert(sel_shorter.contains(sel_shorter[i]));
                    let k = choose|k: int| 0 <= k < shorter.len() && shorter[k] == sel_shorter[i];
                    assert(precedes(names[k], names[names.len() - 1]));
                }
            }
        }
    }
}

/// An ascending list that holds one name and no other is that name alone.
pub proof fn lemma_single_name(names: Seq<Seq<u8>>, only: Seq<u8>)
    requires
        ascending(names),
        forall|n: Seq<u8>| #[trigger] names.contains(n) <==> n == only,
    ensures
        names == seq![only],
{
    assert(names.contains(only));
    if names.len() >= 2 {
        assert(names.contains(names[0]));
        assert(names.contains(names[1]));
        assert(precedes(names[0], names[1]));
        lemma_precedes_irreflexive(only);
    }
    assert(names =~= seq![only]);
}

/// An image of the files of one directory, with the changes made to it.
pub struct Directory {
    files: ByteMap<Vec<u8>>,
    changes: Vec<Change>,
    base: Ghost<Map<Seq<u8>, Seq<u8>>>,
}

impl Directory {
    /// The files: each name with the bytes of its file.
    pub closed spec fn view(&self) -> Map<Seq<u8>, Seq<u8>> {
        Map::new(|n: Seq<u8>| self.files@.contains_key(n), |n: Seq<u8>| self.files@[n]@)
    }

    /// The names of the files, ascending.
    pub closed spec fn names(&self) -> Seq<Seq<u8>> {
        self.files.keys()
    }

    /// The changes made since they were last taken.
    pub closed spec fn pending(&self) -> Seq<ChangeModel> {
        changes_of(self.changes@)
    }

    /// The files as they were when the changes were last taken.
    pub closed spec fn base(&self) -> Map<Seq<u8>, Seq<u8>> {
        self.base@
    }

    /// The invariant of the image: no name occurs twice, and the pending
    /// changes lead from the base to the files.
    pub closed spec fn wf(&self) -> bool {
        &&& self.files.wf()
        &&& self@ == replayed(self.base@, changes_of(self.changes@))
    }

    /// The files are what the pending changes make of the base.
    pub proof fn lemma_pending(&self)
        requires
            self.wf(),
        ensures
            self@ == replayed(self.base(), self.pending()),
    {
    }

    /// The names are the names of the files, each once, in ascending order.
    pub proof fn lemma_names(&self)
        requires
            self.wf(),
        ensures
            ascending(self.names()),
            forall|n: Seq<u8>| #[trigger] self.names().contains(n) <==> self@.contains_key(n),
    {
    }

    /// Every file's length fits in a machine word.
    pub proof fn lemma_sizes(&self)
        ensures
            forall|n: Seq<u8>| #[trigger] self@.contains_key(n) ==> self@[n].len() <= usize::MAX,
    {
        assert forall|n: Seq<u8>| #[trigger] self@.contains_key(n) implies self@[n].len()
            <= usize::MAX by {
            let data = self.files@[n];
            assert(data.len() == data@.len());
        }
    }

    proof fn lemma_record(self, before: Directory, change: Change)
        requires
            before.wf(),
            self.files.wf(),
            self.base@ == before.base@,
            self.changes@ == before.changes@.push(change),
            self@ == applied(before@, change@),
        ensures
            self.wf(),
            self.base() == before.base(),
            self.pending() == before.pending().push(change@),
    {
        assert(changes_of(self.changes@) =~= changes_of(before.changes@).push(change@));
        assert(changes_of(self.changes@).drop_last() =~= changes_of(before.changes@));
    }

    /// A directory without files.
    pub fn new() -> (dir: Self)
        ensures
            dir.wf(),
            dir@ == Map::<Seq<u8>, Seq<u8>>::empty(),
            dir.pending() == Seq::<ChangeModel>::empty(),
            dir.base() == dir@,
    {
        let dir = Directory {
            files: ByteMap::new(),
            changes: Vec::new(),
            base: Ghost(Map::empty()),
        };
        assert(dir@ =~= Map::<Seq<u8>, Seq<u8>>::empty());
        assert(dir.pending() =~= Seq::<ChangeModel>::empty());
        dir
    }

    /// The number of files.
    pub fn len(&self) -> (n: usize)
        ensures
            n == self.names().len(),
            self.wf() ==> n == self@.dom().len(),
    {
        proof {
            if self.wf() {
                assert(self@.dom() =~= self.files@.dom());
            }
        }
        self.files.len()
    }

    /// The name at position `i` of the ascending order.
    pub fn name_at(&self, i: usize) -> (name: &Vec<u8>)
        requires
            i < self.names().len(),
        ensures
            name@ == self.names()[i as int],
    {
        self.files.key_at(i)
    }

    /// Whether a file has this name.
    pub fn contains(&self, name: &[u8]) -> (b: bool)
        requires
            self.wf(),
        ensures
            b == self@.contains_key(name@),
    {
        self.files.contains_key(name)
    }

    /// The bytes of the file with this name.
    pub fn read(&self, name: &[u8]) -> (r: Option<&Vec<u8>>)
        requires
            self.wf(),
        ensures
            match r {
                Some(data) => self@.contains_key(name@) && data@ == self@[name@],
                None => !self@.contains_key(name@),
            },
    {
        self.files.get(name)
    }

    /// Creates the file empty, or empties it if it is there.
    pub fn create(&mut self, name: &[u8])
        requires
            old(self).wf(),
        ensures
            final(self).wf(),
            final(self)@ == old(self)@.insert(name@, Seq::<u8>::empty()),
            final(self).base() == old(self).base(),
            final(self).pending() == old(self).pending().push(ChangeModel::Create(name@)),
    {
        let ghost before = *self;
        self.files.insert(slice_to_vec(name), Vec::new());
        let change = Change::Create(slice_to_vec(name));
        self.changes.push(change);
        proof {
            assert(self@ =~= before@.insert(name@, Seq::<u8>::empty()));
            self.lemma_record(before, change);
        }
    }

    /// Adds `bytes` at the end of the file, creating it if it is not there.
    pub fn append(&mut self, name: &[u8], bytes: &[u8])
        requires
            old(self).wf(),
        ensures
            final(self).wf(),
            final(self)@ == old(self)@.insert(name@, contents(old(self)@, name@) + bytes@),
            final(self).base() == old(self).base(),
            final(self).pending() == old(self).pending().push(ChangeModel::Append(name@, bytes@)),
    {
        let ghost before = *self;
        let mut data: Vec<u8> = match self.files.remove(name) {
            Some(d) => d,
            None => Vec::new(),
        };
        let ghost start = data@;
        data.extend_from_slice(bytes);
        assert(data@ =~= start + bytes@);
        self.files.insert(slice_to_vec(name), data);
        let change = Change::Append(slice_to_vec(name), slice_to_vec(bytes));
        self.changes.push(change);
        proof {
            assert(self@ =~= before@.insert(name@, contents(before@, name@) + bytes@));
            self.lemma_record(before, change);
        }
    }

    /// Gives the file `from` the name `to`, replacing a file of that name.
    /// Returns whether there was a file `from`; if not, nothing changes.
    pub fn rename(&mut self, from: &[u8], to: &[u8]) -> (done: bool)
        requires
            old(self).wf(),
        ensures
            final(self).wf(),
            done == old(self)@.contains_key(from@),
            final(self)@ == (if done {
                old(self)@.remove(from@).insert(to@, old(self)@[from@])
            } else {
                old(self)@
            }),
            final(self).base() == old(self).base(),
            final(self).pending() == (if done {
                old(self).pending().push(ChangeModel::Rename(from@, to@))
            } else {
                old(self).pending()
            }),
    {
        let ghost before = *self;
        match self.files.remove(from) {
            None => {
                assert(self@ =~= before@);
                false
            },
            Some(data) => {
                self.files.insert(slice_to_vec(to), data);
                let change = Change::Rename(slice_to_vec(from), slice_to_vec(to));
                self.changes.push(change);
                proof {
                    assert(self@ =~= before@.remove(from@).insert(to@, before@[from@]));
                    self.lemma_record(before, change);
                }
                true
            },
        }
    }

    /// Deletes the file. Returns whether there was one.
    pub fn remove(&mut self, name: &[u8]) -> (done: bool)
        requires
            old(self).wf(),
        ensures
            final(self).wf(),
            done == old(self)@.contains_key(name@),
            final(self)@ == old(self)@.remove(name@),
            final(self).base() == old(self).base(),
            final(self).pending() == (if done {
                old(self).pending().push(ChangeModel::Remove(name@))
            } else {
                old(self).pending()
            }),
    {
        let ghost before = *self;
        match self.files.remove(name) {
            None => {
                assert(self@ =~= before@);
                assert(before@.remove(name@) =~= before@);
                false
            },
            Some(_) => {
                let change = Change::Remove(slice_to_vec(name));
                self.changes.push(change);
                proof {
                    assert(self@ =~= before@.remove(name@));
                    self.lemma_record(before, change);
                }
                true
            },
        }
    }

    /// Deletes every file.
    pub fn remove_all(&mut self)
        requires
            old(self).wf(),
        ensures
            final(self).wf(),
            final(self)@ == Map::<Seq<u8>, Seq<u8>>::empty(),
            final(self).base() == old(self).base(),
            final(self).pending() == old(self).pending().push(ChangeModel::RemoveAll),
    {
        let ghost before = *self;
        self.files.clear();
        self.changes.push(Change::RemoveAll);
        proof {
            assert(self@ =~= Map::<Seq<u8>, Seq<u8>>::empty());
            self.lemma_record(before, Change::RemoveAll);
        }
    }

    /// Hands on the changes made since this was last called, in the order in
    /// which they were made, and starts anew from the files as they are.
    pub fn take_changes(&mut self) -> (changes: Vec<Change>)
        requires
            old(self).wf(),
        ensures
            final(self).wf(),
            final(self)@ == old(self)@,
            changes_of(changes@) == old(self).pending(),
            replayed(old(self).base(), changes_of(changes@)) == old(self)@,
            final(self).base() == old(self)@,
            final(self).pending() == Seq::<ChangeModel>::empty(),
    {
        let ghost before = *self;
        let mut changes: Vec<Change> = Vec::new();
        std::mem::swap(&mut self.changes, &mut changes);
        self.base = Ghost(before@);
        assert(self@ =~= before@);
        assert(self.pending() =~= Seq::<ChangeModel>::empty());
        changes
    }
}

/// The names of the files that end as segment file names do, ascending. The
/// log and every other file are left out.
pub fn get_store_files(dir: &Directory) -> (list: Vec<Vec<u8>>)
    requires
        dir.wf(),
    ensures
        names_of(list@) == segment_names(dir.names()),
        ascending(names_of(list@)),
        forall|n: Seq<u8>| #[trigger]
            names_of(list@).contains(n) <==> dir@.contains_key(n) && is_segment_name(n),
{
    let mut list: Vec<Vec<u8>> = Vec::new();
    let mut i: usize = 0;
    let count = dir.len();
    assert(dir.names().subrange(0, 0) =~= Seq::<Seq<u8>>::empty());
    assert(names_of(list@) =~= Seq::<Seq<u8>>::empty());
    while i < count
        invariant
            dir.wf(),
            count == dir.names().len(),
            i <= count,
            names_of(list@) == segment_names(dir.names().subrange(0, i as int)),
        decreases count - i,
    {
        let name = dir.name_at(i);
        let ghost before = names_of(list@);
        let ghost seen = dir.names().subrange(0, i as int);
        let ghost seen_more = dir.names().subrange(0, i + 1);
        assert(seen_more.drop_last() =~= seen);
        assert(seen_more.last() == name@);
        if is_store_file(name.as_slice()) {
            list.push(slice_to_vec(name.as_slice()));
            assert(names_of(list@) =~= before.push(name@));
        }
        i += 1;
    }
    proof {
        assert(dir.names().subrange(0, i as int) =~= dir.names());
        dir.lemma_names();
        lemma_segment_names(dir.names());
    }
    list
}

} // verus!
