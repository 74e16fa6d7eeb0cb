//! A snapshot of one test directory: its source files, the artifacts of the
//! last run and the accepted golden files, all held as plain text.

use crate::order::views;
use crate::text::equal;
use vstd::prelude::*;
use vstd::string::*;

verus! {

/// A file as the library sees it: a name inside its store and its text.
/// A file that cannot be read as text has empty content.
#[derive(Clone, Debug, PartialEq, Eq)]
pub struct Artifact {
    pub name: String,
    pub content: String,
}

/// The mathematical value of an [`Artifact`].
pub ghost struct FileView {
    pub name: Seq<char>,
    pub content: Seq<char>,
}

impl View for Artifact {
    type V = FileView;

    open spec fn view(&self) -> FileView {
        FileView { name: self.name@, content: self.content@ }
    }
}

/// No two files of `files` share a name.
pub open spec fn names_distinct(files: Seq<FileView>) -> bool {
    forall|i: int, j: int| 0 <= i < j < files.len() ==> files[i].name != files[j].name
}

/// `i` is the first index in `files` of a file called `name`.
pub open spec fn first_at(files: Seq<FileView>, name: Seq<char>, i: int) -> bool {
    &&& 0 <= i < files.len()
    &&& files[i].name == name
    &&& forall|j: int| 0 <= j < i ==> files[j].name != name
}

/// The first index in `files` of a file called `name`, if there is one.
pub open spec fn position(files: Seq<FileView>, name: Seq<char>) -> Option<int> {
    if exists|i: int| first_at(files, name, i) {
        Some(choose|i: int| first_at(files, name, i))
    } else {
        None
    }
}

/// The text of the file called `name`, if `files` holds one.
pub open spec fn lookup(files: Seq<FileView>, name: Seq<char>) -> Option<Seq<char>> {
    match position(files, name) {
        Some(i) => Some(files[i].content),
        None => None,
    }
}

/// `files` after writing `content` to the file called `name`: an existing
/// file keeps its place, a new one goes to the end.
pub open spec fn with_file(files: Seq<FileView>, name: Seq<char>, content: Seq<char>) -> Seq<
    FileView,
> {
    match position(files, name) {
        Some(i) => files.update(i, FileView { name, content }),
        None => files.push(FileView { name, content }),
    }
}

/// `files` after deleting the file called `name`.
pub open spec fn without_file(files: Seq<FileView>, name: Seq<char>) -> Seq<FileView> {
    match position(files, name) {
        Some(i) => files.remove(i),
        None => files,
    }
}

/// The first index of a name is the only index that meets `first_at`.
pub proof fn lemma_position(files: Seq<FileView>, name: Seq<char>, i: int)
    requires
        first_at(files, name, i),
    ensures
        position(files, name) == Some(i),
{
    let k = choose|k: int| first_at(files, name, k);
    assert(first_at(files, name, k));
    if k < i {
        assert(files[k].name != name);
    }
    if i < k {
        assert(files[i].name != name);
    }
}

/// A name that no file carries has no position.
pub proof fn lemma_position_none(files: Seq<FileView>, name: Seq<char>)
    requires
        forall|j: int| 0 <= j < files.len() ==> files[j].name != name,
    ensures
        position(files, name) is None,
{
}

/// If some file carries the name, the name has a position.
pub proof fn lemma_position_some(files: Seq<FileView>, name: Seq<char>, k: int)
    requires
        0 <= k < files.len(),
        files[k].name == name,
    ensures
        position(files, name) is Some,
        first_at(files, name, position(files, name)->0),
        names_distinct(files) ==> position(files, name) == Some(k),
    decreases k,
{
    if forall|j: int| 0 <= j < k ==> files[j].name != name {
        assert(first_at(files, name, k));
        lemma_position(files, name, k);
    } else {
        let j = choose|j: int| 0 <= j < k && files[j].name == name;
        lemma_position_some(files, name, j);
    }
}

/// Writing a file makes it readable under its name, leaves every other name
/// as it was, and keeps names distinct.
pub proof fn lemma_with_file(
    files: Seq<FileView>,
    name: Seq<char>,
    content: Seq<char>,
    other: Seq<char>,
)
    requires
        names_distinct(files),
    ensures
        names_distinct(with_file(files, name, content)),
        lookup(with_file(files, name, content), name) == Some(content),
        other != name ==> lookup(with_file(files, name, content), other) == lookup(files, other),
{
    let after = with_file(files, name, content);
    match position(files, name) {
        Some(i) => {
            assert(first_at(files, name, i));
            assert(first_at(after, name, i));
            lemma_position(after, name, i);
        },
        None => {
            assert forall|j: int| 0 <= j < files.len() implies files[j].name != name by {
                if files[j].name == name {
                    lemma_position_some(files, name, j);
                }
            }
            assert(first_at(after, name, files.len() as int));
            lemma_position(after, name, files.len() as int);
        },
    }
    if other != name {
        lemma_same_names_same_position(files, after, other);
    }
}

/// Deleting a file leaves no file under its name, leaves every other name as
/// it was, and keeps names distinct.
pub proof fn lemma_without_file(files: Seq<FileView>, name: Seq<char>, other: Seq<char>)
    requires
        names_distinct(files),
    ensures
        names_distinct(without_file(files, name)),
        lookup(without_file(files, name), name) is None,
        other != name ==> lookup(without_file(files, name), other) == lookup(files, other),
{
    let after = without_file(files, name);
    match position(files, name) {
        Some(i) => {
            assert(first_at(files, name, i));
            assert forall|j: int| 0 <= j < after.len() implies after[j].name != name by {
                if j < i {
                    assert(after[j] == files[j]);
                } else {
                    assert(after[j] == files[j + 1]);
                }
            }
            lemma_position_none(after, name);
            if other != name {
                match position(files, other) {
                    Some(k) => {
                        assert(first_at(files, other, k));
                        let k2 = if k < i {
                            k
                        } else {
                            k - 1
                        };
                        assert(after[k2] == files[k]);
                        assert forall|j: int| 0 <= j < k2 implies after[j].name != other by {
                            if j < i {
                                assert(after[j] == files[j]);
                            } else {
                                assert(after[j] == files[j + 1]);
                            }
                        }
                        assert(first_at(after, other, k2));
                        lemma_position(after, other, k2);
                    },
                    None => {
                        assert forall|j: int| 0 <= j < after.len() implies after[j].name
                            != other by {
                            let src = if j < i {
                                j
                            } else {
                                j + 1
                            };
                            assert(after[j] == files[src]);
                            if files[src].name == other {
                                lemma_position_some(files, other, src);
                            }
                        }
                        lemma_position_none(after, other);
                    },
                }
            }
        },
        None => {},
    }
}

/// Two listings that agree on where `name` may stand agree on its position
/// and text, when they differ only in files of other names.
proof fn lemma_same_names_same_position(before: Seq<FileView>, after: Seq<FileView>, name: Seq<char>)
    requires
        before.len() <= after.len(),
        forall|j: int| 0 <= j < before.len() && before[j].name == name ==> after[j] == before[j],
        forall|j: int| 0 <= j < before.len() && after[j].name == name ==> after[j] == before[j],
        forall|j: int| before.len() <= j < after.len() ==> after[j].name != name,
    ensures
        lookup(after, name) == lookup(before, name),
{
    match position(before, name) {
        Some(k) => {
            assert(first_at(before, name, k));
            assert(first_at(after, name, k));
            lemma_position(after, name, k);
        },
        None => {
            assert forall|j: int| 0 <= j < after.len() implies after[j].name != name by {
                if j < before.len() && after[j].name == name {
                    lemma_position_some(before, name, j);
                }
            }
            lemma_position_none(after, name);
        },
    }
}

/// A set of named text files without duplicates, in a fixed order: one
/// directory's worth of artifacts or golden files.
#[derive(Debug)]
pub struct FileStore {
    files: Vec<Artifact>,
}

impl View for FileStore {
    type V = Seq<FileView>;

    closed spec fn view(&self) -> Seq<FileView> {
        self.files@.map_values(|a: Artifact| a@)
    }
}

impl Clone for FileStore {
    fn clone(&self) -> (copy: FileStore)
        ensures
            copy@ == self@,
    {
        proof {
            use_type_invariant(self);
        }
        let mut files: Vec<Artifact> = Vec::new();
        let mut i: usize = 0;
        while i < self.files.len()
            invariant
                i <= self.files.len(),
                files@.map_values(|a: Artifact| a@) == self@.take(i as int),
            decreases self.files.len() - i,
        {
            let file = Artifact {
                name: self.files[i].name.clone(),
                content: self.files[i].content.clone(),
            };
            files.push(file);
            assert(files@.map_values(|a: Artifact| a@) =~= self@.take(i as int).push(
                self@[i as int],
            ));
            assert(self@.take(i + 1) =~= self@.take(i as int).push(self@[i as int]));
            i = i + 1;
        }
        assert(self@.take(i as int) =~= self@);
        FileStore { files }
    }
}

impl FileStore {
    #[verifier::type_invariant]
    spec fn distinct(self) -> bool {
        names_distinct(self@)
    }

    /// A store without files.
    pub fn new() -> (store: FileStore)
        ensures
            store@ == Seq::<FileView>::empty(),
    {
        let store = FileStore { files: Vec::new() };
        assert(store@ =~= Seq::<FileView>::empty());
        store
    }

    /// The number of files. No two of them share a name.
    pub fn len(&self) -> (n: usize)
        ensures
            n == self@.len(),
            names_distinct(self@),
    {
        proof {
            use_type_invariant(self);
        }
        self.files.len()
    }

    /// The file at index `i`.
    pub fn file(&self, i: usize) -> (a: &Artifact)
        requires
            i < self@.len(),
        ensures
            a@ == self@[i as int],
    {
        &self.files[i]
    }

    /// The index of the file called `name`.
    pub fn find(&self, name: &str) -> (r: Option<usize>)
        ensures
            r is Some <==> position(self@, name@) is Some,
            r matches Some(i) ==> position(self@, name@) == Some(i as int),
    {
        let mut i: usize = 0;
        while i < self.files.len()
            invariant
                i <= self.files.len(),
                forall|j: int| 0 <= j < i ==> self@[j].name != name@,
            decreases self.files.len() - i,
        {
            if equal(self.files[i].name.as_str(), name) {
                proof {
                    lemma_position(self@, name@, i as int);
                }
                return Some(i);
            }
            i = i + 1;
        }
        proof {
            lemma_position_none(self@, name@);
        }
        None
    }

    /// The text of the file called `name`.
    pub fn get(&self, name: &str) -> (r: Option<&String>)
        ensures
            r is Some <==> lookup(self@, name@) is Some,
            r matches Some(text) ==> lookup(self@, name@) == Some(text@),
    {
        match self.find(name) {
            Some(i) => Some(&self.files[i].content),
            None => None,
        }
    }

    /// Writes `content` to the file called `name`, creating it if need be.
    pub fn put(&mut self, name: String, content: String)
        ensures
            final(self)@ == with_file(old(self)@, name@, content@),
    {
        proof {
            use_type_invariant(&*self);
            lemma_with_file(self@, name@, content@, name@);
        }
        let found = self.find(name.as_str());
        let ghost before = self@;
        let file = Artifact { name, content };
        let mut files: Vec<Artifact> = Vec::new();
        std::mem::swap(&mut self.files, &mut files);
        match found {
            Some(i) => {
                files.set(i, file);
                assert(files@.map_values(|a: Artifact| a@) =~= before.update(i as int, file@));
            },
            None => {
                files.push(file);
                assert(files@.map_values(|a: Artifact| a@) =~= before.push(file@));
            },
        }
        std::mem::swap(&mut self.files, &mut files);
    }

    /// Deletes the file called `name`, if there is one.
    pub fn remove(&mut self, name: &str)
        ensures
            final(self)@ == without_file(old(self)@, name@),
    {
        proof {
            use_type_invariant(&*self);
            lemma_without_file(self@, name@, name@);
        }
        let found = self.find(name);
        let ghost before = self@;
        match found {
            Some(i) => {
                let mut files: Vec<Artifact> = Vec::new();
                std::mem::swap(&mut self.files, &mut files);
                files.remove(i);
                assert(files@.map_values(|a: Artifact| a@) =~= before.remove(i as int));
                std::mem::swap(&mut self.files, &mut files);
            },
            None => {},
        }
    }
}

/// What is known of one test directory: the files directly inside it, the
/// artifacts of the last run, and the golden files.
#[derive(Clone, Debug)]
pub struct DirSnapshot {
    /// The directory's path.
    pub dir: String,
    /// The names of the files directly inside the directory.
    pub sources: Vec<String>,
    /// The artifact store; `None` when nothing has been run there yet.
    pub out: Option<FileStore>,
    /// The golden store; empty when the directory has none.
    pub golden: FileStore,
}

/// The mathematical value of a [`DirSnapshot`].
pub ghost struct DirView {
    pub dir: Seq<char>,
    pub sources: Seq<Seq<char>>,
    pub out: Option<Seq<FileView>>,
    pub golden: Seq<FileView>,
}

impl View for DirSnapshot {
    type V = DirView;

    open spec fn view(&self) -> DirView {
        DirView {
            dir: self.dir@,
            sources: views(self.sources@),
            out: match self.out {
                Some(store) => Some(store@),
                None => None,
            },
            golden: self.golden@,
        }
    }
}

/// Names are distinct within each store of the directory.
pub open spec fn stores_distinct(d: DirView) -> bool {
    &&& names_distinct(d.golden)
    &&& d.out matches Some(out) ==> names_distinct(out)
}

} // verus!
