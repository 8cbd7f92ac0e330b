use vstd::prelude::*;
use crate::ast;
use crate::common::{share_arc, Error, HasId, Identifier, Share};
use crate::finish::unread;
use std::sync::Arc;
use arcstr::ArcStr;

verus! {

#[verifier::external_type_specification]
#[verifier::external_body]
pub struct ExArcStr(ArcStr);

/// The characters an `ArcStr` holds.
pub uninterp spec fn text_of(s: ArcStr) -> Seq<char>;

/// `ArcStr::from(String)`: a shared string holding the same characters. It
/// panics when the byte length comes near `isize::MAX` (a string of `n`
/// characters has at most `4 * n` bytes).
#[verifier::external_body]
fn arcstr_from(s: String) -> (r: ArcStr)
    requires
        4 * s@.len() + 64 <= isize::MAX,
    ensures
        text_of(r) == s@,
{
    ArcStr::from(s)
}

/// `ArcStr::as_str`: the characters it holds.
#[verifier::external_body]
fn arcstr_as_str(s: &ArcStr) -> (r: &str)
    ensures
        r@ == text_of(*s),
{
    s.as_str()
}

/// `ArcStr::clone`: another pointer to the same shared string.
#[verifier::external_body]
fn arcstr_clone(s: &ArcStr) -> (r: ArcStr)
    ensures
        r == *s,
{
    s.clone()
}

/// The text of a program file as it is stored (JSON).
pub struct File {
    json: ArcStr,
}

impl View for File {
    type V = Seq<char>;

    closed spec fn view(&self) -> Seq<char> {
        text_of(self.json)
    }
}

impl File {
    /// A file holding the given text.
    pub fn new(json: String) -> (f: File)
        requires
            4 * json@.len() + 64 <= isize::MAX,
        ensures
            f@ == json@,
    {
        File { json: arcstr_from(json) }
    }

    /// The text of the file.
    pub fn json(&self) -> (r: &str)
        ensures
            r@ == self@,
    {
        arcstr_as_str(&self.json)
    }
}

impl Share for File {
    /// The same text.
    open spec fn same(&self, other: &Self) -> bool {
        self@ == other@
    }

    fn share(&self) -> (r: File) {
        File { json: arcstr_clone(&self.json) }
    }
}

impl HasId for File {
    type Uid = ArcStr;

    /// The shared text itself.
    closed spec fn uid(&self) -> ArcStr {
        self.json
    }

    fn id(&self) -> (r: ArcStr)
        ensures
            text_of(r) == self@,
    {
        arcstr_clone(&self.json)
    }
}

/// The name of the disk file that holds the program named `iden`.
pub fn disk_path(iden: &Identifier) -> (p: String)
    ensures
        p@ == iden@ + ".acd.json"@,
{
    let mut p = iden.value.clone();
    p.append(".acd.json");
    p
}

/// The file system on disk. Reading from it is done by the program around
/// this library.
pub struct DiskFs();

impl HasId for DiskFs {
    type Uid = &'static str;

    /// The root that files are read from.
    open spec fn uid(&self) -> &'static str {
        "/path/to/fs"
    }

    fn id(&self) -> (r: &'static str) {
        "/path/to/fs"
    }
}

/// What a list of `(name, slot)` entries maps each name to: when a name
/// occurs more than once, its last entry counts.
pub open spec fn table(s: Seq<(Identifier, Option<ast::File>)>) -> Map<Seq<char>, Option<ast::File>>
    decreases s.len(),
{
    if s.len() == 0 {
        Map::empty()
    } else {
        table(s.drop_last()).insert(s.last().0@, s.last().1)
    }
}

/// The state of a file system freshly made of the given files: each name is
/// readable and gives back the last file listed under it.
pub open spec fn listing(files: Seq<(Identifier, ast::File)>) -> Map<Seq<char>, Option<ast::File>> {
    table(files.map_values(|p: (Identifier, ast::File)| (p.0, Some(p.1))))
}

/// The entry `j` is the last one under the name `k` in `s`.
pub open spec fn last_under(s: Seq<(Identifier, Option<ast::File>)>, k: Seq<char>, j: int) -> bool {
    &&& 0 <= j < s.len()
    &&& s[j].0@ == k
    &&& forall|i: int| j < i < s.len() ==> s[i].0@ != k
}

proof fn lemma_table_size(s: Seq<(Identifier, Option<ast::File>)>)
    ensures
        table(s).dom().finite(),
        table(s).dom().len() <= s.len(),
    decreases s.len(),
{
    if s.len() > 0 {
        lemma_table_size(s.drop_last());
    }
}

proof fn lemma_table_unread(s: Seq<(Identifier, Option<ast::File>)>)
    requires
        forall|i: int| 0 <= i < s.len() ==> (#[trigger] s[i]).1 is Some,
    ensures
        unread(table(s)),
    decreases s.len(),
{
    if s.len() > 0 {
        assert(s.last().1 is Some);
        lemma_table_unread(s.drop_last());
    }
}

proof fn lemma_table_absent(s: Seq<(Identifier, Option<ast::File>)>, k: Seq<char>)
    requires
        forall|i: int| 0 <= i < s.len() ==> s[i].0@ != k,
    ensures
        !table(s).contains_key(k),
    decreases s.len(),
{
    if s.len() > 0 {
        lemma_table_absent(s.drop_last(), k);
    }
}

proof fn lemma_table_last(s: Seq<(Identifier, Option<ast::File>)>, k: Seq<char>, j: int)
    requires
        last_under(s, k, j),
    ensures
        table(s).contains_key(k),
        table(s)[k] == s[j].1,
    decreases s.len(),
{
    if j < s.len() - 1 {
        lemma_table_last(s.drop_last(), k, j);
    }
}

proof fn lemma_table_update(s: Seq<(Identifier, Option<ast::File>)>, k: Seq<char>, j: int, v: Option<ast::File>)
    requires
        last_under(s, k, j),
    ensures
        table(s.update(j, (s[j].0, v))) == table(s).insert(k, v),
    decreases s.len(),
{
    let t = s.update(j, (s[j].0, v));
    if j == s.len() - 1 {
        assert(t.drop_last() =~= s.drop_last());
        assert(table(t) =~= table(s).insert(k, v));
    } else {
        assert(t.drop_last() =~= s.drop_last().update(j, (s[j].0, v)));
        lemma_table_update(s.drop_last(), k, j, v);
        assert(table(t) =~= table(s).insert(k, v));
    }
}

/// A file system made of a list of files gives back, for each name, the last
/// file listed under it, and has no file for a name that is not listed.
pub proof fn law_listing_lookup(files: Seq<(Identifier, ast::File)>, k: Seq<char>)
    ensures
        (forall|i: int| 0 <= i < files.len() ==> files[i].0@ != k) ==> !listing(files).contains_key(k),
        forall|j: int| 0 <= j < files.len() && files[j].0@ == k
            && (forall|i: int| j < i < files.len() ==> files[i].0@ != k) ==> {
            &&& listing(files).contains_key(k)
            &&& #[trigger] listing(files)[k] == Some(files[j].1)
        },
{
    let s = files.map_values(|p: (Identifier, ast::File)| (p.0, Some(p.1)));
    if forall|i: int| 0 <= i < files.len() ==> files[i].0@ != k {
        assert forall|i: int| 0 <= i < s.len() implies s[i].0@ != k by {
            assert(files[i].0@ != k);
        }
        lemma_table_absent(s, k);
    }
    assert forall|j: int| 0 <= j < files.len() && files[j].0@ == k
        && (forall|i: int| j < i < files.len() ==> files[i].0@ != k) implies {
        &&& listing(files).contains_key(k)
        &&& #[trigger] listing(files)[k] == Some(files[j].1)
    } by {
        assert forall|i: int| j < i < s.len() implies s[i].0@ != k by {
            assert(files[i].0@ != k);
        }
        lemma_table_last(s, k, j);
    }
}

/// The files a mock file system is made with, in the order they were
/// listed, shared.
pub type Listing = Arc<Vec<(Identifier, Arc<ast::File>)>>;

/// A file system held in memory. Each file can be read once: a read takes the
/// file out, and reading it again is a bug of the caller.
pub struct MockFs {
    files: Listing,
    taken: Vec<bool>,
}

impl MockFs {
    /// Every listed file has a flag that tells whether it was read.
    #[verifier::type_invariant]
    spec fn flags_match(&self) -> bool {
        self.taken@.len() == self.files@.len()
    }

    /// The files the file system was made with, in the order they were listed.
    pub closed spec fn listed(&self) -> Seq<(Identifier, ast::File)> {
        self.files@.map_values(|p: (Identifier, Arc<ast::File>)| (p.0, *p.1))
    }

    /// Each listed name with its file while it is there, or `None` once read.
    spec fn slots(&self) -> Seq<(Identifier, Option<ast::File>)> {
        Seq::new(
            self.files@.len(),
            |i: int| (self.files@[i].0, if i < self.taken@.len() && self.taken@[i] {
                None
            } else {
                Some(*self.files@[i].1)
            }),
        )
    }

    /// It holds finitely many names.
    pub proof fn lemma_finite(&self)
        ensures
            self@.dom().finite(),
    {
        lemma_table_size(self.slots());
    }
}

impl View for MockFs {
    /// Each name maps to `Some(file)` while the file is there to be read, and
    /// to `None` once it has been read; a name that is absent has no file.
    type V = Map<Seq<char>, Option<ast::File>>;

    closed spec fn view(&self) -> Map<Seq<char>, Option<ast::File>> {
        table(self.slots())
    }
}

impl MockFs {
    /// A file system holding the given files, none of them read yet.
    pub fn new(files: Vec<(Identifier, ast::File)>) -> (fs: MockFs)
        ensures
            fs@ == listing(files@),
            fs.listed() == files@,
            fs@.dom().finite(),
            fs@.dom().len() <= files@.len(),
            unread(fs@),
    {
        let ghost all = files@;
        let mut files = files;
        let mut listed: Vec<(Identifier, Arc<ast::File>)> = Vec::new();
        let mut taken: Vec<bool> = Vec::new();
        while files.len() > 0
            invariant
                listed@.len() + files@.len() == all.len(),
                taken@.len() == listed@.len(),
                files@ =~= all.subrange(listed@.len() as int, all.len() as int),
                forall|i: int| 0 <= i < listed@.len() ==> #[trigger] listed@[i].0 == all[i].0 && *listed@[i].1 == all[i].1,
                forall|i: int| 0 <= i < taken@.len() ==> !#[trigger] taken@[i],
            decreases files@.len(),
        {
            let (iden, file) = files.remove(0);
            listed.push((iden, Arc::new(file)));
            taken.push(false);
        }
        let fs = MockFs { files: Arc::new(listed), taken };
        assert(fs.listed() =~= all);
        assert(fs.slots() =~= all.map_values(|p: (Identifier, ast::File)| (p.0, Some(p.1))));
        proof {
            lemma_table_size(fs.slots());
            lemma_table_unread(fs.slots());
        }
        fs
    }
}

impl MockFs {
    /// The number of files it was made with, which bounds the number of
    /// names it has.
    pub fn count(&self) -> (n: usize)
        ensures
            n == self.listed().len(),
            self@.dom().finite(),
            self@.dom().len() <= n,
    {
        proof { lemma_table_size(self.slots()); }
        self.files.len()
    }
}

impl HasId for MockFs {
    type Uid = Listing;

    /// The files it was made with.
    closed spec fn uid(&self) -> Listing {
        self.files
    }

    fn id(&self) -> (r: Listing) {
        share_arc(&self.files)
    }
}

/// The id of an in-memory file system names exactly the files it was made
/// with: file systems with equal ids were made with the same files, so ones
/// made with different files have different ids.
pub proof fn law_mock_id(a: MockFs, b: MockFs)
    ensures
        a.uid() == b.uid() ==> a.listed() == b.listed(),
{
}

/// A place that programs are read from, by name.
pub trait Fs {
    /// A read of this name is allowed in this state.
    spec fn readable(&self, iden: Seq<char>) -> bool;

    /// Reads the program stored under the name.
    fn read(&mut self, iden: &Identifier) -> (r: Result<Arc<ast::File>, Error>)
        requires
            old(self).readable(iden@),
        ensures
            r is Err ==> r == Err::<Arc<ast::File>, Error>(Error::FileNotFound(*iden)),
    ;
}

impl Fs for MockFs {
    /// Reading is allowed unless the file was read before.
    open spec fn readable(&self, iden: Seq<char>) -> bool {
        self@.get(iden) != Some(Option::<ast::File>::None)
    }

    fn read(&mut self, iden: &Identifier) -> (r: Result<Arc<ast::File>, Error>)
        ensures
            !old(self)@.contains_key(iden@) ==> r == Err::<Arc<ast::File>, Error>(Error::FileNotFound(*iden)) && final(self)@ == old(self)@,
            old(self)@.contains_key(iden@) ==> (r matches Ok(f) && *f == old(self)@[iden@].unwrap()) && final(self)@ == old(self)@.insert(iden@, None),
            final(self).listed() == old(self).listed(),
            final(self).uid() == old(self).uid(),
    {
        proof { use_type_invariant(&*self); }
        let mut j = self.files.len();
        while j > 0
            invariant
                j <= self.files@.len(),
                self.files == old(self).files,
                self.taken == old(self).taken,
                self.files@.len() == self.taken@.len(),
                table(self.slots()).get(iden@) != Some(Option::<ast::File>::None),
                forall|i: int| j <= i < self.files@.len() ==> self.files@[i].0@ != iden@,
            decreases j,
        {
            if self.files[j - 1].0.value == iden.value {
                let k = j - 1;
                proof {
                    lemma_table_last(self.slots(), iden@, k as int);
                    lemma_table_update(self.slots(), iden@, k as int, None);
                }
                let ghost before = self.slots();
                let mut flags = self.taken.clone();
                assert(flags@ =~= self.taken@);
                flags.set(k, true);
                self.taken = flags;
                assert(self.slots() =~= before.update(k as int, (before[k as int].0, None)));
                return Ok(share_arc(&self.files[k].1));
            }
            j -= 1;
        }
        proof { lemma_table_absent(self.slots(), iden@); }
        Err(Error::FileNotFound(iden.clone()))
    }
}

} // verus!
