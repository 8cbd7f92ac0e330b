use vstd::prelude::*;
use std::sync::Arc;
use crate::ast;
use crate::cache::{share_entry, Cache, Entry, MAX_SLOTS};
use crate::common::{share_arc, Error, HasId, Identifier};
use crate::file::{DiskFs, File, Fs, Listing, MockFs};

verus! {

/// The state of a file system: each name maps to `Some(file)` while the file
/// can be read, and to `None` once it has been read.
pub type FsState = Map<Seq<char>, Option<ast::File>>;

/// Where a core reads its files from.
pub trait Mode {
    type FsType: HasId;
}

/// Reading from the disk.
pub struct Prod {}

impl Mode for Prod {
    type FsType = DiskFs;
}

/// Reading from memory.
pub struct Test {}

impl Mode for Test {
    type FsType = MockFs;
}

/// A file system with a cache in front of it, so that every file is read from
/// it at most once, however often it is asked for.
pub struct Core {
    fs: MockFs,
    files: Cache,
    asts: Cache,
    source: Ghost<FsState>,
    parsed: Ghost<Map<(Seq<char>, Seq<char>), Entry>>,
}

/// The characters of `name`, each one preceded by `'1'`.
pub open spec fn escaped(name: Seq<char>) -> Seq<char>
    decreases name.len(),
{
    if name.len() == 0 {
        Seq::empty()
    } else {
        escaped(name.drop_last()) + seq!['1', name.last()]
    }
}

/// The key under which the parse of `text`, read from the file named `name`,
/// is cached: the escaped name, a `'0'`, then the text.
pub open spec fn parse_key(name: Seq<char>, text: Seq<char>) -> Seq<char> {
    escaped(name) + seq!['0'] + text
}

/// Places `2 * i` and `2 * i + 1` of `e` hold `'1'` and the character at
/// place `i` of `name`.
spec fn escapes_at(e: Seq<char>, name: Seq<char>, i: int) -> bool {
    e[2 * i] == '1' && e[2 * i + 1] == name[i]
}

/// In an escaped name, the even places hold `'1'` and the odd ones the
/// characters of the name.
proof fn lemma_escaped(name: Seq<char>)
    ensures
        escaped(name).len() == 2 * name.len(),
        forall|i: int| 0 <= i < name.len() ==> #[trigger] escapes_at(escaped(name), name, i),
    decreases name.len(),
{
    if name.len() > 0 {
        let front = name.drop_last();
        lemma_escaped(front);
        let e = escaped(front);
        let t = seq!['1', name.last()];
        assert(escaped(name) == e + t);
        assert forall|i: int| 0 <= i < name.len() implies #[trigger] escapes_at(escaped(name), name, i) by {
            if i < front.len() {
                assert(escapes_at(e, front, i));
                assert((e + t)[2 * i] == e[2 * i]);
                assert((e + t)[2 * i + 1] == e[2 * i + 1]);
            } else {
                assert((e + t)[2 * i] == t[0]);
                assert((e + t)[2 * i + 1] == t[1]);
            }
        }
    }
}

/// Two parses share a cache key only when they are of the same text read from
/// the same name.
pub proof fn law_parse_key_distinct(name1: Seq<char>, text1: Seq<char>, name2: Seq<char>, text2: Seq<char>)
    ensures
        parse_key(name1, text1) == parse_key(name2, text2) ==> name1 == name2 && text1 == text2,
{
    if parse_key(name1, text1) == parse_key(name2, text2) {
        let k = parse_key(name1, text1);
        lemma_escaped(name1);
        lemma_escaped(name2);
        assert forall|j: int| 0 <= j < escaped(name1).len() implies #[trigger] k[j] == escaped(name1)[j] by {
            assert((escaped(name1) + seq!['0'] + text1)[j] == (escaped(name1) + seq!['0'])[j]);
        }
        assert forall|j: int| 0 <= j < escaped(name2).len() implies #[trigger] parse_key(name2, text2)[j] == escaped(name2)[j] by {
            assert((escaped(name2) + seq!['0'] + text2)[j] == (escaped(name2) + seq!['0'])[j]);
        }
        if name1.len() < name2.len() {
            assert(k[2 * name1.len() as int] == '0');
            assert(escapes_at(escaped(name2), name2, name1.len() as int));
            assert(parse_key(name2, text2)[2 * name1.len() as int] == '1');
        } else if name2.len() < name1.len() {
            assert(parse_key(name2, text2)[2 * name2.len() as int] == '0');
            assert(escapes_at(escaped(name1), name1, name2.len() as int));
            assert(k[2 * name2.len() as int] == '1');
        } else {
            assert forall|i: int| 0 <= i < name1.len() implies name1[i] == name2[i] by {
                assert(escapes_at(escaped(name1), name1, i));
                assert(escapes_at(escaped(name2), name2, i));
                assert(k[2 * i + 1] == parse_key(name2, text2)[2 * i + 1]);
            }
            assert(name1 =~= name2);
            let n: int = 2 * name1.len() as int + 1;
            assert(k.len() == n + text1.len());
            assert(parse_key(name2, text2).len() == n + text2.len());
            assert forall|j: int| 0 <= j < text1.len() implies text1[j] == text2[j] by {
                assert(k[n + j] == text1[j]);
                assert(parse_key(name2, text2)[n + j] == text2[j]);
            }
            assert(text1 =~= text2);
        }
    }
}

/// The cache key of the parse of `text` read from the file named `name`.
fn parse_key_of(name: &Identifier, text: &File) -> (k: String)
    ensures
        k@ == parse_key(name@, text@),
{
    let s = name.value.as_str();
    let n = s.unicode_len();
    let mut k = String::new();
    let mut i: usize = 0;
    while i < n
        invariant
            s@ == name@,
            n == name@.len(),
            i <= n,
            k@ == escaped(name@.take(i as int)),
        decreases n - i,
    {
        let c = s.substring_char(i, i + 1);
        k.append("1");
        k.append(c);
        proof {
            reveal_strlit("1");
            assert(name@.take(i + 1).drop_last() =~= name@.take(i as int));
            assert(k@ =~= escaped(name@.take(i + 1)));
        }
        i += 1;
    }
    k.append("0");
    k.append(text.json());
    proof {
        reveal_strlit("0");
        assert(name@.take(n as int) =~= name@);
        assert(k@ =~= parse_key(name@, text@));
    }
    k
}

impl Core {
    /// The state the file system was in when the core was made.
    pub closed spec fn source(&self) -> FsState {
        self.source@
    }

    /// The state the file system is in now.
    pub closed spec fn fs_state(&self) -> FsState {
        self.fs@
    }

    /// The names whose files were read through this core.
    pub closed spec fn taken(&self) -> Set<Seq<char>> {
        self.files@.dom().intersect(self.source@.dom())
    }

    /// The names that were asked for through this core and found missing.
    pub closed spec fn missing(&self) -> Set<Seq<char>> {
        self.files@.dom().difference(self.source@.dom())
    }

    /// The cache can take a missing name and still every file the file
    /// system was made with.
    pub closed spec fn has_room(&self) -> bool {
        self.files.size() + 1 + self.fs.listed().len() < MAX_SLOTS
    }

    /// The programs parsed through this core, by the name of the file and the
    /// text they were parsed from.
    pub closed spec fn parsed(&self) -> Map<(Seq<char>, Seq<char>), Entry> {
        self.parsed@
    }

    /// The number of parses that are cached.
    pub closed spec fn parsed_size(&self) -> nat {
        self.asts.size()
    }

    /// The number of names whose read is cached.
    pub closed spec fn read_size(&self) -> nat {
        self.files.size()
    }

    /// The id of the file system the core reads from.
    pub closed spec fn fs_uid(&self) -> Listing {
        self.fs.uid()
    }

    pub closed spec fn wf(&self) -> bool {
        &&& self.asts.wf()
        &&& self.files.wf()
        &&& self.parsed@.dom().finite()
        &&& self.parsed@.dom().len() == self.asts.size()
        &&& forall|n: Seq<char>, t: Seq<char>|
            #![trigger self.parsed@.contains_key((n, t))]
            #![trigger self.asts@.contains_key(parse_key(n, t))]
            self.parsed@.contains_key((n, t)) <==> self.asts@.contains_key(parse_key(n, t))
        &&& forall|n: Seq<char>, t: Seq<char>| #[trigger] self.parsed@.contains_key((n, t))
            ==> self.parsed@[(n, t)] == self.asts@[parse_key(n, t)]
        &&& self.source@.dom().finite()
        &&& self.files.size() + self.source@.dom().difference(self.files@.dom()).len() < MAX_SLOTS
        &&& self.fs@.dom() == self.source@.dom()
        &&& forall|k: Seq<char>| #[trigger] self.files@.contains_key(k) ==> if self.source@.contains_key(k) {
            &&& self.source@[k] is Some
            &&& self.files@[k] matches Ok(f) && *f == self.source@[k].unwrap()
        } else {
            self.files@[k] is Err
        }
        &&& forall|k: Seq<char>| #[trigger] self.source@.contains_key(k) ==>
            self.fs@[k] == if self.files@.contains_key(k) { None } else { self.source@[k] }
    }

    /// Reading through the core has so far taken exactly the files in
    /// `taken()` out of the file system.
    pub proof fn lemma_fs_state(&self)
        requires
            self.wf(),
        ensures
            self.fs_state().dom() == self.source().dom(),
            self.taken().subset_of(self.source().dom()),
            forall|k: Seq<char>| self.source().contains_key(k) ==>
                #[trigger] self.fs_state()[k] == if self.taken().contains(k) { None } else { self.source()[k] },
    {
    }

    /// A file read through the core is gone from the file system, while the
    /// core keeps answering with it: the file system is asked for each file
    /// at most once.
    pub proof fn law_read_once(&self, k: Seq<char>)
        requires
            self.wf(),
            self.taken().contains(k),
        ensures
            self.fs_state()[k] == Option::<ast::File>::None,
            self.source()[k] is Some,
    {
    }

    /// The caches hold one entry per name that was asked for and one per
    /// parse: a name is either taken or missing, never both.
    pub proof fn lemma_sizes(&self)
        requires
            self.wf(),
        ensures
            self.taken().finite(),
            self.missing().finite(),
            self.taken().disjoint(self.missing()),
            self.read_size() == self.taken().len() + self.missing().len(),
            self.parsed().dom().finite(),
            self.parsed().dom().len() == self.parsed_size(),
    {
        self.files.lemma_size();
        let dom = self.files@.dom();
        vstd::set_lib::lemma_len_subset(self.taken(), dom);
        vstd::set_lib::lemma_len_subset(self.missing(), dom);
        assert(self.taken() + self.missing() =~= dom);
        vstd::set_lib::lemma_set_disjoint_lens(self.taken(), self.missing());
    }

    /// A core in front of the given file system, with nothing read yet.
    pub fn new(fs: MockFs) -> (c: Core)
        requires
            fs@.dom().len() < MAX_SLOTS,
        ensures
            c.wf(),
            c.source() == fs@,
            c.fs_state() == fs@,
            c.fs_uid() == fs.uid(),
            c.taken() == Set::<Seq<char>>::empty(),
            c.missing() == Set::<Seq<char>>::empty(),
            c.read_size() == 0,
            c.parsed() == Map::<(Seq<char>, Seq<char>), Entry>::empty(),
            c.parsed_size() == 0,
    {
        let ghost source = fs@;
        proof { fs.lemma_finite(); }
        let c = Core {
            fs,
            files: Cache::new(),
            asts: Cache::new(),
            source: Ghost(source),
            parsed: Ghost(Map::empty()),
        };
        assert(c.files@.dom() =~= Set::<Seq<char>>::empty());
        assert(source.dom().difference(c.files@.dom()) =~= source.dom());
        assert(c.taken() =~= Set::<Seq<char>>::empty());
        assert(c.missing() =~= Set::<Seq<char>>::empty());
        c
    }

    /// Hands back the file system.
    pub fn into_fs(self) -> (fs: MockFs)
        requires
            self.wf(),
        ensures
            fs@ == self.fs_state(),
            fs.uid() == self.fs_uid(),
    {
        self.fs
    }

    /// Parses `content`, the text of the file named `iden`, with `parse`,
    /// unless the same text of the same name was parsed before: then the
    /// earlier result is returned and `parse` is not used. Results are cached
    /// while the cache has room.
    pub fn parse<F: Fn(&Identifier, &File) -> Entry>(&mut self, iden: &Identifier, content: &File, parse: F) -> (r: Entry)
        requires
            old(self).wf(),
            parse.requires((iden, content)),
        ensures
            final(self).wf(),
            final(self).source() == old(self).source(),
            final(self).fs_state() == old(self).fs_state(),
            final(self).fs_uid() == old(self).fs_uid(),
            final(self).taken() == old(self).taken(),
            final(self).missing() == old(self).missing(),
            final(self).read_size() == old(self).read_size(),
            old(self).parsed().contains_key((iden@, content@)) ==> {
                &&& r == old(self).parsed()[(iden@, content@)]
                &&& final(self).parsed() == old(self).parsed()
                &&& final(self).parsed_size() == old(self).parsed_size()
            },
            !old(self).parsed().contains_key((iden@, content@)) ==> {
                &&& parse.ensures((iden, content), r)
                &&& final(self).parsed() == if old(self).parsed_size() < MAX_SLOTS {
                    old(self).parsed().insert((iden@, content@), r)
                } else {
                    old(self).parsed()
                }
                &&& final(self).parsed_size() == if old(self).parsed_size() < MAX_SLOTS {
                    old(self).parsed_size() + 1
                } else {
                    old(self).parsed_size()
                }
            },
    {
        let key = parse_key_of(iden, content);
        let ghost p = (iden@, content@);
        match self.asts.find(&key) {
            Some(entry) => {
                assert(self.parsed@.contains_key(p));
                share_entry(entry)
            },
            None => {
                assert(!self.parsed@.contains_key(p));
                let entry = parse(iden, content);
                if self.asts.len() < MAX_SLOTS {
                    let kept = share_entry(&entry);
                    self.asts.insert(key, kept);
                    proof {
                        self.parsed@ = self.parsed@.insert(p, entry);
                        assert forall|n: Seq<char>, t: Seq<char>|
                            #![trigger self.parsed@.contains_key((n, t))]
                            #![trigger self.asts@.contains_key(parse_key(n, t))]
                            self.parsed@.contains_key((n, t)) <==> self.asts@.contains_key(parse_key(n, t)) by {
                            law_parse_key_distinct(n, t, iden@, content@);
                            assert(old(self).parsed@.contains_key((n, t)) <==> old(self).asts@.contains_key(parse_key(n, t)));
                        }
                        assert forall|n: Seq<char>, t: Seq<char>| #[trigger] self.parsed@.contains_key((n, t))
                            implies self.parsed@[(n, t)] == self.asts@[parse_key(n, t)] by {
                            law_parse_key_distinct(n, t, iden@, content@);
                            if (n, t) != p {
                                assert(old(self).parsed@.contains_key((n, t)));
                            }
                        }
                    }
                }
                entry
            },
        }
    }

    /// Reads a file, from the cache when it was asked for before, and from
    /// the file system otherwise. A missing file is cached as missing while
    /// the cache has room to spare for every file the file system could
    /// still give.
    pub fn read(&mut self, iden: &Identifier) -> (r: Result<Arc<ast::File>, Error>)
        requires
            old(self).wf(),
            old(self).source().get(iden@) != Some(Option::<ast::File>::None),
        ensures
            final(self).wf(),
            final(self).source() == old(self).source(),
            !old(self).source().contains_key(iden@) ==> {
                &&& r == Err::<Arc<ast::File>, Error>(Error::FileNotFound(*iden))
                &&& final(self).taken() == old(self).taken()
                &&& final(self).missing() == if old(self).has_room() || old(self).missing().contains(iden@) {
                    old(self).missing().insert(iden@)
                } else {
                    old(self).missing()
                }
            },
            final(self).parsed() == old(self).parsed(),
            final(self).parsed_size() == old(self).parsed_size(),
            final(self).fs_uid() == old(self).fs_uid(),
            old(self).source().contains_key(iden@) ==> {
                &&& r matches Ok(f) && *f == old(self).source()[iden@].unwrap()
                &&& final(self).taken() == old(self).taken().insert(iden@)
                &&& final(self).missing() == old(self).missing()
            },
    {
        let ghost src = self.source@;
        match self.files.find(&iden.value) {
            Some(entry) => {
                proof {
                    assert(self.files@.contains_key(iden@));
                    if src.contains_key(iden@) {
                        assert(self.taken().insert(iden@) =~= self.taken());
                    } else {
                        assert(self.missing().insert(iden@) =~= self.missing());
                    }
                }
                match entry {
                    Ok(file) => Ok(share_arc(file)),
                    Err(_) => Err(Error::FileNotFound(iden.clone())),
                }
            },
            None => {
                proof {
                    if src.contains_key(iden@) {
                        assert(self.fs@[iden@] == src[iden@]);
                    } else {
                        assert(!self.fs@.contains_key(iden@));
                    }
                }
                let count = self.fs.count();
                let r = self.fs.read(iden);
                proof {
                    self.files.lemma_size();
                    assert(self.fs@.dom() =~= src.dom());
                }
                match r {
                    Ok(shared) => {
                        let ghost untaken = src.dom().difference(self.files@.dom());
                        proof {
                            assert(untaken.contains(iden@));
                            vstd::set_lib::lemma_len_subset(untaken, src.dom());
                        }
                        self.files.insert(iden.value.clone(), Ok(share_arc(&shared)));
                        proof {
                            assert(src.dom().difference(self.files@.dom()) =~= untaken.remove(iden@));
                            assert(self.taken() =~= old(self).taken().insert(iden@));
                            assert(self.missing() =~= old(self).missing());
                            assert forall|k: Seq<char>| #[trigger] src.contains_key(k) implies
                                self.fs@[k] == if self.files@.contains_key(k) { None } else { src[k] } by {
                                if k != iden@ {
                                    assert(old(self).fs@[k] == self.fs@[k]);
                                }
                            }
                        }
                        Ok(shared)
                    },
                    Err(e) => {
                        if self.files.len() < MAX_SLOTS && count < MAX_SLOTS - 1 - self.files.len() {
                            let ghost untaken = src.dom().difference(self.files@.dom());
                            proof {
                                old(self).fs.lemma_finite();
                                vstd::set_lib::lemma_len_subset(untaken, src.dom());
                            }
                            self.files.insert(iden.value.clone(), Err(Error::FileNotFound(iden.clone())));
                            proof {
                                assert(src.dom().difference(self.files@.dom()) =~= untaken);
                                assert(self.taken() =~= old(self).taken());
                                assert(self.missing() =~= old(self).missing().insert(iden@));
                            }
                        }
                        proof {
                            if !(old(self).has_room() || old(self).missing().contains(iden@)) {
                                assert(self.missing() =~= old(self).missing());
                            }
                        }
                        Err(e)
                    },
                }
            },
        }
    }
}

} // verus!
