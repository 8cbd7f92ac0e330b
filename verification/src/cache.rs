use vstd::prelude::*;
use std::sync::Arc;
use append_only_vec::AppendOnlyVec;
use crate::ast;
use crate::common::{share_arc, Error, HasId};

verus! {

#[verifier::external_type_specification]
#[verifier::external_body]
#[verifier::reject_recursive_types(K)]
#[verifier::reject_recursive_types(V)]
#[verifier::reject_recursive_types(H)]
pub struct ExConcurrentHashMap<K, V, H: core::hash::BuildHasher>(scc::HashMap<K, V, H>);

#[verifier::external_type_specification]
#[verifier::external_body]
#[verifier::reject_recursive_types(T)]
pub struct ExAppendOnlyVec<T>(AppendOnlyVec<T>);

/// What is cached: a file that was read, or why it could not be.
pub type Entry = Result<Arc<ast::File>, Error>;

/// A table from id texts to slot indices.
pub type Lookup = scc::HashMap<String, usize>;

/// The slot index that each key of a lookup table holds.
pub uninterp spec fn index_of(m: Lookup) -> Map<Seq<char>, usize>;

/// The values an append-only vector holds, in the order they were pushed.
pub uninterp spec fn slots(v: AppendOnlyVec<Entry>) -> Seq<Entry>;

/// The most slots that an `AppendOnlyVec` can take on every target it builds
/// for (its bins hold `8 << i` values each; 32-bit targets have 28 bins).
pub const MAX_SLOTS: usize = 0x7fff_fff0;

/// `scc::HashMap::new`: an empty table.
#[verifier::external_body]
fn index_new() -> (m: Lookup)
    ensures
        index_of(m).is_empty(),
{
    scc::HashMap::new()
}

/// `scc::HashMap::read_sync`: the slot index held under `key`, if any
/// (`String` keys compare by their characters).
#[verifier::external_body]
fn index_find(m: &Lookup, key: &String) -> (r: Option<usize>)
    ensures
        r is Some <==> index_of(*m).contains_key(key@),
        r matches Some(ix) ==> ix == index_of(*m)[key@],
{
    m.read_sync(key, |_, ix| *ix)
}

/// `scc::HashMap::insert_sync` of a key that is not there yet: the table then
/// also holds `key`, with `ix`. (The method takes `&self`; the wrapper takes
/// `&mut` so that the change is visible to the verifier.)
#[verifier::external_body]
fn index_insert(m: &mut Lookup, key: String, ix: usize)
    requires
        !index_of(*old(m)).contains_key(key@),
    ensures
        index_of(*final(m)) == index_of(*old(m)).insert(key@, ix),
{
    let _ = m.insert_sync(key, ix);
}

/// `AppendOnlyVec::new`: no slots.
#[verifier::external_body]
fn slots_new() -> (v: AppendOnlyVec<Entry>)
    ensures
        slots(v) == Seq::<Entry>::empty(),
{
    AppendOnlyVec::new()
}

/// `AppendOnlyVec::len`: the number of slots.
#[verifier::external_body]
fn slots_len(v: &AppendOnlyVec<Entry>) -> (n: usize)
    ensures
        n == slots(*v).len(),
{
    v.len()
}

/// `AppendOnlyVec::push_mut`: appends a value and returns its index, which is
/// the number of slots before the push.
#[verifier::external_body]
fn slots_push(v: &mut AppendOnlyVec<Entry>, value: Entry) -> (ix: usize)
    requires
        slots(*old(v)).len() < MAX_SLOTS,
    ensures
        slots(*final(v)) == slots(*old(v)).push(value),
        ix == slots(*old(v)).len(),
{
    v.push_mut(value)
}

/// `AppendOnlyVec` indexing: the value in slot `ix`.
#[verifier::external_body]
fn slots_get(v: &AppendOnlyVec<Entry>, ix: usize) -> (r: &Entry)
    requires
        ix < slots(*v).len(),
    ensures
        *r == slots(*v)[ix as int],
{
    &v[ix]
}

/// A cache of read files, keyed by an id text. It only grows: an entry, once
/// in, keeps its value, and later requests for its key are answered from it.
pub struct Cache {
    lookup: Lookup,
    data: AppendOnlyVec<Entry>,
}

impl View for Cache {
    type V = Map<Seq<char>, Entry>;

    /// Each key maps to the value cached for it.
    closed spec fn view(&self) -> Map<Seq<char>, Entry> {
        Map::new(
            |k: Seq<char>| index_of(self.lookup).contains_key(k),
            |k: Seq<char>| slots(self.data)[index_of(self.lookup)[k] as int],
        )
    }
}

impl Cache {
    /// Every key of the lookup table points at a slot that exists.
    pub closed spec fn wf(&self) -> bool {
        &&& forall|k: Seq<char>| #[trigger] index_of(self.lookup).contains_key(k)
            ==> index_of(self.lookup)[k] < slots(self.data).len()
        &&& index_of(self.lookup).dom().finite()
        &&& index_of(self.lookup).dom().len() == slots(self.data).len()
    }

    /// The cache holds one value per key.
    pub proof fn lemma_size(&self)
        requires
            self.wf(),
        ensures
            self@.dom().finite(),
            self@.dom().len() == self.size(),
    {
        assert(self@.dom() =~= index_of(self.lookup).dom());
    }

    /// The number of values the cache holds.
    pub closed spec fn size(&self) -> nat {
        slots(self.data).len()
    }

    /// An empty cache.
    pub fn new() -> (c: Cache)
        ensures
            c.wf(),
            c@ == Map::<Seq<char>, Entry>::empty(),
            c.size() == 0,
    {
        let c = Cache { lookup: index_new(), data: slots_new() };
        assert(c@ =~= Map::<Seq<char>, Entry>::empty());
        assert(index_of(c.lookup).dom() =~= Set::<Seq<char>>::empty());
        c
    }

    /// The number of values the cache holds.
    pub fn len(&self) -> (n: usize)
        ensures
            n == self.size(),
    {
        slots_len(&self.data)
    }

    /// The value cached under `key`, if there is one.
    pub fn find(&self, key: &String) -> (r: Option<&Entry>)
        requires
            self.wf(),
        ensures
            r is Some <==> self@.contains_key(key@),
            r matches Some(v) ==> *v == self@[key@],
    {
        match index_find(&self.lookup, key) {
            Some(ix) => Some(slots_get(&self.data, ix)),
            None => None,
        }
    }

    /// Caches `value` under a key that is not cached yet.
    pub fn insert(&mut self, key: String, value: Entry)
        requires
            old(self).wf(),
            !old(self)@.contains_key(key@),
            old(self).size() < MAX_SLOTS,
        ensures
            final(self).wf(),
            final(self)@ == old(self)@.insert(key@, value),
            final(self).size() == old(self).size() + 1,
    {
        let ix = slots_push(&mut self.data, value);
        index_insert(&mut self.lookup, key, ix);
        assert(self@ =~= old(self)@.insert(key@, value));
    }

    /// Looks for a previously computed value:
    /// - if there is one, it is returned and `init` is not called;
    /// - otherwise `init` computes it, it is cached, and returned.
    pub fn get<A: HasId<Uid = String>, F: Fn(&A) -> Entry>(&mut self, args: &A, init: F) -> (r: Entry)
        requires
            old(self).wf(),
            old(self).size() < MAX_SLOTS,
            init.requires((args,)),
        ensures
            final(self).wf(),
            old(self)@.contains_key(args.uid()@) ==> {
                &&& r == old(self)@[args.uid()@]
                &&& final(self)@ == old(self)@
                &&& final(self).size() == old(self).size()
            },
            !old(self)@.contains_key(args.uid()@) ==> {
                &&& init.ensures((args,), r)
                &&& final(self)@ == old(self)@.insert(args.uid()@, r)
                &&& final(self).size() == old(self).size() + 1
            },
    {
        let key = args.id();
        match index_find(&self.lookup, &key) {
            Some(ix) => share_entry(slots_get(&self.data, ix)),
            None => {
                let value = init(args);
                let kept = share_entry(&value);
                self.insert(key, value);
                kept
            },
        }
    }
}

/// After a `get` of a key, the cache holds the key with the value that `get`
/// returned, and every value it held before is unchanged; so a later `get` of
/// the key returns the same value without computing it again.
pub proof fn law_get_then_cached(before: Map<Seq<char>, Entry>, after: Map<Seq<char>, Entry>, k: Seq<char>, r: Entry)
    requires
        before.contains_key(k) ==> r == before[k] && after == before,
        !before.contains_key(k) ==> after == before.insert(k, r),
    ensures
        after.contains_key(k),
        after[k] == r,
        forall|j: Seq<char>| #[trigger] before.contains_key(j) ==> after.contains_key(j) && after[j] == before[j],
{
}

/// Another handle to a cached value: the same file, or a copy of the error.
pub fn share_entry(entry: &Entry) -> (r: Entry)
    ensures
        r == *entry,
{
    match entry {
        Ok(file) => Ok(share_arc(file)),
        Err(err) => Err(err.clone()),
    }
}

} // verus!
