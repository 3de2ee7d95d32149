//! The registry of worlds: which worlds exist, of which type, under which
//! name, and the index of public worlds sorted by name.

use vstd::prelude::*;
use ahash::AHashMap;
use crate::fault::{hex_digit, digit_str};
use itertools::Itertools;
use vstd::set_lib::lemma_len_subset;

verus! {

/// The most worlds that a registry holds at once.
pub const MAX_WORLDS: usize = 128;

/// How many random ids the registry draws before it gives up on a new world.
pub const MAX_ID_ATTEMPTS: u32 = 64;

/// A public world is persistent, named and listed; a private one lives as long
/// as someone holds it.
#[derive(Clone, Copy, Debug, PartialEq, Eq, Structural)]
pub enum WorldType {
    Public,
    Private,
}

/// A running world as the registry knows it: its id and its name.
#[derive(Debug)]
pub struct WorldHandle {
    pub id: u64,
    pub name: String,
}

/// A registered world. `handle` is `None` while the world is being started.
#[derive(Debug)]
pub struct WorldEntry {
    pub ty: WorldType,
    pub name: String,
    pub handle: Option<WorldHandle>,
}

/// Why the registry refused a request.
#[derive(Clone, Copy, Debug, PartialEq, Eq, Structural)]
pub enum RegistryError {
    /// A world of that name exists already.
    NameConflict,
    /// The registry is full, or no free id was found.
    CapacityExhausted,
    /// No world has that id.
    NotFound,
    /// A world with that id is registered already.
    IdTaken,
}

impl WorldHandle {
    /// A copy of the handle.
    pub fn copy(&self) -> (r: WorldHandle)
        ensures
            r == *self,
    {
        WorldHandle { id: self.id, name: self.name.clone() }
    }
}

impl WorldEntry {
    /// A copy of the entry.
    pub fn copy(&self) -> (r: WorldEntry)
        ensures
            r == *self,
    {
        let handle = match &self.handle {
            Some(h) => Some(h.copy()),
            None => None,
        };
        WorldEntry { ty: self.ty, name: self.name.clone(), handle }
    }
}

// ---------------------------------------------------------------------------
// Order of names

/// Whether name `a` sorts before name `b`: character by character, by code
/// point, a proper prefix first (the order of Rust's `str`).
pub open spec fn name_lt(a: Seq<char>, b: Seq<char>) -> bool
    decreases a.len(),
{
    if a.len() == 0 {
        b.len() > 0
    } else if b.len() == 0 {
        false
    } else if a[0] != b[0] {
        (a[0] as int) < (b[0] as int)
    } else {
        name_lt(a.drop_first(), b.drop_first())
    }
}

proof fn lemma_name_lt_transitive(a: Seq<char>, b: Seq<char>, c: Seq<char>)
    requires
        name_lt(a, b),
        name_lt(b, c),
    ensures
        name_lt(a, c),
    decreases a.len(),
{
    if a.len() > 0 && b.len() > 0 && c.len() > 0 && a[0] == b[0] && b[0] == c[0] {
        lemma_name_lt_transitive(a.drop_first(), b.drop_first(), c.drop_first());
    }
}

proof fn lemma_name_lt_irreflexive(a: Seq<char>)
    ensures
        !name_lt(a, a),
    decreases a.len(),
{
    if a.len() > 0 {
        lemma_name_lt_irreflexive(a.drop_first());
    }
}

/// Whether `a` sorts before `b`.
pub fn name_less(a: &str, b: &str) -> (r: bool)
    ensures
        r == name_lt(a@, b@),
{
    let la = a.unicode_len();
    let lb = b.unicode_len();
    let mut i: usize = 0;
    assert(a@.skip(0) =~= a@);
    assert(b@.skip(0) =~= b@);
    while i < la && i < lb
        invariant
            la == a@.len(),
            lb == b@.len(),
            i <= la,
            i <= lb,
            name_lt(a@, b@) == name_lt(a@.skip(i as int), b@.skip(i as int)),
        decreases la - i,
    {
        let ca = a.get_char(i);
        let cb = b.get_char(i);
        assert(a@.skip(i as int).drop_first() =~= a@.skip(i + 1));
        assert(b@.skip(i as int).drop_first() =~= b@.skip(i + 1));
        if ca != cb {
            return (ca as u32) < (cb as u32);
        }
        i = i + 1;
    }
    i == la && i < lb
}

/// `idx` is sorted by name.
pub open spec fn names_sorted(idx: Seq<WorldHandle>) -> bool {
    forall|k: int, l: int| 0 <= k < l < idx.len() ==> !name_lt(idx[l].name@, idx[k].name@)
}

/// `r` holds the same handles as `v`, each as often: same length, each
/// element of one found in the other, and no repeats where `v` has none.
pub open spec fn same_handles(r: Seq<WorldHandle>, v: Seq<WorldHandle>) -> bool {
    &&& r.len() == v.len()
    &&& forall|i: int| 0 <= i < r.len() ==> v.contains(#[trigger] r[i])
    &&& forall|j: int| 0 <= j < v.len() ==> r.contains(#[trigger] v[j])
    &&& (forall|i: int, j: int| 0 <= i < j < v.len() ==> v[i] != v[j]) ==> (forall|i: int, j: int|
        0 <= i < j < r.len() ==> r[i] != r[j])
}

proof fn lemma_name_lt_total(a: Seq<char>, b: Seq<char>)
    requires
        !name_lt(a, b),
        !name_lt(b, a),
    ensures
        a == b,
    decreases a.len(),
{
    if a.len() > 0 && b.len() > 0 {
        if a[0] == b[0] {
            lemma_name_lt_total(a.drop_first(), b.drop_first());
            assert(a =~= seq![a[0]] + a.drop_first());
            assert(b =~= seq![b[0]] + b.drop_first());
        } else {
            assert((a[0] as int) != (b[0] as int));
        }
    } else {
        assert(a =~= b);
    }
}

/// How the names of two handles compare, as `str` compares them.
pub fn compare_names(a: &WorldHandle, b: &WorldHandle) -> (r: std::cmp::Ordering)
    ensures
        (r == std::cmp::Ordering::Less) == name_lt(a.name@, b.name@),
        (r == std::cmp::Ordering::Greater) == name_lt(b.name@, a.name@),
        (r == std::cmp::Ordering::Equal) == (a.name@ == b.name@),
{
    if name_less(a.name.as_str(), b.name.as_str()) {
        proof {
            lemma_name_lt_irreflexive(a.name@);
            if name_lt(b.name@, a.name@) {
                lemma_name_lt_transitive(a.name@, b.name@, a.name@);
            }
        }
        std::cmp::Ordering::Less
    } else if name_less(b.name.as_str(), a.name.as_str()) {
        proof {
            lemma_name_lt_irreflexive(a.name@);
        }
        std::cmp::Ordering::Greater
    } else {
        proof {
            lemma_name_lt_total(a.name@, b.name@);
        }
        std::cmp::Ordering::Equal
    }
}

/// Relies on itertools' `sorted_by`, a stable sort collected into a `Vec`:
/// the same handles, ordered by [`compare_names`], which orders names as
/// `str` does.
#[verifier::external_body]
fn sort_by_name(v: Vec<WorldHandle>) -> (r: Vec<WorldHandle>)
    ensures
        names_sorted(r@),
        same_handles(r@, v@),
{
    v.into_iter().sorted_by(compare_names).collect()
}

// ---------------------------------------------------------------------------
// The table of worlds, an `ahash` map from id to entry

/// What a table of worlds holds: id to entry.
pub uninterp spec fn world_table(m: AHashMap<u64, WorldEntry>) -> Map<u64, WorldEntry>;

pub open spec fn empty_table() -> Map<u64, WorldEntry> {
    Map::empty()
}

/// Relies on `ahash::AHashMap::new`: a map with no entries.
#[verifier::external_body]
fn table_new() -> (r: AHashMap<u64, WorldEntry>)
    ensures
        world_table(r) == empty_table(),
{
    AHashMap::new()
}

/// Relies on `HashMap::contains_key`, which `ahash::AHashMap` derefs to: whether
/// the key has an entry.
#[verifier::external_body]
fn table_contains(m: &AHashMap<u64, WorldEntry>, id: u64) -> (r: bool)
    ensures
        r == world_table(*m).contains_key(id),
{
    m.contains_key(&id)
}

/// Relies on `HashMap::len`, which `ahash::AHashMap` derefs to: the number of
/// entries.
#[verifier::external_body]
fn table_len(m: &AHashMap<u64, WorldEntry>) -> (r: usize)
    ensures
        r == world_table(*m).len(),
{
    m.len()
}

/// Relies on `ahash::AHashMap::insert`, which forwards to std's
/// `HashMap::insert`: afterwards the key maps to the value and every other key
/// keeps its entry.
#[verifier::external_body]
fn table_insert(m: &mut AHashMap<u64, WorldEntry>, id: u64, entry: WorldEntry)
    ensures
        world_table(*final(m)) == world_table(*old(m)).insert(id, entry),
{
    m.insert(id, entry);
}

/// Relies on `ahash::AHashMap::remove`, which forwards to std's
/// `HashMap::remove`: the entry under the key, if any, taken out of the map.
#[verifier::external_body]
fn table_remove(m: &mut AHashMap<u64, WorldEntry>, id: u64) -> (r: Option<WorldEntry>)
    ensures
        world_table(*final(m)) == world_table(*old(m)).remove(id),
        r == (if world_table(*old(m)).contains_key(id) {
            Some(world_table(*old(m))[id])
        } else {
            None
        }),
{
    m.remove(&id)
}

/// Relies on `HashMap::iter`, which `ahash::AHashMap` derefs to: every entry
/// once, each id with its own entry, in an order that the map's hasher picks.
/// The closure only copies an entry.
#[verifier::external_body]
fn table_walk(m: &AHashMap<u64, WorldEntry>) -> (r: Vec<(u64, WorldEntry)>)
    ensures
        forall|i: int|
            0 <= i < r@.len() ==> world_table(*m).contains_key(#[trigger] r@[i].0)
                && world_table(*m)[r@[i].0] == r@[i].1,
        forall|id: u64|
            #[trigger] world_table(*m).contains_key(id) ==> exists|i: int|
                0 <= i < r@.len() && r@[i].0 == id,
        forall|i: int, j: int| 0 <= i < j < r@.len() ==> r@[i].0 != r@[j].0,
        r@.len() == world_table(*m).len(),
{
    m.iter().map(|(id, entry)| (*id, entry.copy())).collect()
}

/// Relies on `rand::random`: some 64-bit number; nothing is known of which.
#[verifier::external_body]
fn random_id() -> (r: u64) {
    rand::random()
}

// ---------------------------------------------------------------------------
// The registry

/// The registry's contents: the table of worlds and the public index.
pub struct RegistryView {
    pub entries: Map<u64, WorldEntry>,
    pub public_idx: Seq<WorldHandle>,
}

/// The registry of worlds.
#[derive(Debug)]
pub struct Registry {
    entries: AHashMap<u64, WorldEntry>,
    public_idx: Vec<WorldHandle>,
}

impl View for Registry {
    type V = RegistryView;

    closed spec fn view(&self) -> RegistryView {
        RegistryView { entries: world_table(self.entries), public_idx: self.public_idx@ }
    }
}

/// Whether a world that is up (has a handle) is public and lists `h`.
pub open spec fn lists(t: Map<u64, WorldEntry>, h: WorldHandle) -> bool {
    &&& t.contains_key(h.id)
    &&& t[h.id].ty == WorldType::Public
    &&& t[h.id].handle == Some(h)
}

/// The registry's invariant: at most `MAX_WORLDS` worlds; each handle carries
/// its entry's id and name; no two public worlds share a name; the public
/// index is sorted by name and lists exactly the public worlds that are up,
/// each once.
pub open spec fn registry_wf(v: RegistryView) -> bool {
    let t = v.entries;
    let idx = v.public_idx;
    &&& t.dom().finite()
    &&& t.len() <= MAX_WORLDS
    &&& forall|id: u64|
        #[trigger] t.contains_key(id) ==> (t[id].handle matches Some(h) ==> h.id == id && h.name@
            == t[id].name@)
    &&& forall|a: u64, b: u64|
        t.contains_key(a) && t.contains_key(b) && a != b && t[a].ty == WorldType::Public
            && t[b].ty == WorldType::Public ==> (#[trigger] t[a].name@) != (#[trigger] t[b].name@)
    &&& names_sorted(idx)
    &&& forall|k: int| 0 <= k < idx.len() ==> lists(t, #[trigger] idx[k])
    &&& forall|id: u64|
        #[trigger] t.contains_key(id) && t[id].ty == WorldType::Public && t[id].handle is Some
            ==> exists|k: int| 0 <= k < idx.len() && idx[k].id == id
    &&& forall|k: int, l: int| 0 <= k < l < idx.len() ==> idx[k].id != idx[l].id
}

/// Whether a world named `name` is registered, up or starting.
pub open spec fn name_taken(t: Map<u64, WorldEntry>, name: Seq<char>) -> bool {
    exists|id: u64| #[trigger] t.contains_key(id) && t[id].name@ == name
}

/// The test-mode id `j` steps after `c`, counting up and wrapping around.
pub open spec fn counter_after(c: u64, j: int) -> u64 {
    ((c as int + j) % 0x1_0000_0000_0000_0000) as u64
}

proof fn lemma_counter_step(c: u64, k: int)
    requires
        0 <= k,
    ensures
        counter_after(c, k).wrapping_add(1) == counter_after(c, k + 1),
{
    let m: int = 0x1_0000_0000_0000_0000;
    let a = (c as int + k) % m;
    assert(0 <= a < m);
    assert((c as int + k + 1) % m == if a + 1 == m { 0 } else { a + 1 }) by (nonlinear_arith)
        requires
            a == (c as int + k) % m,
            c as int + k >= 0,
            m == 0x1_0000_0000_0000_0000,
    ;
}

proof fn lemma_counter_distinct(c: u64, j: int, k: int)
    requires
        0 <= j < k < 0x1_0000_0000_0000_0000,
    ensures
        counter_after(c, j) != counter_after(c, k),
{
    let m: int = 0x1_0000_0000_0000_0000;
    assert((c as int + j) % m != (c as int + k) % m) by (nonlinear_arith)
        requires
            0 <= j < k < m,
            c >= 0,
            m == 0x1_0000_0000_0000_0000,
    ;
}

impl Registry {
    /// See [`registry_wf`].
    pub open spec fn wf(&self) -> bool {
        registry_wf(self@)
    }

    /// An empty registry.
    pub fn new() -> (r: Registry)
        ensures
            r.wf(),
            r@.entries == empty_table(),
            r@.public_idx.len() == 0,
    {
        Registry { entries: table_new(), public_idx: Vec::new() }
    }

    /// Whether a world named `name` is registered.
    fn has_name(&self, name: &String) -> (r: bool)
        requires
            self.wf(),
        ensures
            r == name_taken(self@.entries, name@),
    {
        let all = table_walk(&self.entries);
        let mut i: usize = 0;
        while i < all.len()
            invariant
                i <= all@.len(),
                forall|j: int| 0 <= j < i ==> all@[j].1.name@ != name@,
                forall|j: int|
                    0 <= j < all@.len() ==> world_table(self.entries).contains_key(#[trigger] all@[j].0)
                        && world_table(self.entries)[all@[j].0] == all@[j].1,
            decreases all@.len() - i,
        {
            if all[i].1.name == *name {
                assert(world_table(self.entries).contains_key(all@[i as int].0));
                return true;
            }
            i = i + 1;
        }
        proof {
            if name_taken(self@.entries, name@) {
                let id = choose|id: u64|
                    #[trigger] world_table(self.entries).contains_key(id) && world_table(
                        self.entries,
                    )[id].name@ == name@;
                let j = choose|j: int| 0 <= j < all@.len() && all@[j].0 == id;
                assert(all@[j].1.name@ == name@);
            }
        }
        false
    }

    /// Reserves a fresh id for a new world named `name`, of type `ty`, and
    /// registers it with no handle yet. A public world may not take a name
    /// that is registered; a full registry takes no world. Ids come from
    /// `next_test_id` (which counts up) when `testing`, else at random; if
    /// every attempt hits a registered id the registry reports itself full.
    pub fn create_alloc(
        &mut self,
        testing: bool,
        next_test_id: &mut u64,
        ty: WorldType,
        name: &String,
    ) -> (r: Result<u64, RegistryError>)
        requires
            old(self).wf(),
        ensures
            final(self).wf(),
            (r == Err::<u64, RegistryError>(RegistryError::NameConflict)) == (ty == WorldType::Public
                && name_taken(old(self)@.entries, name@)),
            !(ty == WorldType::Public && name_taken(old(self)@.entries, name@)) && old(
                self,
            )@.entries.len() >= MAX_WORLDS ==> r == Err::<u64, RegistryError>(
                RegistryError::CapacityExhausted,
            ),
            r is Err ==> final(self)@ == old(self)@,
            r matches Ok(id) ==> {
                &&& !old(self)@.entries.contains_key(id)
                &&& final(self)@.entries == old(self)@.entries.insert(
                    id,
                    WorldEntry { ty, name: *name, handle: None },
                )
                &&& final(self)@.public_idx == old(self)@.public_idx
            },
            !testing ==> *final(next_test_id) == *old(next_test_id),
            testing && !(ty == WorldType::Public && name_taken(old(self)@.entries, name@)) && old(
                self,
            )@.entries.len() < MAX_WORLDS ==> exists|k: int|
                0 <= k < MAX_WORLDS && (forall|j: int|
                    0 <= j < k ==> old(self)@.entries.contains_key(
                        #[trigger] counter_after(*old(next_test_id), j),
                    )) && !old(self)@.entries.contains_key(counter_after(*old(next_test_id), k)) && r
                    == Ok::<u64, RegistryError>(counter_after(*old(next_test_id), k)) && *final(
                    next_test_id) == counter_after(*old(next_test_id), k + 1),
            testing && r == Err::<u64, RegistryError>(RegistryError::CapacityExhausted) ==> old(
                self,
            )@.entries.len() >= MAX_WORLDS,
            r is Err ==> r == Err::<u64, RegistryError>(RegistryError::NameConflict) || r == Err::<
                u64,
                RegistryError,
            >(RegistryError::CapacityExhausted),
    {
        if ty == WorldType::Public && self.has_name(name) {
            return Err(RegistryError::NameConflict);
        }
        let len = table_len(&self.entries);
        if len >= MAX_WORLDS {
            return Err(RegistryError::CapacityExhausted);
        }
        if testing {
            let ghost c = *next_test_id;
            let ghost dom = old(self)@.entries.dom();
            let ghost mut tried: Set<u64> = Set::empty();
            let ghost mut k: int = 0;
            loop
                invariant
                    self@ == old(self)@,
                    self.wf(),
                    testing,
                    c == *old(next_test_id),
                    dom == old(self)@.entries.dom(),
                    dom.finite(),
                    0 <= k <= dom.len(),
                    dom.len() < MAX_WORLDS,
                    *next_test_id == counter_after(c, k),
                    tried.finite(),
                    tried.len() == k,
                    tried.subset_of(dom),
                    forall|j: int| 0 <= j < k ==> dom.contains(#[trigger] counter_after(c, j)),
                    forall|x: u64| #[trigger] tried.contains(x) ==> exists|j: int|
                        0 <= j < k && x == counter_after(c, j),
                    !(ty == WorldType::Public && name_taken(old(self)@.entries, name@)),
                decreases MAX_WORLDS - k,
            {
                let id = *next_test_id;
                proof {
                    lemma_counter_step(c, k);
                }
                *next_test_id = id.wrapping_add(1);
                match self.reserve_id(id, ty, name) {
                    Ok(()) => {
                        return Ok(id);
                    },
                    Err(_) => {
                        proof {
                            if tried.contains(id) {
                                let j = choose|j: int| 0 <= j < k && id == counter_after(c, j);
                                lemma_counter_distinct(c, j, k);
                            }
                            tried = tried.insert(id);
                            k = k + 1;
                            lemma_len_subset(tried, dom);
                        }
                    },
                }
            }
        }
        let mut attempt: u32 = 0;
        while attempt < MAX_ID_ATTEMPTS
            invariant
                self@ == old(self)@,
                self.wf(),
                !testing,
                *next_test_id == *old(next_test_id),
                !(ty == WorldType::Public && name_taken(old(self)@.entries, name@)),
                old(self)@.entries.len() < MAX_WORLDS,
            decreases MAX_ID_ATTEMPTS - attempt,
        {
            let id = random_id();
            match self.reserve_id(id, ty, name) {
                Ok(()) => {
                    return Ok(id);
                },
                Err(_) => {},
            }
            attempt = attempt + 1;
        }
        Err(RegistryError::CapacityExhausted)
    }

    /// Registers world `id` of type `ty` named `name`, with no handle yet, if
    /// the name is free for it, the registry has room and the id is free.
    pub fn reserve_id(&mut self, id: u64, ty: WorldType, name: &String) -> (r: Result<
        (),
        RegistryError,
    >)
        requires
            old(self).wf(),
        ensures
            final(self).wf(),
            (r == Err::<(), RegistryError>(RegistryError::NameConflict)) == (ty == WorldType::Public
                && name_taken(old(self)@.entries, name@)),
            (r == Err::<(), RegistryError>(RegistryError::CapacityExhausted)) == (!(ty
                == WorldType::Public && name_taken(old(self)@.entries, name@)) && old(
                self,
            )@.entries.len() >= MAX_WORLDS),
            (r == Err::<(), RegistryError>(RegistryError::IdTaken)) == (!(ty == WorldType::Public
                && name_taken(old(self)@.entries, name@)) && old(self)@.entries.len() < MAX_WORLDS
                && old(self)@.entries.contains_key(id)),
            r is Ok <==> !(ty == WorldType::Public && name_taken(old(self)@.entries, name@)) && old(
                self,
            )@.entries.len() < MAX_WORLDS && !old(self)@.entries.contains_key(id),
            r is Err ==> final(self)@ == old(self)@,
            r is Ok ==> {
                &&& final(self)@.entries == old(self)@.entries.insert(
                    id,
                    WorldEntry { ty, name: *name, handle: None },
                )
                &&& final(self)@.public_idx == old(self)@.public_idx
            },
    {
        if ty == WorldType::Public && self.has_name(name) {
            return Err(RegistryError::NameConflict);
        }
        if table_len(&self.entries) >= MAX_WORLDS {
            return Err(RegistryError::CapacityExhausted);
        }
        if table_contains(&self.entries, id) {
            return Err(RegistryError::IdTaken);
        }
        self.reserve(id, ty, name.clone());
        Ok(())
    }

    /// Registers world `id` of type `ty` named `name`, with no handle yet.
    fn reserve(&mut self, id: u64, ty: WorldType, name: String)
        requires
            old(self).wf(),
            !old(self)@.entries.contains_key(id),
            old(self)@.entries.len() < MAX_WORLDS,
            !(ty == WorldType::Public && name_taken(old(self)@.entries, name@)),
        ensures
            final(self).wf(),
            final(self)@.entries == old(self)@.entries.insert(
                id,
                WorldEntry { ty, name, handle: None },
            ),
            final(self)@.public_idx == old(self)@.public_idx,
    {
        let ghost t = self@.entries;
        let ghost nm = name;
        table_insert(&mut self.entries, id, WorldEntry { ty, name, handle: None });
        proof {
            let t2 = self@.entries;
            assert(t2.dom() =~= t.dom().insert(id));
            assert(t2.len() == t.len() + 1);
            assert forall|a: u64, b: u64|
                t2.contains_key(a) && t2.contains_key(b) && a != b && t2[a].ty == WorldType::Public
                    && t2[b].ty == WorldType::Public implies (#[trigger] t2[a].name@) != (
            #[trigger] t2[b].name@) by {
                if a == id {
                    assert(t.contains_key(b));
                } else if b == id {
                    assert(t.contains_key(a));
                }
            }
            assert forall|k: int| 0 <= k < self@.public_idx.len() implies lists(
                t2,
                #[trigger] self@.public_idx[k],
            ) by {
                assert(lists(t, self@.public_idx[k]));
            }
        }
    }

    /// Registers the public world behind `h`, up and listed. A world with
    /// the same id or name is a conflict; a full registry takes no world.
    pub fn insert_public(&mut self, h: WorldHandle) -> (r: Result<(), RegistryError>)
        requires
            old(self).wf(),
        ensures
            final(self).wf(),
            (r == Err::<(), RegistryError>(RegistryError::NameConflict)) == (old(
                self,
            )@.entries.contains_key(h.id) || name_taken(old(self)@.entries, h.name@)),
            r == Err::<(), RegistryError>(RegistryError::CapacityExhausted) <==> !(old(
                self,
            )@.entries.contains_key(h.id) || name_taken(old(self)@.entries, h.name@)) && old(
                self,
            )@.entries.len() >= MAX_WORLDS,
            r is Err ==> final(self)@ == old(self)@,
            r is Err ==> r == Err::<(), RegistryError>(RegistryError::NameConflict) || r == Err::<
                (),
                RegistryError,
            >(RegistryError::CapacityExhausted),
            r is Ok ==> final(self)@.entries == old(self)@.entries.insert(
                h.id,
                WorldEntry { ty: WorldType::Public, name: h.name, handle: Some(h) },
            ) && same_handles(final(self)@.public_idx, old(self)@.public_idx.push(h)),
    {
        if table_contains(&self.entries, h.id) || self.has_name(&h.name) {
            return Err(RegistryError::NameConflict);
        }
        if table_len(&self.entries) >= MAX_WORLDS {
            return Err(RegistryError::CapacityExhausted);
        }
        let id = h.id;
        self.reserve(id, WorldType::Public, h.name.clone());
        self.attach(id, h);
        Ok(())
    }

    /// A registry of the public worlds behind `handles`, in order; the first
    /// conflict (a repeated id or name) or a full registry stops it with that
    /// error.
    pub fn set(handles: Vec<WorldHandle>) -> (r: Result<Registry, RegistryError>)
        ensures
            r matches Ok(reg) ==> {
                &&& reg.wf()
                &&& reg@.entries.len() == handles@.len()
                &&& forall|i: int| 0 <= i < handles@.len() ==> lists(reg@.entries, #[trigger] handles@[i])
            },
            r is Err ==> handles@.len() > MAX_WORLDS || exists|i: int, j: int|
                0 <= i < j < handles@.len() && (handles@[i].id == handles@[j].id
                    || handles@[i].name@ == handles@[j].name@),
    {
        let mut reg = Registry::new();
        let mut i: usize = 0;
        while i < handles.len()
            invariant
                i <= handles@.len(),
                reg.wf(),
                reg@.entries.len() == i,
                forall|j: int| 0 <= j < i ==> lists(reg@.entries, #[trigger] handles@[j]),
                forall|id: u64|
                    #[trigger] reg@.entries.contains_key(id) ==> exists|j: int|
                        0 <= j < i && handles@[j].id == id && reg@.entries[id].name@
                            == handles@[j].name@,
            decreases handles@.len() - i,
        {
            let ghost t = reg@.entries;
            let h = handles[i].copy();
            match reg.insert_public(h) {
                Ok(()) => {},
                Err(e) => {
                    proof {
                        if t.contains_key(handles@[i as int].id) {
                            let j = choose|j: int|
                                0 <= j < i && handles@[j].id == handles@[i as int].id && t[handles@[
                                    i as int
                                ].id].name@ == handles@[j].name@;
                            assert(0 <= j < i < handles@.len() && (handles@[j].id
                                == handles@[i as int].id || handles@[j].name@ == handles@[i as int].name@));
                        } else if name_taken(t, handles@[i as int].name@) {
                            let id = choose|id: u64|
                                #[trigger] t.contains_key(id) && t[id].name@ == handles@[i as int].name@;
                            let j = choose|j: int|
                                0 <= j < i && handles@[j].id == id && t[id].name@ == handles@[j].name@;
                            assert(0 <= j < i < handles@.len() && (handles@[j].id
                                == handles@[i as int].id || handles@[j].name@ == handles@[i as int].name@));
                        }
                    }
                    return Err(e);
                },
            }
            proof {
                let t2 = reg@.entries;
                let hid = handles@[i as int].id;
                assert(t2.dom() =~= t.dom().insert(hid));
                assert(t2.len() == t.len() + 1);
                assert forall|j: int| 0 <= j <= i implies lists(t2, #[trigger] handles@[j]) by {
                    if j < i {
                        assert(lists(t, handles@[j]));
                    }
                }
                assert forall|id: u64| #[trigger] t2.contains_key(id) implies exists|j: int|
                    0 <= j < i + 1 && handles@[j].id == id && t2[id].name@ == handles@[j].name@ by {
                    if id != hid {
                        assert(t.contains_key(id));
                    } else {
                        assert(handles@[i as int].id == id);
                    }
                }
            }
            i = i + 1;
        }
        Ok(reg)
    }

    /// A copy of the registry, for a writer that swaps in a changed registry
    /// while readers keep the old one.
    pub fn copy(&self) -> (r: Registry)
        requires
            self.wf(),
        ensures
            r.wf(),
            r@ == self@,
    {
        let walk = table_walk(&self.entries);
        let mut entries = table_new();
        let mut i: usize = 0;
        while i < walk.len()
            invariant
                i <= walk@.len(),
                walk@.len() == self@.entries.len(),
                forall|j: int|
                    0 <= j < walk@.len() ==> self@.entries.contains_key(#[trigger] walk@[j].0)
                        && self@.entries[walk@[j].0] == walk@[j].1,
                forall|id: u64|
                    #[trigger] self@.entries.contains_key(id) ==> exists|j: int|
                        0 <= j < walk@.len() && walk@[j].0 == id,
                forall|a: int, b: int| 0 <= a < b < walk@.len() ==> walk@[a].0 != walk@[b].0,
                forall|id: u64|
                    #[trigger] world_table(entries).contains_key(id) <==> exists|j: int|
                        0 <= j < i && walk@[j].0 == id,
                forall|id: u64|
                    #[trigger] world_table(entries).contains_key(id) ==> world_table(entries)[id]
                        == self@.entries[id],
            decreases walk@.len() - i,
        {
            table_insert(&mut entries, walk[i].0, walk[i].1.copy());
            i = i + 1;
        }
        proof {
            assert(world_table(entries) =~= self@.entries) by {
                assert forall|id: u64| #[trigger] world_table(entries).contains_key(id)
                    <==> self@.entries.contains_key(id) by {
                    if self@.entries.contains_key(id) {
                        let j = choose|j: int| 0 <= j < walk@.len() && walk@[j].0 == id;
                    }
                    if world_table(entries).contains_key(id) {
                        let j = choose|j: int| 0 <= j < i && walk@[j].0 == id;
                        assert(self@.entries.contains_key(walk@[j].0));
                    }
                }
            }
        }
        let public_idx = self.public();
        Registry { entries, public_idx }
    }

    /// Whether world `id` is registered under `name` and still waits for its
    /// handle.
    pub fn is_starting(&self, id: u64, name: &String) -> (r: bool)
        requires
            self.wf(),
        ensures
            r == (self@.entries.contains_key(id) && self@.entries[id].handle is None
                && self@.entries[id].name@ == name@),
    {
        let walk = table_walk(&self.entries);
        let mut i: usize = 0;
        while i < walk.len()
            invariant
                i <= walk@.len(),
                forall|j: int|
                    0 <= j < walk@.len() ==> self@.entries.contains_key(#[trigger] walk@[j].0)
                        && self@.entries[walk@[j].0] == walk@[j].1,
                forall|j: int| 0 <= j < i ==> walk@[j].0 != id,
            decreases walk@.len() - i,
        {
            if walk[i].0 == id {
                assert(self@.entries.contains_key(walk@[i as int].0));
                return walk[i].1.handle.is_none() && walk[i].1.name == *name;
            }
            i = i + 1;
        }
        proof {
            if self@.entries.contains_key(id) {
                let j = choose|j: int| 0 <= j < walk@.len() && walk@[j].0 == id;
            }
        }
        false
    }

    /// Gives the starting world `id` its handle and, if it is public, lists it
    /// in the public index.
    pub fn attach(&mut self, id: u64, handle: WorldHandle)
        requires
            old(self).wf(),
            old(self)@.entries.contains_key(id),
            old(self)@.entries[id].handle is None,
            handle.id == id,
            handle.name@ == old(self)@.entries[id].name@,
        ensures
            final(self).wf(),
            final(self)@.entries == old(self)@.entries.insert(
                id,
                WorldEntry { handle: Some(handle), ..old(self)@.entries[id] },
            ),
            old(self)@.entries[id].ty == WorldType::Public ==> same_handles(
                final(self)@.public_idx,
                old(self)@.public_idx.push(handle),
            ),
            old(self)@.entries[id].ty == WorldType::Private ==> final(self)@.public_idx == old(
                self,
            )@.public_idx,
    {
        let ghost t = self@.entries;
        let ghost idx0 = self@.public_idx;
        let old_entry = table_remove(&mut self.entries, id);
        let e = match old_entry {
            Some(e) => e,
            None => {
                return;
            },
        };
        let ty = e.ty;
        let listed = handle.copy();
        table_insert(&mut self.entries, id, WorldEntry { ty: e.ty, name: e.name, handle: Some(handle) });
        if ty == WorldType::Public {
            let mut grown: Vec<WorldHandle> = Vec::new();
            core::mem::swap(&mut grown, &mut self.public_idx);
            grown.push(listed);
            self.public_idx = sort_by_name(grown);
        }
        proof {
            let t2 = self@.entries;
            let idx = self@.public_idx;
            let grown = idx0.push(listed);
            assert(t2.dom() =~= t.dom());
            assert(t2.len() == t.len());
            assert forall|k: int| 0 <= k < idx0.len() implies (#[trigger] idx0[k]).id != id by {
                assert(lists(t, idx0[k]));
            }
            assert forall|k: int| 0 <= k < idx.len() implies lists(t2, #[trigger] idx[k]) by {
                if ty == WorldType::Public {
                    assert(grown.contains(idx[k]));
                    let j = choose|j: int| 0 <= j < grown.len() && grown[j] == idx[k];
                    if j < idx0.len() {
                        assert(lists(t, idx0[j]));
                    }
                } else {
                    assert(lists(t, idx0[k]));
                }
            }
            assert forall|a: u64|
                #[trigger] t2.contains_key(a) && t2[a].ty == WorldType::Public && t2[a].handle is Some
                    implies exists|k: int| 0 <= k < idx.len() && idx[k].id == a by {
                if ty == WorldType::Public {
                    if a == id {
                        assert(grown[idx0.len() as int] == listed);
                        assert(idx.contains(listed));
                    } else {
                        let k0 = choose|k: int| 0 <= k < idx0.len() && idx0[k].id == a;
                        assert(grown[k0] == idx0[k0]);
                        assert(idx.contains(idx0[k0]));
                    }
                } else {
                    if a != id {
                        let k0 = choose|k: int| 0 <= k < idx0.len() && idx0[k].id == a;
                        assert(idx[k0].id == a);
                    }
                }
            }
            if ty == WorldType::Public {
                assert forall|i: int, j: int| 0 <= i < j < grown.len() implies grown[i] != grown[j] by {
                    if j < idx0.len() {
                        assert(idx0[i].id != idx0[j].id);
                    } else {
                        assert(idx0[i].id != id);
                    }
                }
            }
            assert forall|k: int, l: int| 0 <= k < l < idx.len() implies idx[k].id != idx[l].id by {
                if ty == WorldType::Public {
                    assert(idx[k] != idx[l]);
                    if idx[k].id == idx[l].id {
                        assert(lists(t2, idx[k]));
                        assert(lists(t2, idx[l]));
                    }
                }
            }
            assert forall|a: u64, b: u64|
                t2.contains_key(a) && t2.contains_key(b) && a != b && t2[a].ty == WorldType::Public
                    && t2[b].ty == WorldType::Public implies (#[trigger] t2[a].name@) != (
            #[trigger] t2[b].name@) by {
                assert(t.contains_key(a) && t.contains_key(b));
                assert(t[a].name@ != t[b].name@);
            }
        }
    }

    /// Takes world `id` out of the public index, if it is listed there, and
    /// out of the table; returns its entry.
    pub fn delete_remove(&mut self, id: u64) -> (r: Result<WorldEntry, RegistryError>)
        requires
            old(self).wf(),
        ensures
            final(self).wf(),
            r is Ok <==> old(self)@.entries.contains_key(id),
            r is Err ==> r == Err::<WorldEntry, RegistryError>(RegistryError::NotFound) && final(self)@ == old(self)@,
            r matches Ok(e) ==> {
                &&& e == old(self)@.entries[id]
                &&& final(self)@.entries == old(self)@.entries.remove(id)
                &&& (exists|k: int|
                    0 <= k < old(self)@.public_idx.len() && old(self)@.public_idx[k].id == id
                        && final(self)@.public_idx == old(self)@.public_idx.remove(k)) || ((forall|
                    k: int,
                | 0 <= k < old(self)@.public_idx.len() ==> old(self)@.public_idx[k].id != id)
                    && final(self)@.public_idx == old(self)@.public_idx)
                &&& forall|h: WorldHandle|
                    final(self)@.public_idx.contains(h) <==> old(self)@.public_idx.contains(h) && h.id
                        != id
            },
    {
        if !table_contains(&self.entries, id) {
            return Err(RegistryError::NotFound);
        }
        let ghost t = self@.entries;
        let ghost idx0 = self@.public_idx;
        let mut k: usize = 0;
        while k < self.public_idx.len() && self.public_idx[k].id != id
            invariant
                self@ == old(self)@,
                k <= self.public_idx@.len(),
                forall|j: int| 0 <= j < k ==> self.public_idx@[j].id != id,
            decreases self.public_idx@.len() - k,
        {
            k = k + 1;
        }
        if k < self.public_idx.len() {
            self.public_idx.remove(k);
        }
        let entry = table_remove(&mut self.entries, id);
        proof {
            let t2 = self@.entries;
            let idx = self@.public_idx;
            assert(t2.dom() =~= t.dom().remove(id));
            assert(t2.len() == t.len() - 1);
            assert forall|h: WorldHandle| idx.contains(h) <==> idx0.contains(h) && h.id != id by {
                if k < idx0.len() {
                    if idx.contains(h) {
                        let j = choose|j: int| 0 <= j < idx.len() && idx[j] == h;
                        let j0 = if j < k { j } else { j + 1 };
                        assert(idx0[j0] == h);
                        if j0 != k as int {
                            assert(idx0[j0].id != idx0[k as int].id);
                        }
                    }
                    if idx0.contains(h) && h.id != id {
                        let j0 = choose|j: int| 0 <= j < idx0.len() && idx0[j] == h;
                        let j = if j0 < k { j0 } else { j0 - 1 };
                        assert(idx[j] == h);
                    }
                } else {
                    if idx0.contains(h) {
                        let j0 = choose|j: int| 0 <= j < idx0.len() && idx0[j] == h;
                        assert(idx0[j0].id != id);
                    }
                }
            }
            assert forall|j: int| 0 <= j < idx.len() implies lists(t2, #[trigger] idx[j]) by {
                assert(idx0.contains(idx[j]));
                let j0 = choose|i: int| 0 <= i < idx0.len() && idx0[i] == idx[j];
                assert(lists(t, idx0[j0]));
            }
            assert forall|a: u64|
                #[trigger] t2.contains_key(a) && t2[a].ty == WorldType::Public && t2[a].handle is Some
                    implies exists|j: int| 0 <= j < idx.len() && idx[j].id == a by {
                let j0 = choose|j: int| 0 <= j < idx0.len() && idx0[j].id == a;
                assert(idx0.contains(idx0[j0]));
                assert(idx.contains(idx0[j0]));
            }
            assert forall|a: int, b: int| 0 <= a < b < idx.len() implies idx[a].id != idx[b].id && !name_lt(
                idx[b].name@,
                idx[a].name@,
            ) by {
                if k < idx0.len() {
                    let a0 = if a < k { a } else { a + 1 };
                    let b0 = if b < k { b } else { b + 1 };
                    assert(idx[a] == idx0[a0]);
                    assert(idx[b] == idx0[b0]);
                } else {
                    assert(idx[a] == idx0[a]);
                    assert(idx[b] == idx0[b]);
                }
            }
        }
        match entry {
            Some(e) => Ok(e),
            None => Err(RegistryError::NotFound),
        }
    }

    /// Every world that is up, with its type, in the table's order.
    pub fn all(&self) -> (r: Vec<(WorldType, WorldHandle)>)
        requires
            self.wf(),
        ensures
            r@.len() <= MAX_WORLDS,
            forall|i: int|
                0 <= i < r@.len() ==> {
                    &&& self@.entries.contains_key((#[trigger] r@[i]).1.id)
                    &&& self@.entries[r@[i].1.id].ty == r@[i].0
                    &&& self@.entries[r@[i].1.id].handle == Some(r@[i].1)
                },
            forall|id: u64|
                #[trigger] self@.entries.contains_key(id) && self@.entries[id].handle is Some
                    ==> exists|i: int| 0 <= i < r@.len() && r@[i].1.id == id,
            forall|i: int, j: int| 0 <= i < j < r@.len() ==> r@[i].1.id != r@[j].1.id,
    {
        let walk = table_walk(&self.entries);
        let mut out: Vec<(WorldType, WorldHandle)> = Vec::new();
        let mut i: usize = 0;
        while i < walk.len()
            invariant
                i <= walk@.len(),
                out@.len() <= i,
                walk@.len() == self@.entries.len(),
                self.wf(),
                forall|j: int|
                    0 <= j < walk@.len() ==> self@.entries.contains_key(#[trigger] walk@[j].0)
                        && self@.entries[walk@[j].0] == walk@[j].1,
                forall|a: int, b: int| 0 <= a < b < walk@.len() ==> walk@[a].0 != walk@[b].0,
                forall|j: int|
                    0 <= j < out@.len() ==> {
                        &&& self@.entries.contains_key((#[trigger] out@[j]).1.id)
                        &&& self@.entries[out@[j].1.id].ty == out@[j].0
                        &&& self@.entries[out@[j].1.id].handle == Some(out@[j].1)
                        &&& exists|w: int| 0 <= w < i && walk@[w].0 == out@[j].1.id
                    },
                forall|w: int|
                    0 <= w < i && (#[trigger] walk@[w]).1.handle is Some ==> exists|j: int|
                        0 <= j < out@.len() && out@[j].1.id == walk@[w].0,
                forall|a: int, b: int| 0 <= a < b < out@.len() ==> out@[a].1.id != out@[b].1.id,
            decreases walk@.len() - i,
        {
            match &walk[i].1.handle {
                Some(h) => {
                    proof {
                        assert(self@.entries.contains_key(walk@[i as int].0));
                        assert(forall|j: int| 0 <= j < out@.len() ==> out@[j].1.id != h.id);
                    }
                    let ghost out0 = out@;
                    out.push((walk[i].1.ty, h.copy()));
                    proof {
                        assert(h.id == walk@[i as int].0);
                        assert(out@[out@.len() - 1].1.id == walk@[i as int].0);
                        assert forall|w: int|
                            0 <= w < i && (#[trigger] walk@[w]).1.handle is Some implies exists|
                            j: int,
                        | 0 <= j < out@.len() && out@[j].1.id == walk@[w].0 by {
                            let j = choose|j: int| 0 <= j < out0.len() && out0[j].1.id == walk@[w].0;
                            assert(out@[j] == out0[j]);
                        }
                    }
                },
                None => {},
            }
            i = i + 1;
        }
        proof {
            assert forall|id: u64|
                #[trigger] self@.entries.contains_key(id) && self@.entries[id].handle is Some
                    implies exists|j: int| 0 <= j < out@.len() && out@[j].1.id == id by {
                let w = choose|w: int| 0 <= w < walk@.len() && walk@[w].0 == id;
                assert(walk@[w].1.handle is Some);
            }
        }
        out
    }

    /// The public worlds that are up, sorted by name.
    pub fn public(&self) -> (r: Vec<WorldHandle>)
        ensures
            r@ == self@.public_idx,
    {
        let mut out: Vec<WorldHandle> = Vec::new();
        let mut i: usize = 0;
        while i < self.public_idx.len()
            invariant
                i <= self.public_idx@.len(),
                out@ == self.public_idx@.take(i as int),
            decreases self.public_idx@.len() - i,
        {
            out.push(self.public_idx[i].copy());
            i = i + 1;
            assert(out@ =~= self.public_idx@.take(i as int));
        }
        assert(out@ =~= self.public_idx@);
        out
    }

    /// Some private world that is up, if there is one.
    pub fn first_private(&self) -> (r: Option<WorldHandle>)
        requires
            self.wf(),
        ensures
            r matches Some(h) ==> self@.entries.contains_key(h.id) && self@.entries[h.id].ty
                == WorldType::Private && self@.entries[h.id].handle == Some(h),
            r is None ==> forall|id: u64|
                #[trigger] self@.entries.contains_key(id) && self@.entries[id].ty == WorldType::Private
                    ==> self@.entries[id].handle is None,
    {
        let walk = table_walk(&self.entries);
        let mut i: usize = 0;
        while i < walk.len()
            invariant
                i <= walk@.len(),
                self.wf(),
                forall|j: int|
                    0 <= j < walk@.len() ==> self@.entries.contains_key(#[trigger] walk@[j].0)
                        && self@.entries[walk@[j].0] == walk@[j].1,
                forall|w: int|
                    0 <= w < i ==> !((#[trigger] walk@[w]).1.ty == WorldType::Private
                        && walk@[w].1.handle is Some),
            decreases walk@.len() - i,
        {
            if walk[i].1.ty == WorldType::Private {
                match &walk[i].1.handle {
                    Some(h) => {
                        assert(self@.entries.contains_key(walk@[i as int].0));
                        return Some(h.copy());
                    },
                    None => {},
                }
            }
            i = i + 1;
        }
        proof {
            assert forall|id: u64|
                #[trigger] self@.entries.contains_key(id) && self@.entries[id].ty == WorldType::Private
                    implies self@.entries[id].handle is None by {
                let w = choose|w: int| 0 <= w < walk@.len() && walk@[w].0 == id;
                assert(walk@[w].1 == self@.entries[id]);
            }
        }
        None
    }
}


/// What every registry satisfies, whatever operations made it: it holds at
/// most `MAX_WORLDS` worlds, no two public worlds share a name, and the public
/// index is sorted by name and lists exactly the public worlds that are up.
pub proof fn lemma_registry_laws(v: RegistryView)
    requires
        registry_wf(v),
    ensures
        v.entries.len() <= MAX_WORLDS,
        forall|a: u64, b: u64|
            v.entries.contains_key(a) && v.entries.contains_key(b) && a != b && v.entries[a].ty
                == WorldType::Public && v.entries[b].ty == WorldType::Public ==> (
            #[trigger] v.entries[a].name@) != (#[trigger] v.entries[b].name@),
        names_sorted(v.public_idx),
        forall|h: WorldHandle| #[trigger] v.public_idx.contains(h) <==> lists(v.entries, h),
{
    assert forall|h: WorldHandle| #[trigger] v.public_idx.contains(h) <==> lists(v.entries, h) by {
        if v.public_idx.contains(h) {
            let k = choose|k: int| 0 <= k < v.public_idx.len() && v.public_idx[k] == h;
            assert(lists(v.entries, v.public_idx[k]));
        }
        if lists(v.entries, h) {
            assert(v.entries.contains_key(h.id));
            let k = choose|k: int| 0 <= k < v.public_idx.len() && v.public_idx[k].id == h.id;
            assert(lists(v.entries, v.public_idx[k]));
            assert(v.public_idx[k] == h);
        }
    }
}

/// `n` as sixteen lower-case hexadecimal digits, most significant first: the
/// printed form of a world's id.
pub open spec fn id_text(n: u64) -> Seq<char> {
    Seq::new(16, |i: int| hex_digit(((n >> ((4 * (15 - i)) as u64)) & 0xf) as int))
}

/// The printed form of a world's id.
pub fn id_string(id: u64) -> (r: String)
    ensures
        r@ == id_text(id),
{
    let mut s = String::new();
    let mut i: u64 = 0;
    while i < 16
        invariant
            i <= 16,
            s@ =~= id_text(id).take(i as int),
        decreases 16 - i,
    {
        let shift: u64 = 60 - 4 * i;
        let x = (id >> shift) & 0xf;
        assert(x < 16) by (bit_vector)
            requires
                x == (id >> shift) & 0xf,
        ;
        s.append(digit_str(x));
        assert(id_text(id).take(i + 1) =~= id_text(id).take(i as int) + seq![hex_digit(x as int)]);
        i = i + 1;
    }
    s
}

/// The value of a lower-case hexadecimal digit.
pub open spec fn hex_value(c: char) -> Option<int> {
    if '0' <= c && c <= '9' {
        Some(c as int - '0' as int)
    } else if 'a' <= c && c <= 'f' {
        Some(c as int - 'a' as int + 10)
    } else {
        None
    }
}

/// Whether every character of `s` is a lower-case hexadecimal digit.
pub open spec fn all_hex(s: Seq<char>) -> bool {
    forall|i: int| 0 <= i < s.len() ==> (#[trigger] hex_value(s[i])) is Some
}

/// The number that the hexadecimal digits `s` spell, most significant first.
pub open spec fn hex_number(s: Seq<char>) -> int
    decreases s.len(),
{
    if s.len() == 0 {
        0
    } else {
        hex_number(s.drop_last()) * 16 + hex_value(s.last()).unwrap()
    }
}

proof fn lemma_hex_number_bound(s: Seq<char>)
    requires
        all_hex(s),
    ensures
        0 <= hex_number(s) < pow16(s.len()),
    decreases s.len(),
{
    if s.len() > 0 {
        let t = s.drop_last();
        assert(all_hex(t)) by {
            assert forall|i: int| 0 <= i < t.len() implies (#[trigger] hex_value(t[i])) is Some by {
                assert(t[i] == s[i]);
            }
        }
        assert(hex_value(s[s.len() - 1]) is Some);
        lemma_hex_number_bound(t);
        let h = hex_number(t);
        let d = hex_value(s.last()).unwrap();
        assert(0 <= h * 16 + d < pow16(t.len()) * 16) by (nonlinear_arith)
            requires
                0 <= h < pow16(t.len()),
                0 <= d < 16,
        ;
    }
}

pub open spec fn pow16(e: nat) -> int
    decreases e,
{
    if e == 0 {
        1
    } else {
        pow16((e - 1) as nat) * 16
    }
}

/// Reads a world's id from its printed form: exactly sixteen lower-case
/// hexadecimal digits.
pub fn parse_id(s: &str) -> (r: Option<u64>)
    ensures
        r == (if s@.len() == 16 && all_hex(s@) {
            Some(hex_number(s@) as u64)
        } else {
            None
        }),
        r matches Some(n) ==> n == hex_number(s@),
{
    let len = s.unicode_len();
    if len != 16 {
        return None;
    }
    let mut n: u64 = 0;
    let mut i: usize = 0;
    while i < 16
        invariant
            len == s@.len() == 16,
            i <= 16,
            all_hex(s@.take(i as int)),
            n == hex_number(s@.take(i as int)),
        decreases 16 - i,
    {
        let c = s.get_char(i);
        let d: u64 = if '0' <= c && c <= '9' {
            (c as u64) - ('0' as u64)
        } else if 'a' <= c && c <= 'f' {
            (c as u64) - ('a' as u64) + 10
        } else {
            proof {
                assert(hex_value(s@[i as int]) is None);
                assert(!all_hex(s@));
            }
            return None;
        };
        let ghost t = s@.take(i + 1);
        assert(t.drop_last() =~= s@.take(i as int));
        assert(all_hex(t)) by {
            assert forall|j: int| 0 <= j < t.len() implies (#[trigger] hex_value(t[j])) is Some by {
                if j < i {
                    assert(t[j] == s@.take(i as int)[j]);
                }
            }
        }
        proof {
            lemma_hex_number_bound(s@.take(i as int));
            assert(pow16(i as nat) <= pow16(15)) by {
                lemma_pow16_monotonic(i as nat, 15);
            }
            assert(pow16(15) == 0x1000_0000_0000_0000) by {
                reveal_with_fuel(pow16, 16);
            }
            assert(n * 16 + d < 0x1_0000_0000_0000_0000) by (nonlinear_arith)
                requires
                    n < 0x1000_0000_0000_0000,
                    d < 16,
            ;
        }
        n = n * 16 + d;
        i = i + 1;
    }
    assert(s@.take(16) =~= s@);
    Some(n)
}

proof fn lemma_pow16_monotonic(a: nat, b: nat)
    requires
        a <= b,
    ensures
        1 <= pow16(a) <= pow16(b),
    decreases b,
{
    if a < b {
        lemma_pow16_monotonic(a, (b - 1) as nat);
    } else if b > 0 {
        lemma_pow16_monotonic((b - 1) as nat, (b - 1) as nat);
    }
}

/// Where a public world is saved: `<dir>/<id>.world`.
pub fn path(dir: &str, id: u64) -> (r: String)
    ensures
        r@ == dir@ + "/"@ + id_text(id) + ".world"@,
{
    let mut s = String::from_str(dir);
    s.append("/");
    let text = id_string(id);
    s.append(text.as_str());
    s.append(".world");
    s
}

} // verus!
