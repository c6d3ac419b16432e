//! Write-once cache cells.
//!
//! [`OptCell`] stores at most one value and refuses a second write.
//! [`PtrMapCell`] stores at most one value per type-identity token and
//! promotes its representation lazily from empty to a single inline entry
//! to a general mapping as distinct tokens arrive.  Both report a misuse
//! (a second write to an occupied slot) as a recoverable [`CacheError`]
//! instead of overwriting.

use vstd::prelude::*;

verus! {

/// A cache slot was asked to store a value it already holds one for.
#[derive(Clone, Copy, Debug, PartialEq, Eq, Structural)]
pub struct CacheError;

/// A single-assignment cache cell: a slot holding at most one value,
/// written at most once and read many times.
pub struct OptCell<T> {
    slot: Option<T>,
}

impl<T> View for OptCell<T> {
    type V = Option<T>;

    closed spec fn view(&self) -> Option<T> {
        self.slot
    }
}

impl<T> OptCell<T> {
    /// Creates a cell, empty or pre-filled.
    pub fn new(val: Option<T>) -> (c: OptCell<T>)
        ensures
            c@ == val,
    {
        OptCell { slot: val }
    }

    /// Installs `val` if the cell is still empty; an occupied cell is left
    /// unchanged and the misuse is reported.
    pub fn set(&mut self, val: T) -> (r: Result<(), CacheError>)
        ensures
            old(self)@ is None ==> r is Ok && final(self)@ == Some(val),
            old(self)@ is Some ==> r is Err && final(self)@ == old(self)@,
    {
        match self.slot {
            Option::None => {
                self.slot = Some(val);
                Ok(())
            },
            Option::Some(_) => Err(CacheError),
        }
    }

    /// Reads the stored value; empty before the first `set`.
    pub fn get(&self) -> (r: Option<&T>)
        ensures
            match r {
                Some(v) => self@ == Some(*v),
                None => self@ is None,
            },
    {
        self.slot.as_ref()
    }

    /// Mutable access to the stored value of a cell known to be filled.
    pub fn get_mut(&mut self) -> (r: &mut T)
        requires
            old(self)@ is Some,
        ensures
            *r == old(self)@->0,
            final(self)@ == Some(*final(r)),
    {
        match &mut self.slot {
            Option::Some(v) => v,
            Option::None => vstd::pervasive::unreached(),
        }
    }
}

impl<T: Clone> Clone for OptCell<T> {
    fn clone(&self) -> (c: OptCell<T>) {
        OptCell { slot: self.slot.clone() }
    }
}

/// Internal representation of a [`PtrMapCell`]: no entry, one inline entry,
/// or a general mapping once two distinct tokens are present.
enum PtrMap<V> {
    Empty,
    One(u64, V),
    Many(Vec<(u64, V)>),
}

/// The mapping that a sequence of token/value entries denotes.
spec fn entries_map<V>(es: Seq<(u64, V)>) -> Map<u64, V>
    decreases es.len(),
{
    if es.len() == 0 {
        Map::empty()
    } else {
        entries_map(es.drop_last()).insert(es.last().0, es.last().1)
    }
}

/// No token occurs twice among the entries.
spec fn tokens_distinct<V>(es: Seq<(u64, V)>) -> bool {
    forall|i: int, j: int| 0 <= i < j < es.len() ==> es[i].0 != es[j].0
}

proof fn lemma_entries_map_contains<V>(es: Seq<(u64, V)>, k: u64)
    ensures
        entries_map(es).contains_key(k) <==> exists|i: int| 0 <= i < es.len() && es[i].0 == k,
    decreases es.len(),
{
    if es.len() > 0 {
        lemma_entries_map_contains(es.drop_last(), k);
        if entries_map(es).contains_key(k) {
            if es.last().0 == k {
                assert(es[es.len() - 1].0 == k);
            } else {
                let i = choose|i: int| 0 <= i < es.drop_last().len() && es.drop_last()[i].0 == k;
                assert(es[i].0 == k);
            }
        }
        if exists|i: int| 0 <= i < es.len() && es[i].0 == k {
            let i = choose|i: int| 0 <= i < es.len() && es[i].0 == k;
            if i < es.len() - 1 {
                assert(es.drop_last()[i].0 == k);
            }
        }
    }
}

/// Updating one entry's value updates the mapping at its token.
proof fn lemma_entries_map_update<V>(es: Seq<(u64, V)>, i: int, v: V)
    requires
        tokens_distinct(es),
        0 <= i < es.len(),
    ensures
        entries_map(es.update(i, (es[i].0, v))) =~= entries_map(es).insert(es[i].0, v),
    decreases es.len(),
{
    let k = es[i].0;
    let upd = es.update(i, (k, v));
    if i == es.len() - 1 {
        assert(upd.drop_last() =~= es.drop_last());
        assert(upd.last() == (k, v));
    } else {
        assert(upd.drop_last() =~= es.drop_last().update(i, (k, v)));
        assert(upd.last() == es.last());
        assert(es.drop_last()[i] == es[i]);
        lemma_entries_map_update(es.drop_last(), i, v);
        assert(es.last().0 != k);
        assert(entries_map(es.drop_last()).insert(k, v).insert(es.last().0, es.last().1)
            =~= entries_map(es.drop_last()).insert(es.last().0, es.last().1).insert(k, v));
    }
}

/// With distinct tokens, the entry holding `k` gives the mapping's value.
proof fn lemma_entries_map_index<V>(es: Seq<(u64, V)>, i: int)
    requires
        tokens_distinct(es),
        0 <= i < es.len(),
    ensures
        entries_map(es).contains_key(es[i].0),
        entries_map(es)[es[i].0] == es[i].1,
    decreases es.len(),
{
    lemma_entries_map_contains(es, es[i].0);
    if i < es.len() - 1 {
        assert(es.drop_last()[i] == es[i]);
        lemma_entries_map_index(es.drop_last(), i);
        assert(es.last().0 != es[i].0);
    }
}

/// The mapping that a cache slot's representation denotes.
spec fn ptr_map_view<V>(m: PtrMap<V>) -> Map<u64, V> {
    match m {
        PtrMap::Empty => Map::empty(),
        PtrMap::One(k, v) => Map::empty().insert(k, v),
        PtrMap::Many(es) => entries_map(es@),
    }
}

/// The representation is sound: a general mapping holds at least two
/// entries with pairwise distinct tokens.
spec fn ptr_map_wf<V>(m: PtrMap<V>) -> bool {
    match m {
        PtrMap::Empty => true,
        PtrMap::One(_, _) => true,
        PtrMap::Many(es) => es@.len() >= 2 && tokens_distinct(es@),
    }
}

/// Mutable access to one entry's value; its token is untouched.
fn entry_value_mut<V>(es: &mut Vec<(u64, V)>, i: usize) -> (r: &mut V)
    requires
        i < old(es).len(),
    ensures
        *r == old(es)@[i as int].1,
        final (es)@ == old(es)@.update(i as int, (old(es)@[i as int].0, *final (r))),
    no_unwind
{
    let e = &mut es[i];
    &mut e.1
}

/// Mutable access to the value stored for `key`; tokens and the
/// representation's shape are untouched.
fn ptr_map_value_mut<V>(m: &mut PtrMap<V>, key: u64) -> (r: &mut V)
    requires
        ptr_map_wf(*old(m)),
        ptr_map_view(*old(m)).contains_key(key),
    ensures
        *r == ptr_map_view(*old(m))[key],
        ptr_map_view(*final (m)) == ptr_map_view(*old(m)).insert(key, *final (r)),
        ptr_map_wf(*final (m)),
        (*final (m)) is Empty <==> (*old(m)) is Empty,
        (*final (m)) is One <==> (*old(m)) is One,
        (*final (m)) is Many <==> (*old(m)) is Many,
        (*old(m)) is One ==> final (m)->One_0 == old(m)->One_0,
    no_unwind
{
    match m {
        PtrMap::Empty => vstd::pervasive::unreached(),
        PtrMap::One(id, v) => {
            if *id == key {
                proof {
                    assert(ptr_map_view(*old(m)) =~= Map::empty().insert(
                        key,
                        ptr_map_view(*old(m))[key],
                    ));
                }
                v
            } else {
                vstd::pervasive::unreached()
            }
        },
        PtrMap::Many(es) => {
            let ghost all = es@;
            let n = es.len();
            let mut i: usize = 0;
            let mut found: usize = n;
            while i < n
                invariant
                    n == es@.len(),
                    i <= n,
                    es@ == all,
                    found == n || (found < i && all[found as int].0 == key),
                    found == n ==> forall|j: int| 0 <= j < i ==> all[j].0 != key,
                decreases n - i,
            {
                if found == n && es[i].0 == key {
                    found = i;
                }
                i += 1;
            }
            proof {
                lemma_entries_map_contains(all, key);
                assert(found < n);
                lemma_entries_map_index(all, found as int);
                assert forall|nv: V|
                    entries_map(all.update(found as int, (key, nv))) =~= entries_map(all).insert(
                        key,
                        nv,
                    ) by {
                    lemma_entries_map_update(all, found as int, nv);
                }
            }
            entry_value_mut(es, found)
        },
    }
}

/// A cache slot holding at most one value per type-identity token.
///
/// A token (an opaque `u64`) stands for the concrete type that a stored
/// value carries at runtime; at most one value is stored per token.  The
/// slot starts empty, stores its first entry inline, and only allocates a
/// general mapping when a second, distinct token arrives.  It never
/// shrinks back to a smaller representation.
pub struct PtrMapCell<V> {
    map: PtrMap<V>,
}

impl<V> View for PtrMapCell<V> {
    type V = Map<u64, V>;

    closed spec fn view(&self) -> Map<u64, V> {
        ptr_map_view(self.map)
    }
}

impl<V> PtrMapCell<V> {
    #[verifier::type_invariant]
    closed spec fn inv(self) -> bool {
        ptr_map_wf(self.map)
    }

    /// True while no entry has been stored.
    pub closed spec fn state_empty(&self) -> bool {
        self.map is Empty
    }

    /// True while exactly one entry is stored inline.
    pub closed spec fn state_single(&self) -> bool {
        self.map is One
    }

    /// True once two or more distinct tokens are stored.
    pub closed spec fn state_multi(&self) -> bool {
        self.map is Many
    }

    /// The token of the single inline entry.
    pub closed spec fn single_token(&self) -> u64
        recommends
            self.state_single(),
    {
        self.map->One_0
    }

    /// Creates an empty slot.
    pub fn new() -> (c: PtrMapCell<V>)
        ensures
            c@ == Map::<u64, V>::empty(),
            c.state_empty(),
    {
        PtrMapCell { map: PtrMap::Empty }
    }

    /// Creates a slot already holding one entry.
    pub fn with_one(key: u64, val: V) -> (c: PtrMapCell<V>)
        ensures
            c@ == Map::<u64, V>::empty().insert(key, val),
            c.state_single(),
            c.single_token() == key,
    {
        PtrMapCell { map: PtrMap::One(key, val) }
    }

    /// True while exactly one entry is stored inline.
    pub fn is_one(&self) -> (r: bool)
        ensures
            r == self.state_single(),
    {
        match self.map {
            PtrMap::One(_, _) => true,
            _ => false,
        }
    }

    /// The value stored for `key`, if that exact token is present; absent
    /// tokens yield `None`, never a failure.
    pub fn get(&self, key: u64) -> (r: Option<&V>)
        ensures
            match r {
                Some(v) => self@.contains_key(key) && self@[key] == *v,
                None => !self@.contains_key(key),
            },
    {
        proof {
            use_type_invariant(self);
        }
        match &self.map {
            PtrMap::Empty => None,
            PtrMap::One(id, v) => {
                if *id == key {
                    Some(v)
                } else {
                    None
                }
            },
            PtrMap::Many(es) => {
                let mut i: usize = 0;
                let n = es.len();
                while i < n
                    invariant
                        n == es@.len(),
                        i <= n,
                        tokens_distinct(es@),
                        forall|j: int| 0 <= j < i ==> es@[j].0 != key,
                        self@ == entries_map(es@),
                    decreases n - i,
                {
                    if es[i].0 == key {
                        proof {
                            lemma_entries_map_index(es@, i as int);
                        }
                        return Some(&es[i].1);
                    }
                    i += 1;
                }
                proof {
                    lemma_entries_map_contains(es@, key);
                }
                None
            },
        }
    }

    /// Mutable access to the value stored for a token known to be
    /// present; the slot keeps its tokens and structural state.
    pub fn get_mut(&mut self, key: u64) -> (r: &mut V)
        requires
            old(self)@.contains_key(key),
        ensures
            *r == old(self)@[key],
            final (self)@ == old(self)@.insert(key, *final (r)),
            final (self).state_empty() == old(self).state_empty(),
            final (self).state_single() == old(self).state_single(),
            final (self).state_multi() == old(self).state_multi(),
    {
        proof {
            use_type_invariant(&*self);
        }
        ptr_map_value_mut(&mut self.map, key)
    }

    /// Consumes the slot and extracts the entry stored for `key`,
    /// discarding the rest.
    pub fn into_value(self, key: u64) -> (r: Option<V>)
        ensures
            match r {
                Some(v) => self@.contains_key(key) && self@[key] == v,
                None => !self@.contains_key(key),
            },
    {
        proof {
            use_type_invariant(&self);
        }
        match self.map {
            PtrMap::Empty => None,
            PtrMap::One(id, v) => {
                if id == key {
                    Some(v)
                } else {
                    None
                }
            },
            PtrMap::Many(mut es) => {
                let ghost all = es@;
                proof {
                    assert(self@ =~= entries_map(all));
                }
                let mut i: usize = 0;
                let n = es.len();
                while i < n
                    invariant
                        n == es@.len(),
                        i <= n,
                        es@ == all,
                        self@ == entries_map(all),
                        tokens_distinct(all),
                        forall|j: int| 0 <= j < i ==> all[j].0 != key,
                    decreases n - i,
                {
                    if es[i].0 == key {
                        proof {
                            lemma_entries_map_index(all, i as int);
                        }
                        let e = es.remove(i);
                        return Some(e.1);
                    }
                    i += 1;
                }
                proof {
                    lemma_entries_map_contains(all, key);
                }
                None
            },
        }
    }

    /// Stores a new entry for `key`: an empty slot becomes single, a
    /// single slot with a distinct token becomes a mapping seeded with
    /// both entries.  A token already present is refused and the slot is
    /// left unchanged.
    pub fn insert(&mut self, key: u64, val: V) -> (r: Result<(), CacheError>)
        ensures
            match r {
                Ok(()) => !old(self)@.contains_key(key) && final(self)@ == old(self)@.insert(
                    key,
                    val,
                ),
                Err(_) => old(self)@.contains_key(key) && final(self)@ == old(self)@,
            },
            r is Ok && old(self).state_empty() ==> final(self).state_single()
                && final(self).single_token() == key,
            r is Ok && old(self).state_single() ==> final(self).state_multi(),
            old(self).state_multi() ==> final(self).state_multi(),
            r is Err ==> final(self).state_empty() == old(self).state_empty()
                && final(self).state_single() == old(self).state_single()
                && final(self).state_multi() == old(self).state_multi(),
    {
        proof {
            use_type_invariant(&*self);
        }
        let mut map = PtrMap::Empty;
        core::mem::swap(&mut map, &mut self.map);
        match map {
            PtrMap::Empty => {
                self.map = PtrMap::One(key, val);
                Ok(())
            },
            PtrMap::One(id, one) => {
                if id == key {
                    self.map = PtrMap::One(id, one);
                    Err(CacheError)
                } else {
                    let mut es: Vec<(u64, V)> = Vec::new();
                    es.push((id, one));
                    es.push((key, val));
                    proof {
                        let s1 = seq![(id, one)];
                        assert(s1.drop_last() =~= Seq::<(u64, V)>::empty());
                        assert(entries_map(Seq::<(u64, V)>::empty()) =~= Map::<u64, V>::empty());
                        assert(entries_map(s1) =~= Map::<u64, V>::empty().insert(id, one));
                        assert(es@.drop_last() =~= s1);
                        assert(es@.last() == (key, val));
                        assert(entries_map(es@) =~= Map::<u64, V>::empty().insert(id, one).insert(
                            key,
                            val,
                        ));
                    }
                    self.map = PtrMap::Many(es);
                    Ok(())
                }
            },
            PtrMap::Many(mut es) => {
                let ghost all = es@;
                proof {
                    assert(old(self)@ =~= entries_map(all));
                }
                let mut i: usize = 0;
                let n = es.len();
                while i < n
                    invariant
                        n == es@.len(),
                        i <= n,
                        es@ == all,
                        all.len() >= 2,
                        old(self)@ == entries_map(all),
                        old(self).state_multi(),
                        tokens_distinct(all),
                        forall|j: int| 0 <= j < i ==> all[j].0 != key,
                    decreases n - i,
                {
                    if es[i].0 == key {
                        proof {
                            lemma_entries_map_index(all, i as int);
                        }
                        self.map = PtrMap::Many(es);
                        return Err(CacheError);
                    }
                    i += 1;
                }
                proof {
                    lemma_entries_map_contains(all, key);
                }
                es.push((key, val));
                proof {
                    assert(es@.drop_last() =~= all);
                    assert(entries_map(es@) =~= entries_map(all).insert(key, val));
                }
                self.map = PtrMap::Many(es);
                Ok(())
            },
        }
    }

    /// Fast-path accessor for a slot the caller knows to be in the single
    /// state; see [`Self::is_one`].
    pub fn one(&self) -> (r: &V)
        requires
            self.state_single(),
        ensures
            self@ == Map::empty().insert(self.single_token(), *r),
    {
        match &self.map {
            PtrMap::One(_, v) => v,
            _ => vstd::pervasive::unreached(),
        }
    }
}

impl<V: Clone> Clone for PtrMapCell<V> {
    fn clone(&self) -> (c: PtrMapCell<V>) {
        proof {
            use_type_invariant(self);
        }
        match &self.map {
            PtrMap::Empty => PtrMapCell { map: PtrMap::Empty },
            PtrMap::One(id, v) => PtrMapCell { map: PtrMap::One(*id, v.clone()) },
            PtrMap::Many(es) => {
                let mut copy: Vec<(u64, V)> = Vec::new();
                let mut i: usize = 0;
                let n = es.len();
                while i < n
                    invariant
                        n == es@.len(),
                        i <= n,
                        tokens_distinct(es@),
                        copy@.len() == i,
                        forall|j: int| 0 <= j < i ==> copy@[j].0 == es@[j].0,
                    decreases n - i,
                {
                    copy.push((es[i].0, es[i].1.clone()));
                    i += 1;
                }
                PtrMapCell { map: PtrMap::Many(copy) }
            },
        }
    }
}

} // verus!
