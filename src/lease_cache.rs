use std::collections::HashMap;
use std::collections::HashSet;
use rand::seq::SliceRandom;
use vstd::prelude::*;
use vstd::std_specs::hash::obeys_key_model;

verus! {

broadcast use vstd::std_specs::hash::group_hash_axioms;

/// The objects of `m` that expire at tick `t`.
pub open spec fn expiring_at<Obj>(m: Map<Obj, usize>, t: usize) -> Set<Obj> {
    m.dom().filter(|o: Obj| m[o] == t)
}

/// What stays of `m` once tick `t` has been swept.
pub open spec fn after_sweep<Obj>(m: Map<Obj, usize>, t: usize) -> Map<Obj, usize> {
    m.remove_keys(expiring_at(m, t))
}

/// What `m` becomes when the clock moves from `now` to `now + 1` and `obj` is
/// then accessed with `lease`.
pub open spec fn accessed<Obj>(m: Map<Obj, usize>, now: usize, obj: Obj, lease: usize) -> Map<
    Obj,
    usize,
> {
    let swept = after_sweep(m, (now + 1) as usize);
    if lease > 0 {
        swept.insert(obj, (now + 1 + lease) as usize)
    } else {
        swept.remove(obj)
    }
}

/// Hit when `obj` is still resident after the sweep that the access starts with.
pub open spec fn access_outcome<Obj>(m: Map<Obj, usize>, now: usize, obj: Obj) -> AccessResult {
    if after_sweep(m, (now + 1) as usize).contains_key(obj) {
        AccessResult::Hit
    } else {
        AccessResult::Miss
    }
}

/// Inserting a key after removing it is the same as inserting it.
proof fn lemma_renew<Obj>(m: Map<Obj, usize>, obj: Obj, v: usize)
    ensures
        m.remove(obj).insert(obj, v) == m.insert(obj, v),
{
    assert(m.remove(obj).insert(obj, v) =~= m.insert(obj, v));
}

/// Relies on rand's `SliceRandom::choose` with the thread-local generator: it
/// returns `None` on an empty slice and otherwise one of the slice's elements,
/// drawn uniformly.
#[verifier::external_body]
fn choose_random<T>(items: &Vec<T>) -> (r: Option<&T>)
    ensures
        items@.len() == 0 <==> r is None,
        r matches Some(x) ==> items@.contains(*x),
{
    items.choose(&mut rand::thread_rng())
}

/// What an object identity must offer: hashing and equality (through `Eq` and
/// `Hash`) and an exact copy.
pub trait ObjIdTraits: Sized + Eq + std::hash::Hash {
    /// Returns a value equal to `self`.
    fn duplicate(&self) -> (r: Self)
        ensures
            r == *self,
    ;
}

impl ObjIdTraits for u64 {
    fn duplicate(&self) -> (r: Self) {
        *self
    }
}

impl ObjIdTraits for usize {
    fn duplicate(&self) -> (r: Self) {
        *self
    }
}

impl ObjIdTraits for String {
    fn duplicate(&self) -> (r: Self) {
        self.clone()
    }
}

/// Outcome of one access.
#[derive(Debug, Clone, Copy, PartialEq, Eq, Structural)]
pub enum AccessResult {
    Hit,
    Miss,
}

/// Errors that the cache reports to its caller.
#[derive(Debug, Clone, Copy, PartialEq, Eq, Structural)]
pub enum CacheError {
    /// An eviction was asked for while no object is resident.
    EmptyCacheEviction,
    /// A capacity bound of zero was asked for.
    ZeroCapacity,
    /// The capacity bound was already set, or the clock has already advanced.
    CapacityAlreadyFixed,
}

/// An object identity paired with a tag (a lease, or a source category).
#[derive(Debug, Clone, Hash, PartialEq, Eq)]
pub struct TaggedObjectId<Tag, Obj>(pub Tag, pub Obj);

impl<Tag: ObjIdTraits, Obj: ObjIdTraits> ObjIdTraits for TaggedObjectId<Tag, Obj> {
    fn duplicate(&self) -> (r: Self) {
        TaggedObjectId(self.0.duplicate(), self.1.duplicate())
    }
}

/// The map that inserting each `(object, lease)` of `items` in turn, with the
/// clock standing at `now`, makes of `m`.
pub open spec fn insert_all<Obj>(m: Map<Obj, usize>, now: usize, items: Seq<(Obj, usize)>) -> Map<
    Obj,
    usize,
>
    decreases items.len(),
{
    if items.len() == 0 {
        m
    } else {
        let last = items.last();
        insert_all(m, now, items.drop_last()).insert(last.0, (now + last.1) as usize)
    }
}

/// Inserting objects that are pairwise distinct and not yet resident, each
/// with a positive lease and no tick in between, adds one resident object per
/// insert: from an empty cache, `N` such inserts leave `N` resident objects.
pub proof fn lemma_distinct_inserts_count<Obj>(
    m: Map<Obj, usize>,
    now: usize,
    items: Seq<(Obj, usize)>,
)
    requires
        m.dom().finite(),
        forall|i: int, j: int| 0 <= i < j < items.len() ==> items[i].0 != items[j].0,
        forall|i: int| 0 <= i < items.len() ==> !m.contains_key(#[trigger] items[i].0),
        forall|i: int| 0 <= i < items.len() ==> #[trigger] items[i].1 > 0,
    ensures
        insert_all(m, now, items).dom().finite(),
        insert_all(m, now, items).len() == m.len() + items.len(),
        forall|i: int|
            0 <= i < items.len() ==> insert_all(m, now, items).contains_key(#[trigger] items[i].0),
        forall|k: Obj| #[trigger]
            insert_all(m, now, items).contains_key(k) ==> m.contains_key(k) || exists|i: int|
                0 <= i < items.len() && items[i].0 == k,
    decreases items.len(),
{
    if items.len() > 0 {
        let prefix = items.drop_last();
        lemma_distinct_inserts_count(m, now, prefix);
        let before = insert_all(m, now, prefix);
        let last = items.last();
        assert(forall|i: int| 0 <= i < prefix.len() ==> prefix[i] == items[i]);
        assert forall|k: Obj| before.contains_key(k) implies k != last.0 by {
            if k == last.0 {
                assert(!m.contains_key(items[items.len() - 1].0));
                let i = choose|i: int| 0 <= i < prefix.len() && prefix[i].0 == k;
                assert(items[i].0 == items[items.len() - 1].0);
            }
        }
        let after = insert_all(m, now, items);
        assert forall|k: Obj| #[trigger] after.contains_key(k) implies m.contains_key(k)
            || exists|i: int| 0 <= i < items.len() && items[i].0 == k by {
            if k == last.0 {
                assert(items[items.len() - 1].0 == k);
            } else if !m.contains_key(k) {
                let i = choose|i: int| 0 <= i < prefix.len() && prefix[i].0 == k;
                assert(items[i].0 == k);
            }
        }
        assert forall|i: int| 0 <= i < items.len() implies after.contains_key(
            #[trigger] items[i].0,
        ) by {
            if i < prefix.len() {
                assert(before.contains_key(prefix[i].0));
            }
        }
    }
}

/// Sweeping a tick takes out exactly the objects that expire at it: the
/// resident count drops by their number.
pub proof fn lemma_sweep_len<Obj>(m: Map<Obj, usize>, t: usize)
    requires
        m.dom().finite(),
    ensures
        expiring_at(m, t).finite(),
        after_sweep(m, t).dom().finite(),
        after_sweep(m, t).len() == m.len() - expiring_at(m, t).len(),
        expiring_at(m, t).len() <= m.len(),
{
    let gone = expiring_at(m, t);
    vstd::set_lib::lemma_len_subset(gone, m.dom());
    m.lemma_remove_keys_len(gone);
    assert(after_sweep(m, t).dom() =~= m.dom().difference(gone));
}

/// A tick at which no resident object expires leaves the resident objects and
/// their expirations as they were.
pub proof fn lemma_quiet_tick_keeps_residents<Obj>(m: Map<Obj, usize>, t: usize)
    requires
        expiring_at(m, t).is_empty(),
    ensures
        after_sweep(m, t) == m,
{
    assert(after_sweep(m, t) =~= m) by {
        assert forall|o: Obj| m.contains_key(o) implies !expiring_at(m, t).contains(o) by {}
    }
}

/// A lease of three ticks: the sweeps of the first two ticks leave the object
/// resident, the sweep of the third tick takes it out, and it is not resident
/// afterwards.
pub proof fn lemma_three_tick_round_trip<Obj>(m: Map<Obj, usize>, now: usize, o: Obj)
    requires
        now + 3 <= usize::MAX,
    ensures
        ({
            let m0 = m.insert(o, (now + 3) as usize);
            let m1 = after_sweep(m0, (now + 1) as usize);
            let m2 = after_sweep(m1, (now + 2) as usize);
            &&& !expiring_at(m0, (now + 1) as usize).contains(o)
            &&& !expiring_at(m1, (now + 2) as usize).contains(o)
            &&& expiring_at(m2, (now + 3) as usize).contains(o)
            &&& !after_sweep(m2, (now + 3) as usize).contains_key(o)
        }),
{
}

/// A cache whose resident objects expire after a lease measured in accesses.
///
/// Two indices describe one set of resident objects: `content_map` maps each
/// object to its absolute expiration tick, and `expiring_map` groups the
/// objects by that tick so that a sweep touches only the objects that expire.
#[derive(Clone)]
pub struct LeaseCache<Obj> {
    expiring_map: HashMap<usize, HashSet<Obj>>,
    current_time: usize,
    content_map: HashMap<Obj, usize>,
    capacity: Option<usize>,
}

impl<Obj: ObjIdTraits> LeaseCache<Obj> {
    /// The resident objects, each with its absolute expiration tick.
    pub closed spec fn expirations(&self) -> Map<Obj, usize> {
        self.content_map@
    }

    /// The logical clock.
    pub closed spec fn now(&self) -> usize {
        self.current_time
    }

    /// The capacity bound, if one was set.
    pub closed spec fn capacity_bound(&self) -> Option<usize> {
        self.capacity
    }

    /// The buckets of the expiration index, by tick.
    closed spec fn buckets(&self) -> Map<usize, Set<Obj>> {
        self.expiring_map@.map_values(|b: HashSet<Obj>| b@)
    }

    /// The internal invariant: both indices describe the same resident set,
    /// no bucket is empty, and every resident object expires after `now()`.
    pub closed spec fn wf(&self) -> bool {
        &&& obeys_key_model::<Obj>()
        &&& Self::indices_agree(self.buckets(), self.content_map@, self.current_time)
    }

    /// `buckets` groups the objects of `content` by expiration tick, holds no
    /// empty bucket, and every expiration lies after `now`.
    closed spec fn indices_agree(
        buckets: Map<usize, Set<Obj>>,
        content: Map<Obj, usize>,
        now: usize,
    ) -> bool {
        &&& forall|t: usize| #[trigger] buckets.contains_key(t) ==> !buckets[t].is_empty()
        &&& forall|t: usize, o: Obj|
            buckets.contains_key(t) && #[trigger] buckets[t].contains(o) ==> content.contains_key(o)
                && content[o] == t
        &&& forall|o: Obj| #[trigger]
            content.contains_key(o) ==> {
                &&& buckets.contains_key(content[o])
                &&& buckets[content[o]].contains(o)
                &&& content[o] > now
            }
    }

    /// Ticks left before `o` expires, or `None` when it is not resident.
    pub open spec fn remaining_lease(&self, o: Obj) -> Option<usize> {
        if self.expirations().contains_key(o) {
            let e = self.expirations()[o];
            Some(
                if e > self.now() {
                    (e - self.now()) as usize
                } else {
                    0
                },
            )
        } else {
            None
        }
    }

    /// What the invariant gives callers: finitely many objects are resident,
    /// and each of them expires after the current tick.
    pub proof fn lemma_wf_facts(&self)
        requires
            self.wf(),
        ensures
            self.expirations().dom().finite(),
            forall|o: Obj| #[trigger]
                self.expirations().contains_key(o) ==> self.expirations()[o] > self.now(),
    {
    }

    /// An empty cache with the clock at zero and no capacity bound.
    ///
    /// The invariant is established for object types whose `Hash` and `Eq`
    /// agree with their identity (the integer types among them).
    pub fn new() -> (r: Self)
        ensures
            obeys_key_model::<Obj>() ==> r.wf(),
            r.expirations() == Map::<Obj, usize>::empty(),
            r.now() == 0,
            r.capacity_bound() is None,
    {
        LeaseCache {
            expiring_map: HashMap::new(),
            current_time: 0,
            content_map: HashMap::new(),
            capacity: None,
        }
    }

    /// Takes `obj_id` out of the bucket of tick `expiration`, and drops the
    /// bucket once it is empty.
    fn remove_from_expiring_map(&mut self, expiration: usize, obj_id: &Obj)
        requires
            obeys_key_model::<Obj>(),
            old(self).buckets().contains_key(expiration),
        ensures
            final(self).content_map == old(self).content_map,
            final(self).current_time == old(self).current_time,
            final(self).capacity == old(self).capacity,
            final(self).buckets() == ({
                let rest = old(self).buckets()[expiration].remove(*obj_id);
                if rest.is_empty() {
                    old(self).buckets().remove(expiration)
                } else {
                    old(self).buckets().insert(expiration, rest)
                }
            }),
    {
        let ghost before = self.buckets();
        if let Some(mut set) = self.expiring_map.remove(&expiration) {
            set.remove(obj_id);
            if !set.is_empty() {
                self.expiring_map.insert(expiration, set);
            }
        }
        assert(self.buckets() =~= ({
            let rest = before[expiration].remove(*obj_id);
            if rest.is_empty() {
                before.remove(expiration)
            } else {
                before.insert(expiration, rest)
            }
        }));
    }

    /// Takes `obj_id` out of both indices; nothing changes if it is absent.
    fn remove_entry(&mut self, obj_id: &Obj)
        requires
            old(self).wf(),
        ensures
            final(self).wf(),
            final(self).expirations() == old(self).expirations().remove(*obj_id),
            final(self).now() == old(self).now(),
            final(self).capacity_bound() == old(self).capacity_bound(),
    {
        if let Some(expiration) = self.content_map.remove(obj_id) {
            self.remove_from_expiring_map(expiration, obj_id);
        }
        assert(self.content_map@ =~= old(self).content_map@.remove(*obj_id));
    }

    /// Records `obj_id` in both indices as expiring at `expiration`.
    fn insert_entry(&mut self, obj_id: Obj, expiration: usize)
        requires
            old(self).wf(),
            !old(self).expirations().contains_key(obj_id),
            expiration > old(self).now(),
        ensures
            final(self).wf(),
            final(self).expirations() == old(self).expirations().insert(obj_id, expiration),
            final(self).now() == old(self).now(),
            final(self).capacity_bound() == old(self).capacity_bound(),
    {
        let ghost before = self.buckets();
        let mut bucket = match self.expiring_map.remove(&expiration) {
            Some(set) => set,
            None => HashSet::new(),
        };
        let ghost old_bucket = bucket@;
        assert(before.contains_key(expiration) ==> old_bucket == before[expiration]);
        assert(!before.contains_key(expiration) ==> old_bucket.is_empty());
        bucket.insert(obj_id.duplicate());
        self.expiring_map.insert(expiration, bucket);
        self.content_map.insert(obj_id, expiration);
        assert(self.buckets() =~= before.insert(expiration, old_bucket.insert(obj_id)));
    }

    /// Makes `obj_id` resident with a lease of `lease` ticks from now,
    /// replacing any lease it held.
    pub fn insert(&mut self, obj_id: Obj, lease: usize)
        requires
            old(self).wf(),
            lease > 0,
            old(self).now() + lease <= usize::MAX,
        ensures
            final(self).wf(),
            final(self).expirations() == old(self).expirations().insert(
                obj_id,
                (old(self).now() + lease) as usize,
            ),
            final(self).remaining_lease(obj_id) == Some(lease),
            final(self).now() == old(self).now(),
            final(self).capacity_bound() == old(self).capacity_bound(),
    {
        self.remove_entry(&obj_id);
        let expiration = self.current_time + lease;
        self.insert_entry(obj_id, expiration);
        assert(self.expirations() =~= old(self).expirations().insert(obj_id, expiration));
    }

    /// Makes `obj_id` non-resident; nothing changes if it is absent.
    pub fn remove(&mut self, obj_id: &Obj)
        requires
            old(self).wf(),
        ensures
            final(self).wf(),
            final(self).expirations() == old(self).expirations().remove(*obj_id),
            final(self).now() == old(self).now(),
            final(self).capacity_bound() == old(self).capacity_bound(),
    {
        self.remove_entry(obj_id);
    }

    /// Advances the clock by one tick and sweeps out every object that expires
    /// at the new tick; returns the swept objects.
    pub fn advance_time(&mut self) -> (r: HashSet<Obj>)
        requires
            old(self).wf(),
            old(self).now() < usize::MAX,
        ensures
            final(self).wf(),
            final(self).now() == old(self).now() + 1,
            r@ == expiring_at(old(self).expirations(), final(self).now()),
            final(self).expirations() == after_sweep(old(self).expirations(), final(self).now()),
            final(self).expirations().len() == old(self).expirations().len() - r@.len(),
            final(self).capacity_bound() == old(self).capacity_bound(),
    {
        proof {
            lemma_sweep_len(self.content_map@, (self.current_time + 1) as usize);
        }
        self.current_time = self.current_time + 1;
        let now = self.current_time;
        let ghost content0 = self.content_map@;
        let ghost buckets0 = self.buckets();
        assert(Self::indices_agree(buckets0, content0, (now - 1) as usize));
        match self.expiring_map.remove(&now) {
            Some(expiring) => {
                assert(expiring@ == buckets0[now]);
                assert(expiring@ =~= expiring_at(content0, now));
                let ghost mut removed: Set<Obj> = Set::empty();
                let ghost buckets1 = self.buckets();
                let ghost capacity0 = self.capacity;
                for o in it: expiring.iter()
                    invariant
                        obeys_key_model::<Obj>(),
                        self.current_time == now,
                        self.buckets() == buckets1,
                        self.capacity == capacity0,
                        it.seq().unref().to_set() == expiring@,
                        removed == it.seq().take(it.index() as int).unref().to_set(),
                        it.index() == it.seq().len() ==> removed == expiring@,
                        self.content_map@ == content0.remove_keys(removed),
                {
                    let ghost done = it.seq().take(it.index() as int).unref();
                    self.content_map.remove(o);
                    assert(it.seq().take(it.index() + 1).unref() =~= done.push(
                        *o,
                    ));
                    assert(done.push(*o).to_set() =~= done.to_set().insert(*o)) by {
                        done.lemma_push_to_set_commute(*o);
                    }
                    proof {
                        removed = removed.insert(*o);
                    }
                    assert(self.content_map@ =~= content0.remove_keys(removed));
                    assert(it.index() + 1 == it.seq().len() ==> it.seq().take(it.index() + 1)
                        =~= it.seq());
                }
                assert(self.content_map@ =~= after_sweep(content0, now));
                assert(self.buckets() =~= buckets0.remove(now));
                expiring
            },
            None => {
                assert(expiring_at(content0, now) =~= Set::empty());
                assert(self.content_map@ =~= after_sweep(content0, now));
                assert(self.buckets() =~= buckets0);
                HashSet::new()
            },
        }
    }

    /// One access: advances the clock, sweeps the new tick, then renews `obj_id`
    /// with `lease` (a lease of zero removes it). Hit when `obj_id` was still
    /// resident after the sweep.
    pub fn update(&mut self, obj_id: &Obj, lease: usize) -> (r: AccessResult)
        requires
            old(self).wf(),
            old(self).now() < usize::MAX,
            old(self).now() + 1 + lease <= usize::MAX,
        ensures
            final(self).wf(),
            final(self).now() == old(self).now() + 1,
            final(self).capacity_bound() == old(self).capacity_bound(),
            final(self).expirations() == accessed(
                old(self).expirations(),
                old(self).now(),
                *obj_id,
                lease,
            ),
            r == access_outcome(old(self).expirations(), old(self).now(), *obj_id),
            !old(self).expirations().contains_key(*obj_id) ==> r == AccessResult::Miss,
            lease == 0 ==> !final(self).expirations().contains_key(*obj_id),
            lease > 0 ==> final(self).expirations()[*obj_id] == final(self).now() + lease,
            final(self).expirations().len() == old(self).expirations().len() - expiring_at(
                old(self).expirations(),
                final(self).now(),
            ).len() + (if lease > 0 && r == AccessResult::Miss {
                1int
            } else {
                0
            }) - (if lease == 0 && r == AccessResult::Hit {
                1int
            } else {
                0
            }),
    {
        self.advance_time();
        let result = if self.content_map.contains_key(obj_id) {
            AccessResult::Hit
        } else {
            AccessResult::Miss
        };
        self.remove_entry(obj_id);
        if lease > 0 {
            let expiration = self.current_time + lease;
            self.insert_entry(obj_id.duplicate(), expiration);
        }
        proof {
            let swept = after_sweep(old(self).expirations(), self.current_time);
            lemma_sweep_len(old(self).expirations(), self.current_time);
            if swept.contains_key(*obj_id) {
                swept.lemma_remove_key_len(*obj_id);
            } else {
                assert(swept.remove(*obj_id) =~= swept);
            }
            lemma_renew(
                after_sweep(old(self).expirations(), self.current_time),
                *obj_id,
                (self.current_time + lease) as usize,
            );
        }
        result
    }

    /// Picks a resident object uniformly at random and removes it. Fails with
    /// `EmptyCacheEviction` when no object is resident.
    ///
    /// Each call lists the resident set anew, at a cost linear in its size;
    /// evictions run only while the cache is over its bound.
    pub fn force_evict(&mut self) -> (r: Result<Obj, CacheError>)
        requires
            old(self).wf(),
        ensures
            final(self).wf(),
            final(self).now() == old(self).now(),
            final(self).capacity_bound() == old(self).capacity_bound(),
            r is Err <==> old(self).expirations().len() == 0,
            r is Err ==> r == Err::<Obj, CacheError>(CacheError::EmptyCacheEviction)
                && final(self).expirations() == old(self).expirations(),
            r matches Ok(o) ==> old(self).expirations().contains_key(o)
                && final(self).expirations() == old(self).expirations().remove(o),
    {
        let keys = self.resident_objects();
        match choose_random(&keys) {
            Some(obj_id) => {
                let victim = obj_id.duplicate();
                self.remove_entry(&victim);
                Ok(victim)
            },
            None => {
                assert(self.expirations().dom() =~= Set::empty());
                Err(CacheError::EmptyCacheEviction)
            },
        }
    }

    /// The resident objects, each once, in no particular order.
    fn resident_objects(&self) -> (r: Vec<Obj>)
        requires
            self.wf(),
        ensures
            r@.to_set() == self.expirations().dom(),
            r@.len() == self.expirations().dom().len(),
    {
        let mut keys: Vec<Obj> = Vec::new();
        for k in it: self.content_map.keys()
            invariant
                obeys_key_model::<Obj>(),
                it.seq().unref().to_set() == self.content_map@.dom(),
                it.seq().len() == self.content_map@.dom().len(),
                keys@ == it.seq().take(it.index() as int).unref(),
                it.index() == it.seq().len() ==> keys@.to_set() == self.content_map@.dom()
                    && keys@.len() == self.content_map@.dom().len(),
        {
            keys.push(k.duplicate());
            assert(keys@ =~= it.seq().take(it.index() + 1).unref());
            assert(it.index() + 1 == it.seq().len() ==> it.seq().take(it.index() + 1)
                =~= it.seq());
        }
        keys
    }

    /// The number of resident objects.
    pub fn get_cache_consumption(&self) -> (r: usize)
        requires
            self.wf(),
        ensures
            r == self.expirations().len(),
    {
        self.content_map.len()
    }

    /// Ticks left before `obj_id` expires, or `None` when it is not resident.
    pub fn time_until_eviction(&self, obj_id: &Obj) -> (r: Option<usize>)
        requires
            self.wf(),
        ensures
            r == self.remaining_lease(*obj_id),
    {
        match self.content_map.get(obj_id) {
            Some(expiration) => Some(expiration.saturating_sub(self.current_time)),
            None => None,
        }
    }

    /// The access path: `access.0` is the lease and `access.1` the object.
    /// Runs `update`, then, under a capacity bound, evicts random resident
    /// objects until the bound holds again.
    pub fn cache_access(&mut self, access: TaggedObjectId<usize, Obj>) -> (r: AccessResult)
        requires
            old(self).wf(),
            old(self).now() < usize::MAX,
            old(self).now() + 1 + access.0 <= usize::MAX,
        ensures
            final(self).wf(),
            final(self).now() == old(self).now() + 1,
            final(self).capacity_bound() == old(self).capacity_bound(),
            r == access_outcome(old(self).expirations(), old(self).now(), access.1),
            ({
                let renewed = accessed(old(self).expirations(), old(self).now(), access.1, access.0);
                &&& final(self).expirations().submap_of(renewed)
                &&& (match old(self).capacity_bound() {
                    Some(k) => renewed.len() <= k,
                    None => true,
                }) ==> final(self).expirations() == renewed
                &&& final(self).expirations().len() == match old(self).capacity_bound() {
                    Some(k) => if renewed.len() > k {
                        k as nat
                    } else {
                        renewed.len()
                    },
                    None => renewed.len(),
                }
            }),
            final(self).capacity_bound() matches Some(k) ==> final(self).expirations().len() <= k,
            !old(self).expirations().contains_key(access.1) ==> r == AccessResult::Miss,
            access.0 == 0 ==> !final(self).expirations().contains_key(access.1),
    {
        let TaggedObjectId(lease, obj_id) = access;
        let result = self.update(&obj_id, lease);
        let ghost renewed = self.expirations();
        if let Some(max_capacity) = self.capacity {
            while self.content_map.len() > max_capacity
                invariant
                    self.wf(),
                    self.now() == old(self).now() + 1,
                    self.capacity == Some(max_capacity),
                    self.expirations().submap_of(renewed),
                    renewed.len() > max_capacity ==> self.expirations().len() >= max_capacity,
                    renewed.len() <= max_capacity ==> self.expirations() == renewed,
                decreases self.expirations().len(),
            {
                let ghost before = self.expirations();
                let evicted = self.force_evict();
                proof {
                    if let Ok(o) = evicted {
                        before.lemma_remove_key_len(o);
                    }
                }
            }
        }
        result
    }

    /// Sets the capacity bound. It can be set once, before the clock first
    /// advances, and must be positive.
    pub fn set_capacity(&mut self, capacity: usize) -> (r: Result<(), CacheError>)
        requires
            old(self).wf(),
        ensures
            final(self).wf(),
            final(self).now() == old(self).now(),
            final(self).expirations() == old(self).expirations(),
            r == (if capacity == 0 {
                Err(CacheError::ZeroCapacity)
            } else if old(self).capacity_bound() is Some || old(self).now() > 0 {
                Err(CacheError::CapacityAlreadyFixed)
            } else {
                Ok(())
            }),
            final(self).capacity_bound() == (if r is Ok {
                Some(capacity)
            } else {
                old(self).capacity_bound()
            }),
    {
        if capacity == 0 {
            Err(CacheError::ZeroCapacity)
        } else if self.capacity.is_some() || self.current_time > 0 {
            Err(CacheError::CapacityAlreadyFixed)
        } else {
            self.capacity = Some(capacity);
            Ok(())
        }
    }

    /// The absolute expiration tick of `obj_id`, or `None` when it is not
    /// resident.
    pub fn expiration_of(&self, obj_id: &Obj) -> (r: Option<usize>)
        requires
            self.wf(),
        ensures
            r == (if self.expirations().contains_key(*obj_id) {
                Some(self.expirations()[*obj_id])
            } else {
                None
            }),
    {
        match self.content_map.get(obj_id) {
            Some(expiration) => Some(*expiration),
            None => None,
        }
    }

    /// Whether the expiration index holds `obj_id` in the bucket of `tick`.
    pub fn is_expiring_at(&self, tick: usize, obj_id: &Obj) -> (r: bool)
        requires
            self.wf(),
        ensures
            r == expiring_at(self.expirations(), tick).contains(*obj_id),
    {
        match self.expiring_map.get(&tick) {
            Some(bucket) => {
                assert(bucket@ == self.buckets()[tick]);
                bucket.contains(obj_id)
            },
            None => false,
        }
    }

    /// The number of objects in the bucket of `tick` of the expiration index.
    pub fn expiring_count(&self, tick: usize) -> (r: usize)
        requires
            self.wf(),
        ensures
            r == expiring_at(self.expirations(), tick).len(),
    {
        match self.expiring_map.get(&tick) {
            Some(bucket) => {
                assert(bucket@ == self.buckets()[tick]);
                assert(bucket@ =~= expiring_at(self.expirations(), tick));
                bucket.len()
            },
            None => {
                assert(expiring_at(self.expirations(), tick) =~= Set::empty());
                0
            },
        }
    }

    /// Whether `obj_id` is resident.
    pub fn contains(&self, obj_id: &Obj) -> (r: bool)
        requires
            self.wf(),
        ensures
            r == self.expirations().contains_key(*obj_id),
    {
        self.content_map.contains_key(obj_id)
    }
}

impl<Obj: ObjIdTraits> Default for LeaseCache<Obj> {
    fn default() -> (r: Self)
        ensures
            obeys_key_model::<Obj>() ==> r.wf(),
            r.expirations() == Map::<Obj, usize>::empty(),
            r.now() == 0,
            r.capacity_bound() is None,
    {
        Self::new()
    }
}

} // verus!
