//! How the server hands out work: which submitted recipes are ready to be
//! built, and which builds a worker has already taken on.

use vstd::prelude::*;

use crate::duplicate::Duplicate;
use crate::foreign::{
    string_set_contents, string_set_insert, string_set_items, string_set_new, string_set_remove,
    StringSet,
};
use crate::recipe::{
    blocked_when_tried, deps_resolved, find_ready, sound_growth, no_output, get_equiv_hash_from_depd_hash, DepdRecipeHash, HydratedRecipeVersion,
    RecipeStore, StoreError,
};

verus! {

/// The recipes, by hash, whose build some worker has taken on.
pub struct BuildClaims {
    claimed: StringSet,
}

impl BuildClaims {
    /// The hashes of the recipes whose build was taken on.
    pub closed spec fn claimed(&self) -> Set<Seq<char>> {
        string_set_contents(self.claimed)
    }

    /// No build taken on yet.
    pub fn new() -> (res: Self)
        ensures
            res.claimed().is_empty(),
    {
        BuildClaims { claimed: string_set_new() }
    }

    /// Takes on the build of the recipe hashed `hash`; whether no one had.
    pub fn claim(&mut self, hash: &DepdRecipeHash) -> (fresh: bool)
        ensures
            fresh == !old(self).claimed().contains(hash.deep_view()),
            final(self).claimed() == old(self).claimed().insert(hash.deep_view()),
    {
        string_set_insert(&mut self.claimed, hash.0.clone())
    }
}

/// Whether a worker is to build the recipe stored under `hash`: when no
/// build output is known for it and no worker has taken it on yet, in which
/// case it is now taken on.
pub fn should_build<F: Fn(&HydratedRecipeVersion) -> Vec<u8>>(
    store: &mut RecipeStore,
    claims: &mut BuildClaims,
    hash: &DepdRecipeHash,
    encode: &F,
) -> (res: Result<bool, StoreError>)
    requires
        forall|r: &HydratedRecipeVersion| encode.requires((r,)),
    ensures
        old(store).grows_to(final(store)),
        sound_growth(*old(store), *final(store), *encode),
        match res {
            Ok(true) => {
                &&& final(store).unresolved(hash.deep_view())
                &&& no_output(*final(store), hash.deep_view())
                &&& !old(claims).claimed().contains(hash.deep_view())
                &&& final(claims).claimed() == old(claims).claimed().insert(hash.deep_view())
            },
            Ok(false) => {
                &&& final(claims).claimed() == old(claims).claimed()
                &&& (exists|e: Seq<char>| #[trigger] final(store).resolves(hash.deep_view(), e))
                    || (final(store).unresolved(hash.deep_view()) && no_output(
                    *final(store),
                    hash.deep_view(),
                ) && old(claims).claimed().contains(hash.deep_view()))
            },
            Err(_) => final(claims).claimed() == old(claims).claimed(),
        },
        old(claims).claimed().subset_of(final(claims).claimed()),
        old(store).resolved(hash.deep_view()) ==> res matches Ok(false),
        !old(store).recipes().contains_key(hash.deep_view()) ==> (res matches Ok(fresh) && fresh
            == !old(claims).claimed().contains(hash.deep_view())),
{
    match get_equiv_hash_from_depd_hash(store, hash, encode) {
        Err(e) => Err(e),
        Ok(Some(_)) => Ok(false),
        Ok(None) => {
            let fresh = claims.claim(hash);
            proof {
                if !fresh {
                    assert(claims.claimed() =~= old(claims).claimed());
                }
            }
            Ok(fresh)
        },
    }
}

/// The submitted recipes, by hash, that wait to be built.
pub struct WorkPool {
    waiting: StringSet,
}

impl WorkPool {
    /// The hashes of the waiting recipes.
    pub closed spec fn waiting(&self) -> Set<Seq<char>> {
        string_set_contents(self.waiting)
    }

    /// Nothing waiting.
    pub fn new() -> (res: Self)
        ensures
            res.waiting().is_empty(),
    {
        WorkPool { waiting: string_set_new() }
    }

    /// Puts the recipe hashed `hash` among the waiting ones.
    pub fn add(&mut self, hash: &DepdRecipeHash)
        ensures
            final(self).waiting() == old(self).waiting().insert(hash.deep_view()),
    {
        let _ = string_set_insert(&mut self.waiting, hash.0.clone());
    }

    /// Takes out a waiting recipe that is ready to be built: one stored in
    /// `store` under its own hash whose equivalence hash can be computed,
    /// that is, all of whose dependencies have build outputs. Nothing is
    /// taken out when no waiting recipe is ready.
    pub fn take_ready<F: Fn(&HydratedRecipeVersion) -> Vec<u8>>(
        &mut self,
        store: &mut RecipeStore,
        encode: &F,
    ) -> (res: Result<Option<HydratedRecipeVersion>, StoreError>)
        requires
            forall|r: &HydratedRecipeVersion| encode.requires((r,)),
        ensures
            old(store).grows_to(final(store)),
            sound_growth(*old(store), *final(store), *encode),
            res matches Ok(Some(r)) ==> {
                let h = r.depd_hash.deep_view();
                &&& old(self).waiting().contains(h)
                &&& old(store).recipes().contains_key(h)
                &&& old(store).recipes()[h] == r.deep_view()
                &&& final(store).eq_depd_cache().contains_key(h)
                &&& final(self).waiting() == old(self).waiting().remove(h)
            },
            !(res matches Ok(Some(_))) ==> final(self).waiting() == old(self).waiting(),
            res is Err ==> exists|h: Seq<char>|
                #[trigger] old(self).waiting().contains(h) && old(store).recipes().contains_key(h)
                    && !deps_resolved(*old(store), old(store).recipes()[h]),
            (exists|h: Seq<char>|
                #[trigger] old(self).waiting().contains(h) && old(store).recipes().contains_key(h)
                    && old(store).recipes()[h].depd_hash == h && deps_resolved(
                    *old(store),
                    old(store).recipes()[h],
                )) ==> !(res matches Ok(None)),
            res matches Ok(None) ==> forall|h: Seq<char>|
                #[trigger] old(self).waiting().contains(h) && old(store).recipes().contains_key(h)
                    && old(store).recipes()[h].depd_hash == h ==> {
                    &&& !old(store).eq_depd_cache().contains_key(h)
                    &&& !deps_resolved(*old(store), old(store).recipes()[h])
                    &&& blocked_when_tried(*old(store), *final(store), old(store).recipes()[h])
                },
    {
        let ghost st = *store;
        let items = string_set_items(&self.waiting);
        let ghost iv = items@.map_values(|x: String| x@);
        let mut keys: Vec<String> = Vec::new();
        let mut candidates: Vec<HydratedRecipeVersion> = Vec::new();
        let n = items.len();
        for i in 0..n
            invariant
                n == items@.len(),
                iv == items@.map_values(|x: String| x@),
                iv.to_set() == self.waiting(),
                st == *store,
                keys@.len() == candidates@.len(),
                forall|j: int|
                    0 <= j < keys@.len() ==> {
                        &&& self.waiting().contains(#[trigger] keys@[j]@)
                        &&& st.recipes().contains_key(keys@[j]@)
                        &&& candidates@[j].deep_view() == st.recipes()[keys@[j]@]
                        &&& candidates@[j].deep_view().depd_hash == keys@[j]@
                    },
                forall|k: int|
                    0 <= k < i && #[trigger] st.recipes().contains_key(iv[k])
                        && st.recipes()[iv[k]].depd_hash == iv[k] ==> exists|j: int|
                        0 <= j < keys@.len() && #[trigger] keys@[j]@ == iv[k],
        {
            assert(iv[i as int] == items@[i as int]@);
            assert(iv.to_set().contains(iv[i as int]));
            let key = items[i].clone();
            match store.recipe(&DepdRecipeHash(items[i].clone())) {
                Some(r) => if r.depd_hash.0 == key {
                    let ghost before = keys@;
                    keys.push(key);
                    candidates.push(r);
                    assert(keys@[before.len() as int]@ == iv[i as int]);
                    assert forall|k: int|
                        0 <= k < i + 1 && #[trigger] st.recipes().contains_key(iv[k])
                            && st.recipes()[iv[k]].depd_hash == iv[k] implies exists|j: int|
                            0 <= j < keys@.len() && #[trigger] keys@[j]@ == iv[k] by {
                        if k < i {
                            let j = choose|j: int| 0 <= j < before.len() && #[trigger] before[j]@ == iv[k];
                            assert(keys@[j] == before[j]);
                        } else {
                            assert(keys@[before.len() as int]@ == iv[k]);
                        }
                    }
                } else {
                    assert(st.recipes()[iv[i as int]].depd_hash != iv[i as int]);
                },
                None => {},
            }
        }
        let found = match find_ready(store, &candidates, encode) {
            Err(e) => {
                proof {
                    let j = choose|j: int|
                        0 <= j < candidates@.len() && !deps_resolved(
                            st,
                            #[trigger] candidates@[j].deep_view(),
                        );
                    assert(old(self).waiting().contains(keys@[j]@));
                }
                return Err(e);
            },
            Ok(found) => found,
        };
        match found {
            None => {
                proof {
                    assert forall|h: Seq<char>|
                        #[trigger] old(self).waiting().contains(h) && st.recipes().contains_key(h)
                            && st.recipes()[h].depd_hash == h implies {
                            &&& !st.eq_depd_cache().contains_key(h)
                            &&& !deps_resolved(st, st.recipes()[h])
                            &&& blocked_when_tried(st, *store, st.recipes()[h])
                        } by {
                        assert(iv.to_set().contains(h));
                        let k = choose|k: int| 0 <= k < iv.len() && iv[k] == h;
                        let j = choose|j: int| 0 <= j < keys@.len() && #[trigger] keys@[j]@ == iv[k];
                        assert(candidates@[j].depd_hash.deep_view() == candidates@[j].deep_view().depd_hash);
                        assert(!st.eq_depd_cache().contains_key(
                            candidates@[j].depd_hash.deep_view(),
                        ));
                        assert(!deps_resolved(st, candidates@[j].deep_view()));
                        assert(blocked_when_tried(st, *store, candidates@[j].deep_view()));
                    }
                }
                Ok(None)
            },
            Some(i) => {
                assert(candidates@[i as int].depd_hash.deep_view()
                    == candidates@[i as int].deep_view().depd_hash);
                let _ = string_set_remove(&mut self.waiting, &keys[i]);
                Ok(Some(candidates[i].duplicate()))
            },
        }
    }
}

/// A recipe is built at most once: once some claims hold the hash of a
/// build taken on, every claims that grew from them (as `claim` and
/// `should_build` make them grow) still hold it, so `should_build` never
/// takes it on again.
pub proof fn law_built_at_most_once(taken: BuildClaims, later: BuildClaims, h: Seq<char>)
    requires
        taken.claimed().contains(h),
        taken.claimed().subset_of(later.claimed()),
    ensures
        later.claimed().contains(h),
{
}

/// The hashes claimed after claiming each of `hashes` in turn, from `start`,
/// as `BuildClaims::claim` and `should_build` change them.
pub open spec fn claims_after(start: Set<Seq<char>>, hashes: Seq<Seq<char>>) -> Set<Seq<char>>
    decreases hashes.len(),
{
    if hashes.len() == 0 {
        start
    } else {
        claims_after(start, hashes.drop_last()).insert(hashes.last())
    }
}

/// How many of the claims of `hashes`, from `start`, took `h` on afresh:
/// each claim answers whether no one had taken its hash on before.
pub open spec fn fresh_claims(start: Set<Seq<char>>, hashes: Seq<Seq<char>>, h: Seq<char>) -> nat
    decreases hashes.len(),
{
    if hashes.len() == 0 {
        0
    } else {
        fresh_claims(start, hashes.drop_last(), h) + if hashes.last() == h && !claims_after(
            start,
            hashes.drop_last(),
        ).contains(h) {
            1nat
        } else {
            0nat
        }
    }
}

proof fn lemma_fresh_claims_bounded(hashes: Seq<Seq<char>>, h: Seq<char>)
    ensures
        fresh_claims(Set::empty(), hashes, h) == if claims_after(Set::empty(), hashes).contains(h) {
            1nat
        } else {
            0nat
        },
    decreases hashes.len(),
{
    if hashes.len() > 0 {
        lemma_fresh_claims_bounded(hashes.drop_last(), h);
    }
}

/// Each build is taken on at most once, whatever the order in which tasks
/// claim builds: over any run of claims from no claims at all, at most one
/// claim of a hash answers that it was taken on afresh.
pub proof fn law_each_build_taken_on_once(hashes: Seq<Seq<char>>, h: Seq<char>)
    ensures
        fresh_claims(Set::empty(), hashes, h) <= 1,
{
    lemma_fresh_claims_bounded(hashes, h);
}

/// The claims follow `claims_after`: when they are those after `hashes`,
/// one more claim of `h` answering `fresh` leaves them as they are after
/// `hashes` and `h`, and `fresh` is what `fresh_claims` counts for it.
pub proof fn law_claims_follow_events(
    before: BuildClaims,
    after: BuildClaims,
    hashes: Seq<Seq<char>>,
    h: Seq<char>,
    fresh: bool,
)
    requires
        claims_after(Set::empty(), hashes) == before.claimed(),
        fresh == !before.claimed().contains(h),
        after.claimed() == before.claimed().insert(h),
    ensures
        claims_after(Set::empty(), hashes.push(h)) == after.claimed(),
        fresh_claims(Set::empty(), hashes.push(h), h) == fresh_claims(Set::empty(), hashes, h) + if fresh {
            1nat
        } else {
            0nat
        },
{
    assert(hashes.push(h).drop_last() =~= hashes);
}

/// What is done to a pool of waiting recipes: a recipe is added, or taken
/// out to be built.
pub enum PoolEvent {
    Add(Seq<char>),
    Take(Seq<char>),
}

/// The waiting recipes after `events`, from `start`, as `WorkPool::add` and
/// `WorkPool::take_ready` change them; `None` when some event takes out a
/// recipe that is not waiting, which `take_ready` never does.
pub open spec fn pool_after(start: Set<Seq<char>>, events: Seq<PoolEvent>) -> Option<Set<Seq<char>>>
    decreases events.len(),
{
    if events.len() == 0 {
        Some(start)
    } else {
        match pool_after(start, events.drop_last()) {
            None => None,
            Some(s) => match events.last() {
                PoolEvent::Add(h) => Some(s.insert(h)),
                PoolEvent::Take(h) => if s.contains(h) {
                    Some(s.remove(h))
                } else {
                    None
                },
            },
        }
    }
}

/// The waiting recipes of a pool follow `pool_after`: when they are those
/// after `events`, one more `add` of `h` (adding `h`) or `take_ready` that
/// hands out the recipe hashed `h` (taking out a waiting `h`) leaves them as
/// they are after `events` and that event.
pub proof fn law_pool_follows_events(
    before: WorkPool,
    after: WorkPool,
    events: Seq<PoolEvent>,
    e: PoolEvent,
)
    requires
        pool_after(Set::empty(), events) == Some(before.waiting()),
        match e {
            PoolEvent::Add(h) => after.waiting() == before.waiting().insert(h),
            PoolEvent::Take(h) => before.waiting().contains(h) && after.waiting()
                == before.waiting().remove(h),
        },
    ensures
        pool_after(Set::empty(), events.push(e)) == Some(after.waiting()),
{
    assert(events.push(e).drop_last() =~= events);
}

/// How many of `events` are `e`.
pub open spec fn occurrences(events: Seq<PoolEvent>, e: PoolEvent) -> nat
    decreases events.len(),
{
    if events.len() == 0 {
        0
    } else {
        occurrences(events.drop_last(), e) + if events.last() == e {
            1nat
        } else {
            0nat
        }
    }
}

proof fn lemma_takes_bounded(events: Seq<PoolEvent>, h: Seq<char>)
    requires
        pool_after(Set::empty(), events) is Some,
    ensures
        occurrences(events, PoolEvent::Take(h)) + (if pool_after(Set::empty(), events)->0.contains(h) {
            1nat
        } else {
            0nat
        }) <= occurrences(events, PoolEvent::Add(h)),
    decreases events.len(),
{
    if events.len() > 0 {
        lemma_takes_bounded(events.drop_last(), h);
    }
}

/// A recipe is handed out to be built at most as often as it was submitted:
/// over any run of additions and takings from an empty pool, each taking
/// out a waiting recipe, a hash is taken out no more often than it was added.
pub proof fn law_taken_at_most_as_often_as_added(events: Seq<PoolEvent>, h: Seq<char>)
    requires
        pool_after(Set::empty(), events) is Some,
    ensures
        occurrences(events, PoolEvent::Take(h)) <= occurrences(events, PoolEvent::Add(h)),
{
    lemma_takes_bounded(events, h);
}

} // verus!
