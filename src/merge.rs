//! Gathering the partial archives of all regions, and the order in which
//! each sample's partial archives are concatenated.
use vstd::prelude::*;
use vstd::seq_lib::to_multiset_contains;

use crate::model::as_pos;

verus! {

/// What the split of one region produced: the region's position among the
/// header's regions and, for each sample in collection order, the path of
/// its partial archive.
pub struct RegionPartials {
    pub region: usize,
    pub paths: Vec<String>,
}

/// The result of the split of the region at position `r`: the last one
/// reported for it, if any.
pub open spec fn slot_of(done: Seq<RegionPartials>, r: nat) -> Option<nat>
    decreases done.len(),
{
    if done.len() == 0 {
        None
    } else if done.last().region == r {
        Some((done.len() - 1) as nat)
    } else {
        slot_of(done.drop_last(), r)
    }
}

/// The partial archives of sample `s` to concatenate, in header order of
/// the first `n` regions; a region that produced nothing contributes
/// nothing.
pub open spec fn plan(done: Seq<RegionPartials>, n: nat, s: nat) -> Seq<Seq<char>>
    decreases n,
{
    if n == 0 {
        Seq::empty()
    } else {
        let rest = plan(done, (n - 1) as nat, s);
        match slot_of(done, (n - 1) as nat) {
            Some(k) => if s < done[k as int].paths@.len() {
                rest.push(done[k as int].paths@[s as int]@)
            } else {
                rest
            },
            None => rest,
        }
    }
}

/// Each region appears at most once.
pub open spec fn distinct_regions(done: Seq<RegionPartials>) -> bool {
    forall|i: int, j: int|
        0 <= i < j < done.len() ==> (#[trigger] done[i]).region != (#[trigger] done[j]).region
}

proof fn lemma_slot_push(done: Seq<RegionPartials>, x: RegionPartials, r: nat)
    ensures
        slot_of(done.push(x), r) == if x.region == r {
            Some(done.len())
        } else {
            slot_of(done, r)
        },
{
    assert(done.push(x).drop_last() =~= done);
}

/// With distinct regions, the slot of a region is the one element that
/// carries it.
proof fn lemma_slot_distinct(done: Seq<RegionPartials>, r: nat)
    requires
        distinct_regions(done),
    ensures
        slot_of(done, r) matches Some(k) ==> k < done.len() && done[k as int].region == r,
        forall|k: int| 0 <= k < done.len() && (#[trigger] done[k]).region == r ==> slot_of(done, r)
            == Some(k as nat),
    decreases done.len(),
{
    if done.len() > 0 {
        let init = done.drop_last();
        assert(distinct_regions(init)) by {
            assert forall|i: int, j: int| 0 <= i < j < init.len() implies (#[trigger] init[i]).region
                != (#[trigger] init[j]).region by {
                assert(init[i] == done[i] && init[j] == done[j]);
            }
        }
        lemma_slot_distinct(init, r);
        assert forall|k: int| 0 <= k < done.len() && (#[trigger] done[k]).region == r implies slot_of(
            done,
            r,
        ) == Some(k as nat) by {
            if k < done.len() - 1 {
                assert(init[k] == done[k]);
                assert(done[k].region != done[done.len() - 1].region);
            }
        }
        if let Some(k) = slot_of(init, r) {
            assert(init[k as int] == done[k as int]);
        }
    }
}

/// Determinism: the order in which the regions' results arrive does not
/// change what is merged for a sample, nor in which order.
pub proof fn lemma_plan_arrival_order(
    a: Seq<RegionPartials>,
    b: Seq<RegionPartials>,
    n: nat,
    s: nat,
)
    requires
        a.to_multiset() == b.to_multiset(),
        distinct_regions(a),
        distinct_regions(b),
    ensures
        plan(a, n, s) == plan(b, n, s),
    decreases n,
{
    if n > 0 {
        let r = (n - 1) as nat;
        lemma_plan_arrival_order(a, b, r, s);
        lemma_slot_distinct(a, r);
        lemma_slot_distinct(b, r);
        if let Some(k) = slot_of(a, r) {
            let x = a[k as int];
            to_multiset_contains(a, x);
            to_multiset_contains(b, x);
            assert(a.contains(x));
            let j = choose|j: int| 0 <= j < b.len() && b[j] == x;
            assert(b[j].region == r);
        }
        if let Some(k) = slot_of(b, r) {
            let x = b[k as int];
            to_multiset_contains(a, x);
            to_multiset_contains(b, x);
            assert(b.contains(x));
            let j = choose|j: int| 0 <= j < a.len() && a[j] == x;
            assert(a[j].region == r);
        }
    }
}

/// For each of the first `n` regions, the position in `done` of its result.
fn region_slots(done: &Vec<RegionPartials>, n: usize) -> (r: Vec<Option<usize>>)
    ensures
        r@.len() == n,
        forall|i: int| 0 <= i < n ==> #[trigger] as_pos(r@[i]) == slot_of(done@, i as nat),
{
    let mut slots: Vec<Option<usize>> = Vec::new();
    for i in 0..n
        invariant
            slots@.len() == i,
            forall|k: int| 0 <= k < i ==> slots@[k] is None,
    {
        slots.push(None);
    }
    for k in 0..done.len()
        invariant
            slots@.len() == n,
            forall|i: int|
                0 <= i < n ==> #[trigger] as_pos(slots@[i]) == slot_of(
                    done@.take(k as int),
                    i as nat,
                ),
    {
        proof {
            assert(done@.take(k + 1) =~= done@.take(k as int).push(done@[k as int]));
            assert forall|i: nat| #[trigger] slot_of(done@.take(k + 1), i) == if done@[k as int].region
                == i {
                Some(k as nat)
            } else {
                slot_of(done@.take(k as int), i)
            } by {
                lemma_slot_push(done@.take(k as int), done@[k as int], i);
            }
        }
        let region = done[k].region;
        if region < n {
            slots.set(region, Some(k));
        }
    }
    assert(done@.take(done@.len() as int) =~= done@);
    slots
}

/// Gathers the results of the regions that were split, in whatever order
/// they arrived, into the partial archives of each of the `n_samples`
/// samples, in the order they are to be concatenated.
pub fn merge_plans(done: &Vec<RegionPartials>, n_regions: usize, n_samples: usize) -> (r: Vec<
    Vec<String>,
>)
    ensures
        r@.len() == n_samples,
        forall|s: int|
            0 <= s < n_samples ==> (#[trigger] r@[s])@.map_values(|p: String| p@) == plan(
                done@,
                n_regions as nat,
                s as nat,
            ),
{
    let slots = region_slots(done, n_regions);
    let mut plans: Vec<Vec<String>> = Vec::new();
    for s in 0..n_samples
        invariant
            slots@.len() == n_regions,
            forall|i: int|
                0 <= i < n_regions ==> #[trigger] as_pos(slots@[i]) == slot_of(
                    done@,
                    i as nat,
                ),
            plans@.len() == s,
            forall|t: int|
                0 <= t < s ==> (#[trigger] plans@[t])@.map_values(|p: String| p@) == plan(
                    done@,
                    n_regions as nat,
                    t as nat,
                ),
    {
        let mut paths: Vec<String> = Vec::new();
        for i in 0..n_regions
            invariant
                slots@.len() == n_regions,
                forall|j: int|
                    0 <= j < n_regions ==> #[trigger] as_pos(slots@[j]) == slot_of(
                        done@,
                        j as nat,
                    ),
                paths@.map_values(|p: String| p@) == plan(done@, i as nat, s as nat),
        {
            let ghost before = paths@;
            assert(as_pos(slots@[i as int]) == slot_of(done@, i as nat));
            if let Some(k) = slots[i] {
                proof {
                    lemma_slot_in_range(done@, i as nat);
                }
                if s < done[k].paths.len() {
                    paths.push(done[k].paths[s].clone());
                    assert(paths@.map_values(|p: String| p@) =~= before.map_values(|p: String| p@).push(
                        done@[k as int].paths@[s as int]@,
                    ));
                }
            }
        }
        plans.push(paths);
    }
    plans
}

proof fn lemma_slot_in_range(done: Seq<RegionPartials>, r: nat)
    ensures
        slot_of(done, r) matches Some(k) ==> k < done.len(),
    decreases done.len(),
{
    if done.len() > 0 {
        lemma_slot_in_range(done.drop_last(), r);
    }
}

} // verus!
