//! Mathematical model of the partition: barcode sets, record tags, regions.
use vstd::prelude::*;

verus! {

/// The barcode tag of a record as the partition sees it: `None` when the
/// tag is absent or not a string value.
pub type Tag = Option<Seq<char>>;

/// The sample that owns a barcode: among the samples whose set holds it, the
/// one that comes last in the collection (the later definition wins).
pub open spec fn owner_of(sets: Seq<Seq<Seq<char>>>, bc: Seq<char>) -> Option<nat>
    decreases sets.len(),
{
    if sets.len() == 0 {
        None
    } else if sets.last().contains(bc) {
        Some((sets.len() - 1) as nat)
    } else {
        owner_of(sets.drop_last(), bc)
    }
}

/// The sample a record with the given tag is written to, if any.
pub open spec fn route(sets: Seq<Seq<Seq<char>>>, tag: Tag) -> Option<nat> {
    match tag {
        Some(bc) => owner_of(sets, bc),
        None => None,
    }
}

/// An optional position as a mathematical value.
pub open spec fn as_pos(o: Option<usize>) -> Option<nat> {
    match o {
        Some(i) => Some(i as nat),
        None => None,
    }
}

/// The owner of a barcode is one of the samples.
pub proof fn lemma_owner_in_range(sets: Seq<Seq<Seq<char>>>, bc: Seq<char>)
    ensures
        owner_of(sets, bc) matches Some(s) ==> s < sets.len(),
        owner_of(sets, bc) matches Some(s) ==> sets[s as int].contains(bc),
    decreases sets.len(),
{
    if sets.len() > 0 && !sets.last().contains(bc) {
        lemma_owner_in_range(sets.drop_last(), bc);
    }
}

/// Positions, in archive order, of the records of one region that go to
/// sample `s`.
pub open spec fn picks(sets: Seq<Seq<Seq<char>>>, tags: Seq<Tag>, s: nat) -> Seq<nat>
    decreases tags.len(),
{
    if tags.len() == 0 {
        Seq::empty()
    } else {
        let rest = picks(sets, tags.drop_last(), s);
        if route(sets, tags.last()) == Some(s) {
            rest.push((tags.len() - 1) as nat)
        } else {
            rest
        }
    }
}

/// Number of records of one region that go to no sample.
pub open spec fn unmatched(sets: Seq<Seq<Seq<char>>>, tags: Seq<Tag>) -> nat
    decreases tags.len(),
{
    if tags.len() == 0 {
        0
    } else {
        let rest = unmatched(sets, tags.drop_last());
        if route(sets, tags.last()) is None {
            rest + 1
        } else {
            rest
        }
    }
}

/// Number of records of one region that go to the samples below `k`.
pub open spec fn picked_total(sets: Seq<Seq<Seq<char>>>, tags: Seq<Tag>, k: nat) -> nat
    decreases k,
{
    if k == 0 {
        0
    } else {
        picked_total(sets, tags, (k - 1) as nat) + picks(sets, tags, (k - 1) as nat).len()
    }
}

/// What the finalized archive of sample `s` holds: the records, as
/// `(region, position)`, in region order and, within a region, in archive
/// order.
pub open spec fn output(sets: Seq<Seq<Seq<char>>>, archive: Seq<Seq<Tag>>, s: nat) -> Seq<(nat, nat)>
    decreases archive.len(),
{
    if archive.len() == 0 {
        Seq::empty()
    } else {
        let r = (archive.len() - 1) as nat;
        output(sets, archive.drop_last(), s) + picks(sets, archive.last(), s).map_values(
            |p: nat| (r, p),
        )
    }
}

/// Number of records of the archive that go to no sample.
pub open spec fn archive_unmatched(sets: Seq<Seq<Seq<char>>>, archive: Seq<Seq<Tag>>) -> nat
    decreases archive.len(),
{
    if archive.len() == 0 {
        0
    } else {
        archive_unmatched(sets, archive.drop_last()) + unmatched(sets, archive.last())
    }
}

/// Number of records of the archive.
pub open spec fn archive_size(archive: Seq<Seq<Tag>>) -> nat
    decreases archive.len(),
{
    if archive.len() == 0 {
        0
    } else {
        archive_size(archive.drop_last()) + archive.last().len()
    }
}

/// Number of records in the finalized archives of the samples below `k`.
pub open spec fn output_total(sets: Seq<Seq<Seq<char>>>, archive: Seq<Seq<Tag>>, k: nat) -> nat
    decreases k,
{
    if k == 0 {
        0
    } else {
        output_total(sets, archive, (k - 1) as nat) + output(sets, archive, (k - 1) as nat).len()
    }
}

/// Appending a record to a region extends the picks of its sample only.
pub proof fn lemma_picks_push(sets: Seq<Seq<Seq<char>>>, tags: Seq<Tag>, t: Tag, s: nat)
    ensures
        picks(sets, tags.push(t), s) == if route(sets, t) == Some(s) {
            picks(sets, tags, s).push(tags.len())
        } else {
            picks(sets, tags, s)
        },
        unmatched(sets, tags.push(t)) == if route(sets, t) is None {
            unmatched(sets, tags) + 1
        } else {
            unmatched(sets, tags)
        },
{
    assert(tags.push(t).drop_last() =~= tags);
}

/// No sample receives more records of a region than the region holds.
pub proof fn lemma_picks_len(sets: Seq<Seq<Seq<char>>>, tags: Seq<Tag>, s: nat)
    ensures
        picks(sets, tags, s).len() <= tags.len(),
        unmatched(sets, tags) <= tags.len(),
    decreases tags.len(),
{
    if tags.len() > 0 {
        lemma_picks_len(sets, tags.drop_last(), s);
    }
}

proof fn lemma_picked_total_push(sets: Seq<Seq<Seq<char>>>, tags: Seq<Tag>, t: Tag, k: nat)
    ensures
        picked_total(sets, tags.push(t), k) == picked_total(sets, tags, k) + if route(
            sets,
            t,
        ) matches Some(s) && s < k {
            1nat
        } else {
            0nat
        },
    decreases k,
{
    if k > 0 {
        lemma_picked_total_push(sets, tags, t, (k - 1) as nat);
        lemma_picks_push(sets, tags, t, (k - 1) as nat);
    }
}

/// Within one region, every record goes to exactly one sample or to none.
pub proof fn lemma_region_conservation(sets: Seq<Seq<Seq<char>>>, tags: Seq<Tag>)
    ensures
        picked_total(sets, tags, sets.len()) + unmatched(sets, tags) == tags.len(),
    decreases tags.len(),
{
    if tags.len() == 0 {
        lemma_picked_total_empty(sets, tags, sets.len());
    } else {
        let init = tags.drop_last();
        let t = tags.last();
        assert(init.push(t) =~= tags);
        lemma_region_conservation(sets, init);
        lemma_picked_total_push(sets, init, t, sets.len());
        lemma_picks_push(sets, init, t, 0);
        match t {
            Some(bc) => lemma_owner_in_range(sets, bc),
            None => {},
        }
    }
}

proof fn lemma_picked_total_empty(sets: Seq<Seq<Seq<char>>>, tags: Seq<Tag>, k: nat)
    requires
        tags.len() == 0,
    ensures
        picked_total(sets, tags, k) == 0,
    decreases k,
{
    if k > 0 {
        lemma_picked_total_empty(sets, tags, (k - 1) as nat);
    }
}

proof fn lemma_output_total_split(sets: Seq<Seq<Seq<char>>>, archive: Seq<Seq<Tag>>, k: nat)
    ensures
        archive.len() == 0 ==> output_total(sets, archive, k) == 0,
        archive.len() > 0 ==> output_total(sets, archive, k) == output_total(
            sets,
            archive.drop_last(),
            k,
        ) + picked_total(sets, archive.last(), k),
    decreases k,
{
    if k > 0 {
        lemma_output_total_split(sets, archive, (k - 1) as nat);
    }
}

/// Conservation: over the whole archive, the records written to the samples'
/// finalized archives plus the records that match no sample are exactly the
/// records of the archive.
pub proof fn lemma_conservation(sets: Seq<Seq<Seq<char>>>, archive: Seq<Seq<Tag>>)
    ensures
        output_total(sets, archive, sets.len()) + archive_unmatched(sets, archive)
            == archive_size(archive),
    decreases archive.len(),
{
    lemma_output_total_split(sets, archive, sets.len());
    if archive.len() > 0 {
        lemma_conservation(sets, archive.drop_last());
        lemma_region_conservation(sets, archive.last());
    }
}

/// The picks of a region are exactly its records routed to `s`, in
/// increasing position order.
pub proof fn lemma_picks_exact(sets: Seq<Seq<Seq<char>>>, tags: Seq<Tag>, s: nat)
    ensures
        forall|i: int|
            0 <= i < picks(sets, tags, s).len() ==> #[trigger] picks(sets, tags, s)[i] < tags.len()
                && route(sets, tags[picks(sets, tags, s)[i] as int]) == Some(s),
        forall|i: int, j: int|
            0 <= i < j < picks(sets, tags, s).len() ==> #[trigger] picks(sets, tags, s)[i]
                < #[trigger] picks(sets, tags, s)[j],
        forall|p: nat|
            p < tags.len() && route(sets, #[trigger] tags[p as int]) == Some(s) ==> picks(
                sets,
                tags,
                s,
            ).contains(p),
    decreases tags.len(),
{
    if tags.len() > 0 {
        let init = tags.drop_last();
        lemma_picks_exact(sets, init, s);
        let prev = picks(sets, init, s);
        let cur = picks(sets, tags, s);
        assert forall|p: nat|
            p < tags.len() && route(sets, #[trigger] tags[p as int]) == Some(s) implies cur.contains(
            p,
        ) by {
            if p < init.len() {
                assert(init[p as int] == tags[p as int]);
                let k = choose|k: int| 0 <= k < prev.len() && prev[k] == p;
                assert(cur[k] == p);
            } else {
                assert(cur[cur.len() - 1] == p);
            }
        }
        assert forall|i: int| 0 <= i < cur.len() implies #[trigger] cur[i] < tags.len() && route(
            sets,
            tags[cur[i] as int],
        ) == Some(s) by {
            if i < prev.len() {
                assert(cur[i] == prev[i]);
                assert(init[prev[i] as int] == tags[prev[i] as int]);
            }
        }
        assert forall|i: int, j: int| 0 <= i < j < cur.len() implies #[trigger] cur[i]
            < #[trigger] cur[j] by {
            assert(cur[i] == prev[i]);
            if j < prev.len() {
                assert(cur[j] == prev[j]);
            } else {
                assert(prev[i] < init.len());
            }
        }
    }
}

/// Every element of a region's output stays within the region.
proof fn lemma_output_bounds(sets: Seq<Seq<Seq<char>>>, archive: Seq<Seq<Tag>>, s: nat)
    ensures
        forall|i: int|
            0 <= i < output(sets, archive, s).len() ==> {
                let (r, p) = #[trigger] output(sets, archive, s)[i];
                &&& r < archive.len()
                &&& p < archive[r as int].len()
                &&& route(sets, archive[r as int][p as int]) == Some(s)
            },
        forall|i: int, j: int|
            0 <= i < j < output(sets, archive, s).len() ==> lex_lt(
                #[trigger] output(sets, archive, s)[i],
                #[trigger] output(sets, archive, s)[j],
            ),
        forall|r: nat, p: nat|
            r < archive.len() && p < archive[r as int].len() && route(
                sets,
                #[trigger] archive[r as int][p as int],
            ) == Some(s) ==> output(sets, archive, s).contains((r, p)),
    decreases archive.len(),
{
    if archive.len() > 0 {
        let init = archive.drop_last();
        let last = archive.last();
        let n = (archive.len() - 1) as nat;
        lemma_output_bounds(sets, init, s);
        lemma_picks_exact(sets, last, s);
        let prev = output(sets, init, s);
        let pk = picks(sets, last, s);
        let tail = pk.map_values(|p: nat| (n, p));
        let cur = output(sets, archive, s);
        assert(cur == prev + tail);
        assert forall|i: int| 0 <= i < cur.len() implies {
            let (r, p) = #[trigger] cur[i];
            &&& r < archive.len()
            &&& p < archive[r as int].len()
            &&& route(sets, archive[r as int][p as int]) == Some(s)
        } by {
            if i < prev.len() {
                assert(cur[i] == prev[i]);
                assert(init[prev[i].0 as int] == archive[prev[i].0 as int]);
            } else {
                assert(cur[i] == tail[i - prev.len()]);
                assert(pk[i - prev.len()] < last.len());
            }
        }
        assert forall|i: int, j: int| 0 <= i < j < cur.len() implies lex_lt(
            #[trigger] cur[i],
            #[trigger] cur[j],
        ) by {
            if j < prev.len() {
                assert(cur[i] == prev[i] && cur[j] == prev[j]);
            } else if i < prev.len() {
                assert(cur[i] == prev[i]);
                assert(cur[j] == tail[j - prev.len()]);
            } else {
                assert(cur[i] == tail[i - prev.len()]);
                assert(cur[j] == tail[j - prev.len()]);
                assert(pk[i - prev.len()] < pk[j - prev.len()]);
            }
        }
        assert forall|r: nat, p: nat|
            r < archive.len() && p < archive[r as int].len() && route(
                sets,
                #[trigger] archive[r as int][p as int],
            ) == Some(s) implies cur.contains((r, p)) by {
            if r < n {
                assert(init[r as int] == archive[r as int]);
                assert(init[r as int][p as int] == archive[r as int][p as int]);
                let k = choose|k: int| 0 <= k < prev.len() && prev[k] == (r, p);
                assert(cur[k] == (r, p));
            } else {
                assert(last[p as int] == archive[r as int][p as int]);
                assert(pk.contains(p));
                let k = choose|k: int| 0 <= k < pk.len() && pk[k] == p;
                assert(cur[prev.len() + k] == tail[k]);
            }
        }
    }
}

/// Strict lexicographic order on `(region, position)`.
pub open spec fn lex_lt(a: (nat, nat), b: (nat, nat)) -> bool {
    a.0 < b.0 || (a.0 == b.0 && a.1 < b.1)
}

/// Sample `s` holds the barcode and no later sample does.
pub open spec fn last_holder(sets: Seq<Seq<Seq<char>>>, bc: Seq<char>, s: nat) -> bool {
    &&& s < sets.len()
    &&& sets[s as int].contains(bc)
    &&& forall|t: int| s < t < sets.len() ==> !(#[trigger] sets[t]).contains(bc)
}

/// A barcode is owned by sample `s` exactly when `s`'s set holds it and no
/// later sample's set does.
pub proof fn lemma_owner_exact(sets: Seq<Seq<Seq<char>>>, bc: Seq<char>, s: nat)
    ensures
        owner_of(sets, bc) == Some(s) <==> last_holder(sets, bc, s),
    decreases sets.len(),
{
    if sets.len() > 0 {
        let init = sets.drop_last();
        let last = (sets.len() - 1) as int;
        lemma_owner_exact(init, bc, s);
        lemma_owner_in_range(init, bc);
        assert(sets[last] == sets.last());
        assert forall|t: int| 0 <= t < init.len() implies #[trigger] init[t] == sets[t] by {}
        if sets.last().contains(bc) {
            if s < last {
                assert(!last_holder(sets, bc, s));
            }
        } else {
            if s == last {
                assert(!last_holder(sets, bc, s));
            } else if s < last {
                if last_holder(sets, bc, s) {
                    assert(last_holder(init, bc, s));
                }
                if last_holder(init, bc, s) {
                    assert forall|t: int| s < t < sets.len() implies !(#[trigger] sets[t]).contains(
                        bc,
                    ) by {
                        if t < last {
                            assert(init[t] == sets[t]);
                        }
                    }
                }
            }
        }
    }
}

/// Partition correctness: every record in sample `s`'s finalized archive
/// carries a barcode of `s`'s set, and every record whose barcode is in
/// `s`'s set and in no later sample's set is in it.
pub proof fn lemma_partition(sets: Seq<Seq<Seq<char>>>, archive: Seq<Seq<Tag>>, s: nat)
    ensures
        forall|i: int|
            0 <= i < output(sets, archive, s).len() ==> {
                let (r, p) = #[trigger] output(sets, archive, s)[i];
                &&& r < archive.len()
                &&& p < archive[r as int].len()
                &&& archive[r as int][p as int] matches Some(bc)
                &&& s < sets.len()
                &&& sets[s as int].contains(bc)
            },
        forall|r: nat, p: nat, bc: Seq<char>|
            r < archive.len() && p < archive[r as int].len() && #[trigger] archive[r as int][p as int]
                == Some(bc) && #[trigger] last_holder(sets, bc, s) ==> output(
                sets,
                archive,
                s,
            ).contains((r, p)),
{
    lemma_output_bounds(sets, archive, s);
    let out = output(sets, archive, s);
    assert forall|i: int| 0 <= i < out.len() implies {
        let (r, p) = #[trigger] out[i];
        &&& r < archive.len()
        &&& p < archive[r as int].len()
        &&& archive[r as int][p as int] matches Some(bc)
        &&& s < sets.len()
        &&& sets[s as int].contains(bc)
    } by {
        let (r, p) = out[i];
        if let Some(bc) = archive[r as int][p as int] {
            lemma_owner_in_range(sets, bc);
        }
    }
    assert forall|r: nat, p: nat, bc: Seq<char>|
        r < archive.len() && p < archive[r as int].len() && #[trigger] archive[r as int][p as int]
            == Some(bc) && #[trigger] last_holder(sets, bc, s) implies out.contains(
        (r, p),
    ) by {
        lemma_owner_exact(sets, bc, s);
    }
}

/// Order preservation: a finalized archive lists its records by region in
/// header order and, within a region, in the order of the source archive.
pub proof fn lemma_order_preserved(sets: Seq<Seq<Seq<char>>>, archive: Seq<Seq<Tag>>, s: nat)
    ensures
        forall|i: int, j: int|
            0 <= i < j < output(sets, archive, s).len() ==> lex_lt(
                #[trigger] output(sets, archive, s)[i],
                #[trigger] output(sets, archive, s)[j],
            ),
{
    lemma_output_bounds(sets, archive, s);
}

/// A sample with an empty barcode set receives no record.
pub proof fn lemma_empty_set(sets: Seq<Seq<Seq<char>>>, archive: Seq<Seq<Tag>>, s: nat)
    requires
        s < sets.len(),
        sets[s as int].len() == 0,
    ensures
        output(sets, archive, s).len() == 0,
{
    lemma_partition(sets, archive, s);
    if output(sets, archive, s).len() > 0 {
        let (r, p) = output(sets, archive, s)[0];
        if let Some(bc) = archive[r as int][p as int] {
            assert(sets[s as int].contains(bc));
        }
    }
}

/// No record is written to two samples, even where two samples' sets share
/// a barcode.
pub proof fn lemma_no_duplication(
    sets: Seq<Seq<Seq<char>>>,
    archive: Seq<Seq<Tag>>,
    s1: nat,
    s2: nat,
    rec: (nat, nat),
)
    requires
        s1 != s2,
        output(sets, archive, s1).contains(rec),
    ensures
        !output(sets, archive, s2).contains(rec),
{
    lemma_output_bounds(sets, archive, s1);
    lemma_output_bounds(sets, archive, s2);
}

} // verus!
