//! Samples, their barcode sets, and the inverted barcode index.
use vstd::prelude::*;

use crate::model::{as_pos, lemma_owner_in_range, owner_of};

verus! {

/// A copy of a list of strings.
fn copy_strings(v: &Vec<String>) -> (r: Vec<String>)
    ensures
        r@.map_values(|b: String| b@) == v@.map_values(|b: String| b@),
{
    let mut r: Vec<String> = Vec::new();
    for i in 0..v.len()
        invariant
            r@.len() == i,
            forall|k: int| 0 <= k < i ==> #[trigger] r@[k]@ == v@[k]@,
    {
        r.push(v[i].clone());
    }
    assert(r@.map_values(|b: String| b@) =~= v@.map_values(|b: String| b@));
    r
}

/// Whether the list holds the barcode.
fn holds(v: &Vec<String>, bc: &String) -> (r: bool)
    ensures
        r == v@.map_values(|b: String| b@).contains(bc@),
{
    let ghost m = v@.map_values(|b: String| b@);
    for j in 0..v.len()
        invariant
            m == v@.map_values(|b: String| b@),
            forall|k: int| 0 <= k < j ==> m[k] != bc@,
    {
        if v[j] == *bc {
            assert(m[j as int] == bc@);
            return true;
        }
    }
    false
}

/// One sample and the barcodes that identify it.
pub struct SampleBarcodes {
    sample: String,
    barcodes: Vec<String>,
}

impl SampleBarcodes {
    pub closed spec fn sample_spec(&self) -> Seq<char> {
        self.sample@
    }

    pub closed spec fn barcodes_spec(&self) -> Seq<Seq<char>> {
        self.barcodes@.map_values(|b: String| b@)
    }

    pub fn new(sample: String, barcodes: Vec<String>) -> (r: SampleBarcodes)
        ensures
            r.sample_spec() == sample@,
            r.barcodes_spec() == barcodes@.map_values(|b: String| b@),
    {
        SampleBarcodes { sample, barcodes }
    }

    pub fn sample(&self) -> (r: &String)
        ensures
            r@ == self.sample_spec(),
    {
        &self.sample
    }

    pub fn barcodes(&self) -> (r: &Vec<String>)
        ensures
            r@.map_values(|b: String| b@) == self.barcodes_spec(),
    {
        &self.barcodes
    }
}

/// All samples of a run, in order, with their barcode sets.
pub struct SampleBarcodeCollection {
    samples: Vec<String>,
    barcodes: Vec<Vec<String>>,
}

impl SampleBarcodeCollection {
    /// Sample names, in collection order.
    pub closed spec fn names(&self) -> Seq<Seq<char>> {
        self.samples@.map_values(|s: String| s@)
    }

    /// Barcode set of each sample, in collection order.
    pub closed spec fn sets(&self) -> Seq<Seq<Seq<char>>> {
        self.barcodes@.map_values(|v: Vec<String>| v@.map_values(|b: String| b@))
    }

    pub closed spec fn wf(&self) -> bool {
        self.samples@.len() == self.barcodes@.len()
    }

    /// Pairs `samples[i]` with the barcode set `barcodes[i]`.
    pub fn new(samples: Vec<String>, barcodes: Vec<Vec<String>>) -> (r: SampleBarcodeCollection)
        requires
            samples@.len() == barcodes@.len(),
        ensures
            r.wf(),
            r.names() == samples@.map_values(|s: String| s@),
            r.sets() == barcodes@.map_values(|v: Vec<String>| v@.map_values(|b: String| b@)),
    {
        SampleBarcodeCollection { samples, barcodes }
    }

    /// Builds the collection from a list of samples, keeping their order.
    pub fn from_sample_barcodes(sample_barcodes: Vec<SampleBarcodes>) -> (r: SampleBarcodeCollection)
        ensures
            r.wf(),
            r.names() == sample_barcodes@.map_values(|s: SampleBarcodes| s.sample_spec()),
            r.sets() == sample_barcodes@.map_values(|s: SampleBarcodes| s.barcodes_spec()),
    {
        let mut samples: Vec<String> = Vec::new();
        let mut barcodes: Vec<Vec<String>> = Vec::new();
        let n = sample_barcodes.len();
        for i in 0..n
            invariant
                n == sample_barcodes@.len(),
                samples@.len() == i,
                barcodes@.len() == i,
                forall|k: int| 0 <= k < i ==> #[trigger] samples@[k]@ == sample_barcodes@[k].sample@,
                forall|k: int|
                    0 <= k < i ==> (#[trigger] barcodes@[k])@.map_values(|b: String| b@)
                        == sample_barcodes@[k].barcodes@.map_values(|b: String| b@),
        {
            samples.push(sample_barcodes[i].sample.clone());
            barcodes.push(copy_strings(&sample_barcodes[i].barcodes));
        }
        let r = SampleBarcodeCollection { samples, barcodes };
        assert(r.names() =~= sample_barcodes@.map_values(|s: SampleBarcodes| s.sample_spec()));
        assert(r.sets() =~= sample_barcodes@.map_values(|s: SampleBarcodes| s.barcodes_spec()));
        r
    }

    /// The sample names, in collection order.
    pub fn samples(&self) -> (r: &Vec<String>)
        ensures
            r@.map_values(|s: String| s@) == self.names(),
    {
        &self.samples
    }

    /// The barcode set of sample `i`.
    pub fn barcodes_of(&self, i: usize) -> (r: &Vec<String>)
        requires
            self.wf(),
            i < self.sets().len(),
        ensures
            r@.map_values(|b: String| b@) == self.sets()[i as int],
    {
        &self.barcodes[i]
    }

    /// Every sample whose set holds `barcode`, in collection order. More than
    /// one means the barcode is shared, and only the last of them receives
    /// its records.
    pub fn holders(&self, barcode: &String) -> (r: Vec<usize>)
        requires
            self.wf(),
        ensures
            forall|k: int|
                0 <= k < r@.len() ==> #[trigger] r@[k] < self.sets().len() && self.sets()[r@[k] as int].contains(
                    barcode@,
                ),
            forall|i: int, j: int| 0 <= i < j < r@.len() ==> #[trigger] r@[i] < #[trigger] r@[j],
            forall|s: int|
                0 <= s < self.sets().len() && #[trigger] self.sets()[s].contains(barcode@) ==> r@.contains(
                    s as usize,
                ),
    {
        let mut r: Vec<usize> = Vec::new();
        let n = self.barcodes.len();
        for i in 0..n
            invariant
                n == self.sets().len(),
                forall|k: int|
                    0 <= k < r@.len() ==> #[trigger] r@[k] < i && self.sets()[r@[k] as int].contains(
                        barcode@,
                    ),
                forall|a: int, b: int| 0 <= a < b < r@.len() ==> #[trigger] r@[a] < #[trigger] r@[b],
                forall|s: int|
                    0 <= s < i && #[trigger] self.sets()[s].contains(barcode@) ==> r@.contains(
                        s as usize,
                    ),
        {
            assert(self.barcodes@[i as int]@.map_values(|b: String| b@) == self.sets()[i as int]);
            let ghost before = r@;
            if holds(&self.barcodes[i], barcode) {
                r.push(i);
                assert(r@[r@.len() - 1] == i);
            }
            assert forall|s: int|
                0 <= s < i + 1 && #[trigger] self.sets()[s].contains(barcode@) implies r@.contains(
                s as usize,
            ) by {
                if s < i {
                    let k = choose|k: int| 0 <= k < before.len() && before[k] == s as usize;
                    assert(r@[k] == s as usize);
                }
            }
        }
        r
    }

    pub fn len(&self) -> (n: usize)
        requires
            self.wf(),
        ensures
            n == self.sets().len(),
            n == self.names().len(),
    {
        self.samples.len()
    }
}

impl SampleBarcodeCollection {
    /// The inverted index of the collection: each barcode to the sample that
    /// owns it, the later sample winning where two sets share a barcode.
    pub fn barcodes_inversed(&self) -> (r: BarcodeIndex)
        requires
            self.wf(),
        ensures
            r.wf(),
            r.sets() == self.sets(),
    {
        let ghost sets = self.sets();
        let mut entries: Vec<(String, usize)> = Vec::new();
        let n = self.samples.len();
        for i in 0..n
            invariant
                n == sets.len(),
                self.wf(),
                sets == self.sets(),
                forall|k: int| 0 <= k < entries@.len() ==> #[trigger] entries@[k].1 < i,
                forall|bc: Seq<char>| #[trigger]
                    find(entries@, bc) == owner_of(sets.take(i as int), bc),
        {
            let set = &self.barcodes[i];
            assert(set@.map_values(|b: String| b@) == sets[i as int]);
            for j in 0..set.len()
                invariant
                    0 <= i < n,
                    n == sets.len(),
                    set@.map_values(|b: String| b@) == sets[i as int],
                    forall|k: int| 0 <= k < entries@.len() ==> #[trigger] entries@[k].1 <= i,
                    forall|bc: Seq<char>| #[trigger]
                        find(entries@, bc) == if sets[i as int].take(j as int).contains(bc) {
                            Some(i as nat)
                        } else {
                            owner_of(sets.take(i as int), bc)
                        },
            {
                let ghost old_entries = entries@;
                let ghost b = set@[j as int]@;
                entries.push((set[j].clone(), i));
                assert(sets[i as int].take(j + 1) =~= sets[i as int].take(j as int).push(b));
                assert forall|bc: Seq<char>| #[trigger]
                    find(entries@, bc) == if sets[i as int].take(j + 1).contains(bc) {
                        Some(i as nat)
                    } else {
                        owner_of(sets.take(i as int), bc)
                    } by {
                    lemma_find_push(old_entries, (set@[j as int], i), bc);
                    assert(sets[i as int].take(j as int).push(b).contains(bc) <==> (
                    sets[i as int].take(j as int).contains(bc) || b == bc)) by {
                        if b == bc {
                            assert(sets[i as int].take(j as int).push(b)[j as int] == bc);
                        }
                    }
                }
            }
            assert(sets[i as int].take(set@.len() as int) =~= sets[i as int]);
            assert(sets.take(i + 1).drop_last() =~= sets.take(i as int));
            assert(sets.take(i + 1).last() == sets[i as int]);
        }
        assert(sets.take(n as int) =~= sets);
        BarcodeIndex { entries, n_samples: n, sets: Ghost(sets) }
    }
}

/// The sample recorded for a barcode by a sequence of insertions: the last
/// insertion of that barcode, if any.
pub open spec fn find(e: Seq<(String, usize)>, bc: Seq<char>) -> Option<nat>
    decreases e.len(),
{
    if e.len() == 0 {
        None
    } else if e.last().0@ == bc {
        Some(e.last().1 as nat)
    } else {
        find(e.drop_last(), bc)
    }
}

proof fn lemma_find_push(e: Seq<(String, usize)>, x: (String, usize), bc: Seq<char>)
    ensures
        find(e.push(x), bc) == if x.0@ == bc {
            Some(x.1 as nat)
        } else {
            find(e, bc)
        },
{
    assert(e.push(x).drop_last() =~= e);
}

/// Barcode to sample lookup, built once per run and only read afterwards.
///
/// The entries are the insertions in collection order; a lookup takes the
/// last insertion of the barcode.
pub struct BarcodeIndex {
    entries: Vec<(String, usize)>,
    n_samples: usize,
    sets: Ghost<Seq<Seq<Seq<char>>>>,
}

impl BarcodeIndex {
    /// The barcode sets the index was built from.
    pub closed spec fn sets(&self) -> Seq<Seq<Seq<char>>> {
        self.sets@
    }

    pub closed spec fn wf(&self) -> bool {
        &&& self.n_samples == self.sets@.len()
        &&& forall|bc: Seq<char>| #[trigger] find(self.entries@, bc) == owner_of(self.sets@, bc)
    }

    /// Number of samples the index routes to.
    pub fn n_samples(&self) -> (n: usize)
        requires
            self.wf(),
        ensures
            n == self.sets().len(),
    {
        self.n_samples
    }

    /// The position of the sample that owns `barcode`, if any sample does.
    pub fn sample_of(&self, barcode: &String) -> (r: Option<usize>)
        requires
            self.wf(),
        ensures
            as_pos(r) == owner_of(self.sets(), barcode@),
            r matches Some(s) ==> s < self.sets().len(),
    {
        proof {
            lemma_owner_in_range(self.sets(), barcode@);
        }
        let ghost e = self.entries@;
        assert(find(e, barcode@) == owner_of(self.sets(), barcode@));
        assert(e.take(e.len() as int) =~= e);
        let mut k = self.entries.len();
        while k > 0
            invariant
                k <= e.len(),
                e == self.entries@,
                find(e.take(k as int), barcode@) == find(e, barcode@),
                find(e, barcode@) == owner_of(self.sets(), barcode@),
                owner_of(self.sets(), barcode@) matches Some(s) ==> s < self.sets().len(),
            decreases k,
        {
            assert(e.take(k as int).drop_last() =~= e.take(k - 1));
            assert(e.take(k as int).last() == e[k - 1]);
            if self.entries[k - 1].0 == *barcode {
                return Some(self.entries[k - 1].1);
            }
            k = k - 1;
        }
        None
    }
}

} // verus!
