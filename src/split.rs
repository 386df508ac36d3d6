//! Per-region splitting: the decision, record by record, of which sample's
//! partial archive a record of the region is appended to.
use vstd::prelude::*;

use crate::barcodes::{BarcodeIndex, SampleBarcodeCollection};
use crate::model::{
    as_pos, lemma_picks_len, lemma_picks_push, picks, route, unmatched, Tag,
};

verus! {

/// The tag of a record as handed over by the reader: the barcode string, or
/// `None` when the tag is absent or not a string.
pub open spec fn tag_of(t: Option<String>) -> Tag {
    match t {
        Some(s) => Some(s@),
        None => None,
    }
}

/// A split of one input archive by sample barcodes.
pub struct SplitBam {
    path: String,
    barcodes: SampleBarcodeCollection,
    index: BarcodeIndex,
}

impl SplitBam {
    /// Path of the input archive.
    pub closed spec fn path_spec(&self) -> Seq<char> {
        self.path@
    }

    /// Sample names, in collection order.
    pub closed spec fn names(&self) -> Seq<Seq<char>> {
        self.barcodes.names()
    }

    /// Barcode set of each sample, in collection order.
    pub closed spec fn sets(&self) -> Seq<Seq<Seq<char>>> {
        self.barcodes.sets()
    }

    pub closed spec fn wf(&self) -> bool {
        &&& self.barcodes.wf()
        &&& self.index.wf()
        &&& self.index.sets() == self.barcodes.sets()
    }

    /// Prepares the split of the archive at `path`; the barcode index is
    /// built here, once.
    pub fn new(path: String, barcodes: SampleBarcodeCollection) -> (r: SplitBam)
        requires
            barcodes.wf(),
        ensures
            r.wf(),
            r.path_spec() == path@,
            r.names() == barcodes.names(),
            r.sets() == barcodes.sets(),
    {
        let index = barcodes.barcodes_inversed();
        SplitBam { path, barcodes, index }
    }

    pub fn path(&self) -> (r: &String)
        ensures
            r@ == self.path_spec(),
    {
        &self.path
    }

    /// The sample names, in collection order.
    pub fn samples(&self) -> (r: &Vec<String>)
        ensures
            r@.map_values(|s: String| s@) == self.names(),
    {
        self.barcodes.samples()
    }

    /// The sample a record with this tag goes to, if any.
    pub fn sample_of(&self, tag: &Option<String>) -> (r: Option<usize>)
        requires
            self.wf(),
        ensures
            as_pos(r) == route(self.sets(), tag_of(*tag)),
            r matches Some(s) ==> s < self.sets().len(),
    {
        match tag {
            Some(bc) => self.index.sample_of(bc),
            None => None,
        }
    }

    /// Starts the split of one region.
    pub fn start_region(&self) -> (r: RegionSplit)
        requires
            self.wf(),
        ensures
            r.wf(),
            r.sets() == self.sets(),
            r.tags() == Seq::<Tag>::empty(),
    {
        let n = self.index.n_samples();
        let mut counts: Vec<u64> = Vec::new();
        for i in 0..n
            invariant
                counts@.len() == i,
                forall|k: int| 0 <= k < i ==> counts@[k] == 0,
        {
            counts.push(0);
        }
        RegionSplit { counts, skipped: 0, seen: 0, tags: Ghost(Seq::empty()), sets: Ghost(self.sets()) }
    }
}

/// The progress of the split of one region: the tags of the records read so
/// far, and how many went to each sample and to none.
pub struct RegionSplit {
    counts: Vec<u64>,
    skipped: u64,
    seen: u64,
    tags: Ghost<Seq<Tag>>,
    sets: Ghost<Seq<Seq<Seq<char>>>>,
}

impl RegionSplit {
    /// Tags of the records of the region read so far, in archive order.
    pub closed spec fn tags(&self) -> Seq<Tag> {
        self.tags@
    }

    /// Barcode sets of the samples.
    pub closed spec fn sets(&self) -> Seq<Seq<Seq<char>>> {
        self.sets@
    }

    pub closed spec fn wf(&self) -> bool {
        &&& self.counts@.len() == self.sets@.len()
        &&& self.seen == self.tags@.len()
        &&& self.skipped == unmatched(self.sets@, self.tags@)
        &&& forall|s: int|
            0 <= s < self.counts@.len() ==> #[trigger] self.counts@[s] == picks(
                self.sets@,
                self.tags@,
                s as nat,
            ).len()
    }

    /// Takes the next record of the region, by its tag, and says which
    /// sample's partial archive it is appended to.
    pub fn accept(&mut self, splitter: &SplitBam, tag: &Option<String>) -> (r: Option<usize>)
        requires
            old(self).wf(),
            splitter.wf(),
            splitter.sets() == old(self).sets(),
            old(self).tags().len() < u64::MAX,
        ensures
            final(self).wf(),
            final(self).sets() == old(self).sets(),
            final(self).tags() == old(self).tags().push(tag_of(*tag)),
            as_pos(r) == route(old(self).sets(), tag_of(*tag)),
            r matches Some(s) ==> s < old(self).sets().len(),
    {
        let ghost old_tags = self.tags@;
        let ghost t = tag_of(*tag);
        let r = splitter.sample_of(tag);
        proof {
            assert forall|s: nat| #[trigger] picks(self.sets@, old_tags.push(t), s) == if route(
                self.sets@,
                t,
            ) == Some(s) {
                picks(self.sets@, old_tags, s).push(old_tags.len())
            } else {
                picks(self.sets@, old_tags, s)
            } by {
                lemma_picks_push(self.sets@, old_tags, t, s);
            }
            lemma_picks_push(self.sets@, old_tags, t, 0);
            lemma_picks_len(self.sets@, old_tags, 0);
        }
        match r {
            Some(s) => {
                proof {
                    lemma_picks_len(self.sets@, old_tags, s as nat);
                }
                let c = self.counts[s];
                self.counts.set(s, c + 1);
            },
            None => {
                self.skipped = self.skipped + 1;
            },
        }
        self.seen = self.seen + 1;
        self.tags = Ghost(old_tags.push(t));
        r
    }

    /// Number of records of the region read so far.
    pub fn seen(&self) -> (n: u64)
        requires
            self.wf(),
        ensures
            n == self.tags().len(),
    {
        self.seen
    }

    /// Number of records read so far that went to no sample.
    pub fn skipped(&self) -> (n: u64)
        requires
            self.wf(),
        ensures
            n == unmatched(self.sets(), self.tags()),
    {
        self.skipped
    }

    /// Number of records read so far that went to sample `s`.
    pub fn count(&self, s: usize) -> (n: u64)
        requires
            self.wf(),
            s < self.sets().len(),
        ensures
            n == picks(self.sets(), self.tags(), s as nat).len(),
    {
        self.counts[s]
    }
}

} // verus!
