use scnado::barcodes::{SampleBarcodeCollection, SampleBarcodes};
use scnado::merge::{merge_plans, RegionPartials};
use scnado::report::{collect_regions, finish, MergeError, SplitError};
use scnado::split::SplitBam;

fn strings(v: &[&str]) -> Vec<String> {
    v.iter().map(|s| s.to_string()).collect()
}

fn tag(s: &str) -> Option<String> {
    Some(s.to_string())
}

fn two_samples() -> SplitBam {
    let sets = vec![
        SampleBarcodes::new("S1".to_string(), strings(&["AAA"])),
        SampleBarcodes::new("S2".to_string(), strings(&["BBB"])),
    ];
    let collection = SampleBarcodeCollection::from_sample_barcodes(sets);
    SplitBam::new("input.bam".to_string(), collection)
}

/// Routes the tags of one region and returns each record's sample.
fn run_region(splitter: &SplitBam, tags: &[Option<String>]) -> Vec<Option<usize>> {
    let mut region = splitter.start_region();
    tags.iter().map(|t| region.accept(splitter, t)).collect()
}

fn partials(region: usize, n_samples: usize) -> RegionPartials {
    RegionPartials {
        region,
        paths: (0..n_samples).map(|s| format!("{}_{}.bam", s, region)).collect(),
    }
}

#[test]
fn two_regions_two_samples() {
    let splitter = two_samples();
    let chr1 = vec![tag("AAA"), tag("BBB"), tag("CCC")];
    let chr2 = vec![tag("AAA"), tag("BBB")];
    assert_eq!(run_region(&splitter, &chr1), vec![Some(0), Some(1), None]);
    assert_eq!(run_region(&splitter, &chr2), vec![Some(0), Some(1)]);

    let mut region = splitter.start_region();
    for t in &chr1 {
        region.accept(&splitter, t);
    }
    assert_eq!(region.count(0), 1);
    assert_eq!(region.count(1), 1);
    assert_eq!(region.skipped(), 1);
    assert_eq!(region.seen(), 3);

    let plans = merge_plans(&vec![partials(0, 2), partials(1, 2)], 2, 2);
    assert_eq!(plans, vec![strings(&["0_0.bam", "0_1.bam"]), strings(&["1_0.bam", "1_1.bam"])]);
}

#[test]
fn counts_add_up_to_records_seen() {
    let splitter = two_samples();
    let mut region = splitter.start_region();
    let tags = vec![tag("AAA"), None, tag("BBB"), tag("AAA"), tag("ZZZ"), tag("")];
    for t in &tags {
        region.accept(&splitter, t);
    }
    assert_eq!(region.count(0), 2);
    assert_eq!(region.count(1), 1);
    assert_eq!(region.skipped(), 3);
    assert_eq!(region.count(0) + region.count(1) + region.skipped(), region.seen());
    assert_eq!(region.seen(), 6);
}

#[test]
fn absent_tag_goes_nowhere() {
    let splitter = two_samples();
    assert_eq!(splitter.sample_of(&None), None);
    assert_eq!(splitter.sample_of(&tag("aaa")), None);
    assert_eq!(splitter.sample_of(&tag("BBB")), Some(1));
}

#[test]
fn shared_barcode_goes_to_later_sample_only() {
    let collection = SampleBarcodeCollection::new(
        strings(&["A", "B", "C"]),
        vec![strings(&["X", "Y"]), strings(&["Y", "Z"]), strings(&["Q"])],
    );
    let splitter = SplitBam::new("in.bam".to_string(), collection);
    assert_eq!(splitter.sample_of(&tag("X")), Some(0));
    assert_eq!(splitter.sample_of(&tag("Y")), Some(1));
    assert_eq!(splitter.sample_of(&tag("Z")), Some(1));
    assert_eq!(splitter.sample_of(&tag("Q")), Some(2));
    let mut region = splitter.start_region();
    region.accept(&splitter, &tag("Y"));
    assert_eq!(region.count(0), 0);
    assert_eq!(region.count(1), 1);
    assert_eq!(region.count(2), 0);
}

#[test]
fn holders_lists_every_sample_with_the_barcode() {
    let collection = SampleBarcodeCollection::new(
        strings(&["A", "B", "C"]),
        vec![strings(&["X", "Y"]), strings(&["Z"]), strings(&["Y"])],
    );
    assert_eq!(collection.holders(&"Y".to_string()), vec![0, 2]);
    assert_eq!(collection.holders(&"Z".to_string()), vec![1]);
    assert_eq!(collection.holders(&"W".to_string()), Vec::<usize>::new());
    assert_eq!(collection.barcodes_of(2), &strings(&["Y"]));
    assert_eq!(collection.len(), 3);
    let index = collection.barcodes_inversed();
    assert_eq!(index.n_samples(), 3);
    assert_eq!(index.sample_of(&"Y".to_string()), Some(2));
    assert_eq!(index.sample_of(&"X".to_string()), Some(0));
    assert_eq!(index.sample_of(&"W".to_string()), None);
}

#[test]
fn empty_set_receives_nothing() {
    let collection =
        SampleBarcodeCollection::new(strings(&["A", "E"]), vec![strings(&["X"]), vec![]]);
    let splitter = SplitBam::new("in.bam".to_string(), collection);
    let mut region = splitter.start_region();
    for t in [tag("X"), tag(""), tag("E"), None] {
        region.accept(&splitter, &t);
    }
    assert_eq!(region.count(1), 0);
    assert_eq!(region.count(0), 1);
    assert_eq!(region.skipped(), 3);
}

#[test]
fn empty_collection_matches_nothing() {
    let collection = SampleBarcodeCollection::from_sample_barcodes(vec![]);
    assert_eq!(collection.len(), 0);
    let splitter = SplitBam::new("in.bam".to_string(), collection);
    assert_eq!(splitter.sample_of(&tag("AAA")), None);
}

#[test]
fn collection_keeps_sample_order() {
    let one = SampleBarcodes::new("s".to_string(), strings(&["G", "T"]));
    assert_eq!(one.sample(), "s");
    assert_eq!(one.barcodes(), &strings(&["G", "T"]));
    let sets = vec![
        SampleBarcodes::new("b".to_string(), strings(&["1"])),
        SampleBarcodes::new("a".to_string(), strings(&["2"])),
    ];
    let collection = SampleBarcodeCollection::from_sample_barcodes(sets);
    assert_eq!(collection.samples(), &strings(&["b", "a"]));
    let splitter = SplitBam::new("x.bam".to_string(), collection);
    assert_eq!(splitter.path(), "x.bam");
    assert_eq!(splitter.samples(), &strings(&["b", "a"]));
    assert_eq!(splitter.sample_of(&tag("2")), Some(1));
}

#[test]
fn merge_plan_ignores_arrival_order() {
    let forward = vec![partials(0, 2), partials(1, 2), partials(2, 2)];
    let shuffled = vec![partials(2, 2), partials(0, 2), partials(1, 2)];
    let a = merge_plans(&forward, 3, 2);
    let b = merge_plans(&shuffled, 3, 2);
    assert_eq!(a, b);
    assert_eq!(a[0], strings(&["0_0.bam", "0_1.bam", "0_2.bam"]));
}

#[test]
fn merge_plan_skips_failed_regions() {
    let done = vec![partials(2, 1), partials(0, 1)];
    let plans = merge_plans(&done, 3, 1);
    assert_eq!(plans, vec![strings(&["0_0.bam", "0_2.bam"])]);
    let none = merge_plans(&vec![], 3, 2);
    assert_eq!(none, vec![Vec::<String>::new(), Vec::new()]);
}

#[test]
fn region_outcomes_are_separated() {
    let outcomes = vec![
        Ok(partials(1, 1)),
        Err(SplitError { region: "chrX".to_string(), message: "bad region".to_string() }),
        Ok(partials(0, 1)),
    ];
    let (done, failed) = collect_regions(outcomes);
    assert_eq!(done.iter().map(|p| p.region).collect::<Vec<_>>(), vec![1, 0]);
    assert_eq!(failed.len(), 1);
    assert_eq!(failed[0].region, "chrX");
}

#[test]
fn run_succeeds_only_without_failures() {
    assert!(finish(vec![], vec![]).is_ok());
    let e = finish(
        vec![SplitError { region: "chr2".to_string(), message: "io".to_string() }],
        vec![],
    );
    match e {
        Err(e) => {
            assert_eq!(e.regions.len(), 1);
            assert_eq!(e.samples.len(), 0);
        }
        Ok(()) => panic!("a failed region must fail the run"),
    }
    let e = finish(
        vec![],
        vec![MergeError { sample: "S1".to_string(), message: "rename".to_string() }],
    );
    match e {
        Err(e) => assert_eq!(e.samples[0].sample, "S1"),
        Ok(()) => panic!("a failed merge must fail the run"),
    }
}
