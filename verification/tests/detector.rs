use strif::align::{create_pure_seq, detect_interruptions};
use strif::catalog::{load_str_catalog, LocusFilter};
use strif::profile::{profile, Profile, ReadRow};
use strif::utils::AlignmentScoreParams;
use strif::StrifError;

fn default_params() -> AlignmentScoreParams {
    AlignmentScoreParams {
        match_score: 1,
        mismatch_penalty: 8,
        gap_open_penalty: 10,
        gap_extend_penalty: 1,
    }
}

#[test]
fn pure_seq_tiling_ac() {
    // motif "AC", target length 10, padding 4: 10/2 + 1 + 4 = 10 copies.
    let pure = create_pure_seq(&b"AC".to_vec(), 10, 4);
    assert_eq!(pure.len(), 20);
    assert_eq!(pure, b"ACACACACACACACACACAC".to_vec());
}

#[test]
fn pure_seq_tiling_uneven() {
    let pure = create_pure_seq(&b"CAG".to_vec(), 7, 4);
    // 7/3 + 1 + 4 = 7 copies of a 3-byte motif.
    assert_eq!(pure.len(), 21);
    assert_eq!(&pure[..6], b"CAGCAG");
}

#[test]
fn pure_tiling_read_has_no_interruptions() {
    let params = default_params();
    let ints = detect_interruptions(&b"ACACACACAC".to_vec(), &b"AC".to_vec(), &params);
    assert!(ints.is_empty());
}

#[test]
fn middle_interruption_is_found() {
    let params = default_params();
    let ints = detect_interruptions(&b"CAGCAGTTTCAGCAG".to_vec(), &b"CAG".to_vec(), &params);
    assert_eq!(ints, vec![b"TTT".to_vec()]);
}

#[test]
fn trailing_interruption_is_emitted() {
    // A path that ends mid-interruption must still flush the open run.
    let params = default_params();
    let ints = detect_interruptions(&b"ACACACACTT".to_vec(), &b"AC".to_vec(), &params);
    assert_eq!(ints.len(), 1);
    assert_eq!(ints[0], b"TT".to_vec());
}

#[test]
fn detection_is_deterministic() {
    let params = default_params();
    let observed = b"CAGCAGTTTCAGAACAG".to_vec();
    let motif = b"CAG".to_vec();
    let first = detect_interruptions(&observed, &motif, &params);
    for _ in 0..5 {
        let again = detect_interruptions(&observed, &motif, &params);
        assert_eq!(first, again);
    }
}

#[test]
fn catalog_loads_motif_and_region() {
    let doc = br#"[{"LocusId":"L1","ReferenceRegion":"chr1:100-200","LocusStructure":"(CAG)*"}]"#
        .to_vec();
    let catalog = load_str_catalog(&doc, None).unwrap();
    let entry = catalog.lookup(&b"L1".to_vec()).unwrap();
    assert_eq!(entry.motif, b"CAG".to_vec());
    assert_eq!(entry.reference_region, b"chr1:100-200".to_vec());
}

#[test]
fn catalog_missing_field_is_fatal() {
    let doc = br#"[{"LocusId":"L1","ReferenceRegion":"chr1:100-200"}]"#.to_vec();
    let r = load_str_catalog(&doc, None);
    assert!(matches!(r, Err(StrifError::MalformedCatalogEntry)));
}

#[test]
fn catalog_structure_too_short_is_fatal() {
    let doc = br#"[{"LocusId":"L1","ReferenceRegion":"chr1:1-2","LocusStructure":"()"}]"#.to_vec();
    let r = load_str_catalog(&doc, None);
    assert!(matches!(r, Err(StrifError::MalformedCatalogEntry)));
}

#[test]
fn catalog_not_an_array_is_fatal() {
    let doc = br#"{"LocusId":"L1"}"#.to_vec();
    let r = load_str_catalog(&doc, None);
    assert!(matches!(r, Err(StrifError::MalformedCatalog)));
}

#[test]
fn catalog_filter_drops_non_matching_loci() {
    let doc = br#"[
        {"LocusId":"L1","ReferenceRegion":"chr1:1-2","LocusStructure":"(CAG)*"},
        {"LocusId":"X2","ReferenceRegion":"chr2:3-4","LocusStructure":"(AT)*"}
    ]"#
    .to_vec();
    let filter = LocusFilter::new("^L").unwrap();
    let catalog = load_str_catalog(&doc, Some(&filter)).unwrap();
    assert!(catalog.lookup(&b"L1".to_vec()).is_some());
    assert!(catalog.lookup(&b"X2".to_vec()).is_none());
}

#[test]
fn filter_skips_missing_fields_of_dropped_records() {
    // A record dropped by the filter may lack other fields without failing
    // the load.
    let doc = br#"[
        {"LocusId":"X2"},
        {"LocusId":"L1","ReferenceRegion":"chr1:1-2","LocusStructure":"(CAG)*"}
    ]"#
    .to_vec();
    let filter = LocusFilter::new("^L").unwrap();
    let catalog = load_str_catalog(&doc, Some(&filter)).unwrap();
    assert!(catalog.lookup(&b"L1".to_vec()).is_some());
}

#[test]
fn invalid_filter_pattern_is_rejected() {
    assert!(matches!(LocusFilter::new("("), Err(StrifError::InvalidFilter)));
}

#[test]
fn profile_counts_reads_and_interruptions() {
    let doc = br#"[{"LocusId":"L1","ReferenceRegion":"chr1:1-2","LocusStructure":"(CAG)*"}]"#
        .to_vec();
    let catalog = load_str_catalog(&doc, None).unwrap();
    let rows = vec![ReadRow { locus_id: b"L1".to_vec(), seq: b"CAGCAGTTTCAGCAG".to_vec() }];
    let p = profile(&rows, &catalog, &default_params()).unwrap();
    assert_eq!(p.get_read_count(&b"L1".to_vec()), 1);
    assert_eq!(p.interruption_counts.len(), 1);
    assert_eq!(p.interruption_counts[0].interruption, b"TTT".to_vec());
    assert_eq!(p.interruption_counts[0].repeat_len, 15);
    assert_eq!(p.interruption_counts[0].count, 1);
}

#[test]
fn profile_skips_unknown_loci() {
    let doc = br#"[{"LocusId":"L1","ReferenceRegion":"chr1:1-2","LocusStructure":"(CAG)*"}]"#
        .to_vec();
    let catalog = load_str_catalog(&doc, None).unwrap();
    let rows = vec![
        ReadRow { locus_id: b"NOPE".to_vec(), seq: b"CAGCAG".to_vec() },
        ReadRow { locus_id: b"L1".to_vec(), seq: b"CAGCAGCAG".to_vec() },
    ];
    let p = profile(&rows, &catalog, &default_params()).unwrap();
    assert_eq!(p.get_read_count(&b"L1".to_vec()), 1);
    assert_eq!(p.get_read_count(&b"NOPE".to_vec()), 0);
    assert!(p.interruption_counts.is_empty());
}

#[test]
fn profile_pure_read_counts_once_without_interruptions() {
    let doc = br#"[{"LocusId":"L1","ReferenceRegion":"chr1:1-2","LocusStructure":"(AC)*"}]"#
        .to_vec();
    let catalog = load_str_catalog(&doc, None).unwrap();
    let rows = vec![ReadRow { locus_id: b"L1".to_vec(), seq: b"ACACACACAC".to_vec() }];
    let p = profile(&rows, &catalog, &default_params()).unwrap();
    assert_eq!(p.get_read_count(&b"L1".to_vec()), 1);
    assert!(p.interruption_counts.is_empty());
}

#[test]
fn profile_empty_motif_is_fatal() {
    let doc =
        br#"[{"LocusId":"L1","ReferenceRegion":"chr1:1-2","LocusStructure":"()*"}]"#.to_vec();
    let catalog = load_str_catalog(&doc, None).unwrap();
    let rows = vec![ReadRow { locus_id: b"L1".to_vec(), seq: b"ACAC".to_vec() }];
    assert!(matches!(
        profile(&rows, &catalog, &default_params()),
        Err(StrifError::EmptyMotif)
    ));
}

#[test]
fn profile_table_includes_zero_count_loci() {
    let doc = br#"[
        {"LocusId":"L1","ReferenceRegion":"chr1:1-2","LocusStructure":"(CAG)*"},
        {"LocusId":"L2","ReferenceRegion":"chr2:3-4","LocusStructure":"(AT)*"}
    ]"#
    .to_vec();
    let catalog = load_str_catalog(&doc, None).unwrap();
    let rows = vec![ReadRow { locus_id: b"L1".to_vec(), seq: b"CAGCAGTTTCAGCAG".to_vec() }];
    let p = profile(&rows, &catalog, &default_params()).unwrap();
    let mut out: Vec<u8> = Vec::new();
    p.write_to(&mut out, &catalog);
    let text = String::from_utf8(out).unwrap();
    let lines: Vec<&str> = text.lines().collect();
    assert_eq!(
        lines[0],
        "locus_id\treference_region\tmotif\tread_count\tinterruption_counts"
    );
    assert_eq!(lines[1], "L1\tchr1:1-2\tCAG\t1\tTTT:15:1");
    assert_eq!(lines[2], "L2\tchr2:3-4\tAT\t0\t");
}

#[test]
fn increments_accumulate() {
    let mut p = Profile::new();
    let id = b"L1".to_vec();
    p.increment_read_count(&id);
    p.increment_read_count(&id);
    p.increment_interruption(&id, &b"TT".to_vec(), 30);
    p.increment_interruption(&id, &b"TT".to_vec(), 30);
    p.increment_interruption(&id, &b"TT".to_vec(), 40);
    assert_eq!(p.get_read_count(&id), 2);
    assert_eq!(p.interruption_counts.len(), 2);
    assert_eq!(p.interruption_counts[0].count, 2);
    assert_eq!(p.interruption_counts[1].count, 1);
}

#[test]
fn catalog_later_record_wins_for_duplicate_locus() {
    let doc = br#"[
        {"LocusId":"L1","ReferenceRegion":"regionA","LocusStructure":"(CAG)*"},
        {"LocusId":"L1","ReferenceRegion":"regionB","LocusStructure":"(AT)*"}
    ]"#
    .to_vec();
    let catalog = load_str_catalog(&doc, None).unwrap();
    let entry = catalog.lookup(&b"L1".to_vec()).unwrap();
    assert_eq!(entry.reference_region, b"regionB".to_vec());
    assert_eq!(entry.motif, b"AT".to_vec());
}
