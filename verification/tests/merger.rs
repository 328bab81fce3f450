use strif::catalog::{load_str_catalog, LocusFilter};
use strif::codec::parse_interruption_cell;
use strif::merge::{
    merge, norm_interruption_count, parse_depth, parse_depth_table, parse_manifest,
    parse_profile_table, write_merged_table, SampleTable,
};
use strif::profile::{profile, ReadRow};
use strif::utils::{get_default_out_path, AlignmentScoreParams};
use strif::StrifError;

fn default_params() -> AlignmentScoreParams {
    AlignmentScoreParams {
        match_score: 1,
        mismatch_penalty: 8,
        gap_open_penalty: 10,
        gap_extend_penalty: 1,
    }
}

#[test]
fn triple_cell_round_trip() {
    // Encoding (s, n, c) as s:n:c and re-parsing the comma-joined cell
    // recovers the exact triples.
    let cell = b"TTT:15:1,AG:150:42".to_vec();
    let triples = parse_interruption_cell(&cell).unwrap();
    assert_eq!(triples.len(), 2);
    assert_eq!(triples[0].interruption, b"TTT".to_vec());
    assert_eq!(triples[0].repeat_len, 15);
    assert_eq!(triples[0].count, 1);
    assert_eq!(triples[1].interruption, b"AG".to_vec());
    assert_eq!(triples[1].repeat_len, 150);
    assert_eq!(triples[1].count, 42);
}

#[test]
fn malformed_cell_entry_is_rejected() {
    assert!(matches!(
        parse_interruption_cell(&b"TTT:15".to_vec()),
        Err(StrifError::MalformedCell)
    ));
    assert!(matches!(
        parse_interruption_cell(&b"TTT:xx:1".to_vec()),
        Err(StrifError::MalformedNumber)
    ));
}

#[test]
fn normalization_arithmetic() {
    // count=1, read_length=150, repeat_len=50, depth=10: 1 / ((150-50+1)*10).
    let (num, den) = norm_interruption_count(1, 150, 50, 10, 1);
    assert_eq!(num, 1);
    assert_eq!(den, 1010);
    let value = num as f64 / den as f64;
    assert!((value - 0.000990099).abs() < 1e-9);
}

#[test]
fn depth_parses_decimals() {
    assert_eq!(parse_depth(&b"20".to_vec()).unwrap(), (20, 1));
    assert_eq!(parse_depth(&b"10.5".to_vec()).unwrap(), (105, 10));
    assert!(matches!(
        parse_depth(&b"ten".to_vec()),
        Err(StrifError::MalformedDepth)
    ));
    assert!(matches!(
        parse_depth(&b"1.2.3".to_vec()),
        Err(StrifError::MalformedDepth)
    ));
}

#[test]
fn manifest_and_depth_tables_parse() {
    let manifest =
        parse_manifest(&b"sampleA\tcase\t/tmp/a.tsv\nsampleB\tcontrol\t/tmp/b.tsv\n".to_vec())
            .unwrap();
    assert_eq!(manifest.len(), 2);
    assert_eq!(manifest[0].sample_id, b"sampleA".to_vec());
    assert_eq!(manifest[1].profile_path, b"/tmp/b.tsv".to_vec());
    let depths = parse_depth_table(&b"sampleA\t20\nsampleB\t10.5\n".to_vec()).unwrap();
    assert_eq!(depths.len(), 2);
    assert_eq!(depths[1].num, 105);
    assert_eq!(depths[1].den, 10);
}

#[test]
fn profile_table_round_trips() {
    let table = b"locus_id\treference_region\tmotif\tread_count\tinterruption_counts\nL1\tchr1:1-2\tCAG\t3\tTTT:15:1\n".to_vec();
    let rows = parse_profile_table(&table).unwrap();
    assert_eq!(rows.len(), 1);
    assert_eq!(rows[0].locus_id, b"L1".to_vec());
    assert_eq!(rows[0].read_count_text, b"3".to_vec());
    assert_eq!(rows[0].interruption_cell, b"TTT:15:1".to_vec());
}

#[test]
fn profile_table_bad_row_is_rejected() {
    let table = b"header\nL1\tchr1:1-2\tCAG\t3\n".to_vec();
    assert!(matches!(
        parse_profile_table(&table),
        Err(StrifError::MalformedRow)
    ));
}

fn one_sample(rows_text: &[u8]) -> Vec<SampleTable> {
    let rows = parse_profile_table(&rows_text.to_vec()).unwrap();
    vec![SampleTable { sample_id: b"sampleA".to_vec(), rows }]
}

#[test]
fn end_to_end_profile_and_merge() {
    // Catalog defines L1 with motif CAG; one read detects TTT at length 15;
    // merging with read_length 150 and depth 20 normalizes to 1/2720.
    let doc = br#"[{"LocusId":"L1","ReferenceRegion":"chr1:1-2","LocusStructure":"(CAG)*"}]"#
        .to_vec();
    let catalog = load_str_catalog(&doc, None).unwrap();
    let reads = vec![ReadRow { locus_id: b"L1".to_vec(), seq: b"CAGCAGTTTCAGCAG".to_vec() }];
    let p = profile(&reads, &catalog, &default_params()).unwrap();
    let mut table: Vec<u8> = Vec::new();
    p.write_to(&mut table, &catalog);
    let text = String::from_utf8(table.clone()).unwrap();
    assert!(text.contains("L1\tchr1:1-2\tCAG\t1\tTTT:15:1"));

    let samples = one_sample(&table);
    let depths = parse_depth_table(&b"sampleA\t20\n".to_vec()).unwrap();
    let merged = merge(&samples, &depths, None, 1, 150).unwrap();
    assert_eq!(merged.read_counts.len(), 1);
    assert_eq!(merged.read_counts[0].locus_id, b"L1".to_vec());
    assert_eq!(merged.read_counts[0].sample_id, b"sampleA".to_vec());
    assert_eq!(merged.read_counts[0].count, 1);
    assert_eq!(merged.interruption_counts.len(), 1);
    let e = &merged.interruption_counts[0];
    assert_eq!(e.interruption, b"TTT".to_vec());
    assert_eq!(e.contributions.len(), 1);
    let c = &e.contributions[0];
    assert_eq!(c.norm_num, 1);
    assert_eq!(c.norm_den, (150 - 15 + 1) * 20);
    let value = c.norm_num as f64 / c.norm_den as f64;
    assert!((value - 1.0 / 2720.0).abs() < 1e-12);
    assert_eq!(merged.read_counts_cell(&b"L1".to_vec()), b"sampleA:1".to_vec());
}

#[test]
fn merge_filter_drops_locus_rows() {
    let table = b"h\nL1\tchr1:1-2\tCAG\t5\t\nX2\tchr2:3-4\tAT\t7\t\n".to_vec();
    let samples = one_sample(&table);
    let depths = parse_depth_table(&b"sampleA\t20\n".to_vec()).unwrap();
    let filter = LocusFilter::new("^L").unwrap();
    let merged = merge(&samples, &depths, Some(&filter), 1, 150).unwrap();
    assert_eq!(merged.read_counts.len(), 1);
    assert_eq!(merged.read_counts[0].locus_id, b"L1".to_vec());
    assert_eq!(merged.motifs.len(), 1);
    assert_eq!(merged.motifs[0].locus_id, b"L1".to_vec());
}

#[test]
fn merge_threshold_drops_rows_entirely() {
    let table = b"h\nL1\tchr1:1-2\tCAG\t2\tTTT:15:1\n".to_vec();
    let samples = one_sample(&table);
    let depths = parse_depth_table(&b"sampleA\t20\n".to_vec()).unwrap();
    let merged = merge(&samples, &depths, None, 3, 150).unwrap();
    assert!(merged.read_counts.is_empty());
    assert!(merged.interruption_counts.is_empty());
    assert!(merged.motifs.is_empty());
    assert!(merged.reference_regions.is_empty());
}

#[test]
fn merge_sums_buckets_per_interruption() {
    // Two repeat-length buckets of the same interruption collapse under
    // one key, keeping both exact contributions.
    let table = b"h\nL1\tchr1:1-2\tCAG\t5\tTTT:15:1,TTT:20:2\n".to_vec();
    let samples = one_sample(&table);
    let depths = parse_depth_table(&b"sampleA\t10\n".to_vec()).unwrap();
    let merged = merge(&samples, &depths, None, 1, 150).unwrap();
    assert_eq!(merged.interruption_counts.len(), 1);
    let e = &merged.interruption_counts[0];
    assert_eq!(e.contributions.len(), 2);
    assert_eq!(e.contributions[0].norm_den, (150 - 15 + 1) * 10);
    assert_eq!(e.contributions[1].norm_num, 2);
    assert_eq!(e.contributions[1].norm_den, (150 - 20 + 1) * 10);
}

#[test]
fn merge_missing_depth_is_fatal() {
    let table = b"h\nL1\tchr1:1-2\tCAG\t5\tTTT:15:1\n".to_vec();
    let samples = one_sample(&table);
    let depths = parse_depth_table(&b"other\t20\n".to_vec()).unwrap();
    assert!(matches!(
        merge(&samples, &depths, None, 1, 150),
        Err(StrifError::MissingDepth)
    ));
}

#[test]
fn merge_bad_read_count_is_fatal() {
    let table = b"h\nL1\tchr1:1-2\tCAG\tmany\t\n".to_vec();
    let samples = one_sample(&table);
    let depths = parse_depth_table(&b"sampleA\t20\n".to_vec()).unwrap();
    assert!(matches!(
        merge(&samples, &depths, None, 1, 150),
        Err(StrifError::MalformedNumber)
    ));
}

#[test]
fn merge_warns_on_out_of_range_repeat_len() {
    // repeat_len outside (0, read_length] is flagged but still recorded.
    let table = b"h\nL1\tchr1:1-2\tCAG\t5\tTTT:200:1\n".to_vec();
    let samples = one_sample(&table);
    let depths = parse_depth_table(&b"sampleA\t20\n".to_vec()).unwrap();
    let merged = merge(&samples, &depths, None, 1, 150).unwrap();
    assert_eq!(merged.warnings.len(), 2);
    assert!(!merged.warnings[0].invalid_norm);
    assert!(merged.warnings[1].invalid_norm);
    assert_eq!(merged.interruption_counts.len(), 1);
    let c = &merged.interruption_counts[0].contributions[0];
    assert!(c.norm_den < 0);
}

#[test]
fn merge_keeps_first_motif_and_region() {
    let t1 = parse_profile_table(&b"h\nL1\tregionA\tCAG\t5\t\n".to_vec()).unwrap();
    let t2 = parse_profile_table(&b"h\nL1\tregionB\tCAX\t6\t\n".to_vec()).unwrap();
    let samples = vec![
        SampleTable { sample_id: b"s1".to_vec(), rows: t1 },
        SampleTable { sample_id: b"s2".to_vec(), rows: t2 },
    ];
    let depths = parse_depth_table(&b"s1\t20\ns2\t20\n".to_vec()).unwrap();
    let merged = merge(&samples, &depths, None, 1, 150).unwrap();
    assert_eq!(merged.read_counts.len(), 2);
    assert_eq!(merged.motifs.len(), 1);
    assert_eq!(merged.motifs[0].value, b"CAG".to_vec());
    assert_eq!(merged.reference_regions[0].value, b"regionA".to_vec());
    assert_eq!(
        merged.read_counts_cell(&b"L1".to_vec()),
        b"s1:5,s2:6".to_vec()
    );
}

#[test]
fn default_out_path_truncates_at_first_period() {
    let r = get_default_out_path(
        &b"/data/run1/sample.bam.tsv".to_vec(),
        &b"repeat_seqs".to_vec(),
        &b"tsv".to_vec(),
    );
    assert_eq!(r, b"/data/run1/sample.repeat_seqs.tsv".to_vec());
    let r2 =
        get_default_out_path(&b"plain".to_vec(), &b"merged_profile".to_vec(), &b"tsv".to_vec());
    assert_eq!(r2, b"plain.merged_profile.tsv".to_vec());
}

#[test]
fn default_out_path_ignores_trailing_separators() {
    let r = get_default_out_path(
        &b"/data/run1/".to_vec(),
        &b"merged_profile".to_vec(),
        &b"tsv".to_vec(),
    );
    assert_eq!(r, b"/data/run1.merged_profile.tsv".to_vec());
}

#[test]
fn merge_emits_no_warnings_for_valid_triples() {
    let table = b"h\nL1\tchr1:1-2\tCAG\t5\tTTT:15:1\n".to_vec();
    let samples = one_sample(&table);
    let depths = parse_depth_table(&b"sampleA\t20\n".to_vec()).unwrap();
    let merged = merge(&samples, &depths, None, 1, 150).unwrap();
    assert!(merged.warnings.is_empty());
}

#[test]
fn merged_table_renders_one_row_per_contributing_locus() {
    let table = b"h\nL1\tregionA\tCAG\t5\tTTT:15:1\nL2\tregionB\tAT\t4\t\n".to_vec();
    let samples = one_sample(&table);
    let depths = parse_depth_table(&b"sampleA\t20\n".to_vec()).unwrap();
    let merged = merge(&samples, &depths, None, 1, 150).unwrap();
    let totals: Vec<Vec<u8>> = merged
        .interruption_counts
        .iter()
        .map(|e| {
            let total: f64 = e
                .contributions
                .iter()
                .map(|c| c.norm_num as f64 / c.norm_den as f64)
                .sum();
            format!("{}", total).into_bytes()
        })
        .collect();
    let mut out: Vec<u8> = Vec::new();
    write_merged_table(&merged, &totals, &mut out);
    let text = String::from_utf8(out).unwrap();
    let lines: Vec<&str> = text.lines().collect();
    assert_eq!(
        lines[0],
        "locus_id\treference_region\tmotif\tread_counts\tinterruption_counts"
    );
    assert_eq!(
        lines[1],
        format!("L1\tregionA\tCAG\tsampleA:5\tsampleA:TTT:{}", 1.0f64 / 2720.0)
    );
    assert_eq!(lines[2], "L2\tregionB\tAT\tsampleA:4\t");
    assert_eq!(lines.len(), 3);
}

#[test]
fn repeated_attribute_claims_are_no_ops() {
    let mut m = strif::merge::MergedProfile::new();
    m.add_motif(&b"L1".to_vec(), &b"CAG".to_vec());
    m.add_motif(&b"L1".to_vec(), &b"XXX".to_vec());
    m.add_reference_region(&b"L1".to_vec(), &b"regionA".to_vec());
    m.add_reference_region(&b"L1".to_vec(), &b"regionB".to_vec());
    assert_eq!(m.motifs.len(), 1);
    assert_eq!(m.motifs[0].value, b"CAG".to_vec());
    assert_eq!(m.reference_regions.len(), 1);
    assert_eq!(m.reference_regions[0].value, b"regionA".to_vec());
}

#[test]
fn depth_accepts_bare_fraction_forms() {
    assert_eq!(parse_depth(&b".5".to_vec()).unwrap(), (5, 10));
    assert_eq!(parse_depth(&b"5.".to_vec()).unwrap(), (5, 1));
}
