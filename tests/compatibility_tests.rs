use barcode_whitelist::compatibility::{
    decide_translation, incompatible_message, merge_by_library_type, plan_compatibility,
    BarcodeSampler, ChemistryDef, ChemistryName, CompatibilityError, CompatibilityPlan,
    LibraryType, MAX_READS_BARCODE_COMPATIBILITY, MISSING_GEX,
};
use barcode_whitelist::histogram::SimpleHistogram;
use barcode_whitelist::sequence::BcSegSeq;
use barcode_whitelist::similarity::{robust_cosine_similarity, robust_threshold_of, SimilarityTerms};
use barcode_whitelist::source::{BarcodeConstruct, WhitelistSpec};
use barcode_whitelist::whitelist::Whitelist;

fn seq(s: &str) -> BcSegSeq {
    BcSegSeq::from_bytes(s.as_bytes()).unwrap()
}

fn chem(name: ChemistryName) -> ChemistryDef {
    ChemistryDef {
        name,
        barcode_whitelist: BarcodeConstruct::GelBeadOnly(WhitelistSpec::TxtFile {
            name: "3M-february-2018".to_string(),
        }),
    }
}

fn inputs(chemistry: ChemistryName, library_types: &[LibraryType]) -> Vec<(LibraryType, ChemistryDef)> {
    library_types.iter().map(|t| (*t, chem(chemistry))).collect()
}

fn decided(plan: CompatibilityPlan) -> Vec<LibraryType> {
    match plan {
        CompatibilityPlan::Decided(v) => v,
        CompatibilityPlan::Compare(_) => panic!("expected a decision"),
    }
}

fn hist(counts: &[(&str, u64)]) -> SimpleHistogram {
    let mut h = SimpleHistogram::new();
    for (s, c) in counts {
        h.observe_by(&seq(s), *c);
    }
    h
}

fn similarity(t: &SimilarityTerms) -> f64 {
    if t.norm1_sq == 0 || t.norm2_sq == 0 {
        return 0.0;
    }
    t.dot as f64 / ((t.norm1_sq as f64).sqrt() * (t.norm2_sq as f64).sqrt())
}

#[test]
fn test_single_lib_type() {
    let args = inputs(ChemistryName::ThreePrimeV3, &[LibraryType::Gex]);
    assert_eq!(decided(plan_compatibility(&args).unwrap()), vec![]);
}

#[test]
fn test_ab_only_3pv3() {
    // By default the antibody library of a 3' v3 run is translated.
    let args = inputs(ChemistryName::ThreePrimeV3, &[LibraryType::Antibody]);
    assert_eq!(
        decided(plan_compatibility(&args).unwrap()),
        vec![LibraryType::Antibody]
    );
    let lt = inputs(ChemistryName::ThreePrimeV3LT, &[LibraryType::Antibody]);
    assert_eq!(
        decided(plan_compatibility(&lt).unwrap()),
        vec![LibraryType::Antibody]
    );
}

#[test]
fn test_5p_ab_only() {
    let args = inputs(ChemistryName::FivePrimeR2, &[LibraryType::Antibody]);
    assert_eq!(decided(plan_compatibility(&args).unwrap()), vec![]);
}

#[test]
fn test_missing_gex() {
    let args = inputs(
        ChemistryName::ThreePrimeV3,
        &[LibraryType::Antibody, LibraryType::Crispr],
    );
    let err = plan_compatibility(&args).unwrap_err();
    assert_eq!(err, CompatibilityError::MissingGexLibrary);
    assert_eq!(MISSING_GEX.to_string(), err.message());
}

#[test]
fn test_similarity() {
    let c1 = hist(&[("AA", 10), ("AC", 20)]);
    let c2 = hist(&[("AA", 5), ("AG", 10)]);
    let t = robust_cosine_similarity(&c1, &c2);
    assert!((similarity(&t) - 0.5f64).abs() < 10f64 * f64::EPSILON);
    // Exactly one half: 4 * dot^2 == norm1^2 * norm2^2.
    assert_eq!(4 * (t.dot as u128) * (t.dot as u128), t.norm1_sq as u128 * t.norm2_sq as u128);

    let c3 = hist(&[("AC", 5), ("AG", 10)]);
    let t = robust_cosine_similarity(&c1, &c3);
    assert!((similarity(&t) - 0.5f64).abs() < 10f64 * f64::EPSILON);
}

#[test]
fn similarity_terms_of_the_example() {
    let c1 = hist(&[("AA", 10), ("AC", 20)]);
    let c2 = hist(&[("AA", 5), ("AG", 10)]);
    assert_eq!(robust_threshold_of(&c1), Some(10));
    assert_eq!(robust_threshold_of(&c2), Some(5));
    assert_eq!(
        robust_cosine_similarity(&c1, &c2),
        SimilarityTerms {
            dot: 50,
            norm1_sq: 200,
            norm2_sq: 50
        }
    );
}

#[test]
fn similarity_is_symmetric_and_bounded() {
    let c1 = hist(&[("AA", 10), ("AC", 20), ("GG", 1), ("TT", 300)]);
    let c2 = hist(&[("TT", 7), ("AA", 5), ("AG", 10)]);
    let a = similarity(&robust_cosine_similarity(&c1, &c2));
    let b = similarity(&robust_cosine_similarity(&c2, &c1));
    assert_eq!(a, b);
    assert!((0.0..=1.0).contains(&a));
    let same = similarity(&robust_cosine_similarity(&c1, &c1));
    assert!((same - 1.0).abs() < 1e-12);
}

#[test]
fn similarity_with_an_empty_histogram_is_zero() {
    let c1 = hist(&[("AA", 10)]);
    let empty = SimpleHistogram::new();
    let t = robust_cosine_similarity(&c1, &empty);
    assert_eq!(t, SimilarityTerms { dot: 0, norm1_sq: 0, norm2_sq: 0 });
    assert_eq!(similarity(&robust_cosine_similarity(&empty, &c1)), 0.0);
    assert!(!t.greater_than(&t));
    assert!(!t.at_least(1, 10));
    assert!(t.at_least(0, 10));
}

#[test]
fn outlier_counts_are_capped() {
    // One barcode with most of the reads is capped to the robust threshold.
    let h = hist(&[("AA", 1000), ("AC", 10), ("AG", 10), ("AT", 10)]);
    assert_eq!(robust_threshold_of(&h), Some(1000));
    let h = hist(&[("AA", 50), ("AC", 40), ("AG", 5), ("AT", 5)]);
    // 50 + 40 = 90 < 92.5; 50 + 40 + 5 = 95 >= 92.5.
    assert_eq!(robust_threshold_of(&h), Some(5));
    assert_eq!(robust_threshold_of(&SimpleHistogram::new()), None);
}

#[test]
fn multi_type_run_plans_a_comparison() {
    let args = inputs(
        ChemistryName::ThreePrimeV3,
        &[LibraryType::Antibody, LibraryType::Gex],
    );
    match plan_compatibility(&args).unwrap() {
        CompatibilityPlan::Compare(spec) => assert_eq!(
            spec,
            WhitelistSpec::TxtFile {
                name: "3M-february-2018".to_string()
            }
        ),
        CompatibilityPlan::Decided(_) => panic!("expected a comparison"),
    }
    let mut mixed = args.clone();
    mixed[0].1.barcode_whitelist = BarcodeConstruct::GelBeadOnly(WhitelistSpec::TxtFile {
        name: "737K-august-2016".to_string(),
    });
    assert_eq!(
        plan_compatibility(&mixed).unwrap_err(),
        CompatibilityError::AmbiguousGelBeadWhitelist
    );
    let mut segmented = args;
    segmented[1].1.barcode_whitelist = BarcodeConstruct::Segmented(vec![]);
    assert_eq!(decided(plan_compatibility(&segmented).unwrap()), vec![]);
}

fn translation() -> Whitelist {
    Whitelist::translation_of(&vec![
        (seq("TTTA"), seq("AAAA")),
        (seq("TTTC"), seq("CCCC")),
        (seq("TTTG"), seq("GGGG")),
    ])
}

#[test]
fn translated_library_is_detected() {
    let gex = hist(&[("AAAA", 10), ("CCCC", 10), ("GGGG", 10)]);
    let ab = hist(&[("TTTA", 3), ("TTTC", 3), ("TTTG", 3)]);
    let libs = vec![(LibraryType::Antibody, ab)];
    let w = translation();
    let out = decide_translation(&gex, &libs, Some(&w), true, 1, 10).unwrap();
    assert_eq!(out, vec![LibraryType::Antibody]);
    // Without a translation whitelist the libraries do not overlap at all.
    assert_eq!(
        decide_translation(&gex, &libs, None, true, 1, 10).unwrap_err(),
        CompatibilityError::InsufficientBarcodeOverlap(LibraryType::Antibody)
    );
    // The check can be switched off.
    assert_eq!(decide_translation(&gex, &libs, None, false, 1, 10).unwrap(), vec![]);
    // Repeated calls give the same outcome.
    assert_eq!(
        decide_translation(&gex, &libs, Some(&w), true, 1, 10).unwrap(),
        decide_translation(&gex, &libs, Some(&w), true, 1, 10).unwrap()
    );
}

#[test]
fn untranslated_library_passes() {
    let gex = hist(&[("AAAA", 10), ("CCCC", 10), ("GGGG", 10)]);
    let crispr = hist(&[("AAAA", 2), ("CCCC", 2), ("GGGG", 2)]);
    let libs = vec![(LibraryType::Crispr, crispr)];
    let w = translation();
    assert_eq!(decide_translation(&gex, &libs, Some(&w), true, 1, 10).unwrap(), vec![]);
}

#[test]
fn incompatible_message_text() {
    let text = incompatible_message(LibraryType::Gex, LibraryType::Antibody);
    assert!(text.starts_with(
        "Barcodes from the [Gene Expression] library and the [Antibody Capture] library have insufficient overlap."
    ));
    assert!(text.ends_with("please contact support@10xgenomics.com."));
    assert_eq!(
        CompatibilityError::InsufficientBarcodeOverlap(LibraryType::Antibody).message(),
        text
    );
}

#[test]
fn sampler_counts_matches_and_stops_at_the_cap() {
    let wl = Whitelist::plain(&vec![seq("ACGT"), seq("TTTT")]);
    let mut sampler = BarcodeSampler::new();
    assert!(sampler.observe(Some(b"ACGT"), &wl));
    assert!(sampler.observe(Some(b"ANGT"), &wl));
    assert!(sampler.observe(Some(b"GGGG"), &wl));
    assert!(sampler.observe(None, &wl));
    assert!(sampler.observe(Some(b"XXXX"), &wl));
    assert_eq!(sampler.num_reads, 4);
    assert_eq!(sampler.histogram.get(&seq("ACGT")), 2);
    assert_eq!(sampler.histogram.get(&seq("GGGG")), 0);
    assert_eq!(sampler.histogram.total(), 2);
    while sampler.num_reads < MAX_READS_BARCODE_COMPATIBILITY - 1 {
        assert!(sampler.observe(Some(b"TTTT"), &wl));
    }
    assert!(!sampler.observe(Some(b"TTTT"), &wl));
    assert_eq!(sampler.num_reads, MAX_READS_BARCODE_COMPATIBILITY);
}

#[test]
fn histograms_merge_by_library_type() {
    let samples = vec![
        (LibraryType::Gex, hist(&[("AAAA", 1)])),
        (LibraryType::Antibody, hist(&[("CCCC", 2)])),
        (LibraryType::Gex, hist(&[("AAAA", 3), ("GGGG", 4)])),
    ];
    let merged = merge_by_library_type(&samples);
    assert_eq!(merged.len(), 2);
    assert_eq!(merged[0].0, LibraryType::Gex);
    assert_eq!(merged[0].1.get(&seq("AAAA")), 4);
    assert_eq!(merged[0].1.get(&seq("GGGG")), 4);
    assert_eq!(merged[0].1.total(), 8);
    assert_eq!(merged[1].0, LibraryType::Antibody);
    assert_eq!(merged[1].1.get(&seq("CCCC")), 2);
}
