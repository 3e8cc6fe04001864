use barcode_whitelist::entry::{parse_entry, Entry};
use barcode_whitelist::segment::{BarcodeSegment, BarcodeSegmentContent, BarcodeSegmentState};
use barcode_whitelist::sequence::BcSegSeq;
use barcode_whitelist::source::{
    translation_flags, BarcodeConstruct, GelBeadAndProbeConstruct, OligoPart, WhitelistError,
    WhitelistSource, WhitelistSpec, WhitelistSpecFlat,
};
use barcode_whitelist::whitelist::{Whitelist, WhitelistKind};

fn seq(s: &str) -> BcSegSeq {
    BcSegSeq::from_bytes(s.as_bytes()).unwrap()
}

fn plain(seqs: &[&str]) -> Whitelist {
    let v: Vec<BcSegSeq> = seqs.iter().map(|s| seq(s)).collect();
    Whitelist::plain(&v)
}

fn entries(lines: &[&str]) -> Vec<Entry> {
    lines.iter().map(|l| parse_entry(l.as_bytes()).unwrap()).collect()
}

#[test]
fn test_match_to_whitelist() {
    let wl = plain(&["ACGT"]);
    assert_eq!(wl.match_to_whitelist(seq("ACGT")), Some(seq("ACGT")));
    assert_eq!(wl.match_to_whitelist(seq("AAAT")), None);
    assert_eq!(wl.match_to_whitelist(seq("ANGT")), Some(seq("ACGT")));
}

#[test]
fn test_whitelist_spec_serde() {
    let specs = vec![
        WhitelistSpec::TxtFile {
            name: "foo".to_string(),
        },
        WhitelistSpec::DynamicTranslation {
            translation_whitelist_path: "/test".to_string(),
        },
        WhitelistSpec::SlideFile {
            slide: "test_slide".to_string(),
            part: OligoPart::Bc1,
        },
    ];
    let text = serde_json::to_string(&serde_json::Value::Array(
        specs
            .iter()
            .map(|s| flat_to_json(WhitelistSpecFlat::from(s.clone())))
            .collect(),
    ))
    .unwrap();
    let parsed: serde_json::Value = serde_json::from_str(&text).unwrap();
    let de: Vec<WhitelistSpec> = parsed
        .as_array()
        .unwrap()
        .iter()
        .map(|v| WhitelistSpec::try_from(json_to_flat(v)).unwrap())
        .collect();
    assert_eq!(de, specs);
}

fn flat_to_json(flat: WhitelistSpecFlat) -> serde_json::Value {
    let mut m = serde_json::Map::new();
    let text = |v: Option<String>| v.map_or(serde_json::Value::Null, serde_json::Value::String);
    m.insert("name".to_string(), text(flat.name));
    m.insert(
        "translation_whitelist_path".to_string(),
        text(flat.translation_whitelist_path),
    );
    m.insert("slide".to_string(), text(flat.slide));
    let part = flat.part.map(|p| match p {
        OligoPart::Bc1 => "bc1".to_string(),
        OligoPart::Bc2 => "bc2".to_string(),
    });
    m.insert("part".to_string(), text(part));
    serde_json::Value::Object(m)
}

fn json_to_flat(v: &serde_json::Value) -> WhitelistSpecFlat {
    let text = |k: &str| v.get(k).and_then(|x| x.as_str()).map(str::to_string);
    WhitelistSpecFlat {
        name: text("name"),
        translation_whitelist_path: text("translation_whitelist_path"),
        slide: text("slide"),
        part: text("part").map(|p| match p.as_str() {
            "bc1" => OligoPart::Bc1,
            _ => OligoPart::Bc2,
        }),
    }
}

#[test]
fn flat_record_with_two_variants_is_refused() {
    let flat = WhitelistSpecFlat {
        name: Some("foo".to_string()),
        translation_whitelist_path: Some("/test".to_string()),
        slide: None,
        part: None,
    };
    assert_eq!(
        WhitelistSpec::from_flat(flat).unwrap_err(),
        WhitelistError::AmbiguousWhitelistSpec
    );
    let flat = WhitelistSpecFlat {
        name: Some("foo".to_string()),
        translation_whitelist_path: None,
        slide: Some("slide".to_string()),
        part: Some(OligoPart::Bc2),
    };
    assert!(WhitelistSpec::from_flat(flat).is_err());
    let empty = WhitelistSpecFlat {
        name: None,
        translation_whitelist_path: None,
        slide: None,
        part: None,
    };
    assert!(WhitelistSpec::from_flat(empty).is_err());
    let slide_without_part = WhitelistSpecFlat {
        name: None,
        translation_whitelist_path: None,
        slide: Some("slide".to_string()),
        part: None,
    };
    assert!(WhitelistSpec::from_flat(slide_without_part).is_err());
}

#[test]
fn members_match_themselves() {
    let wl = plain(&["ACGT", "TTTT", "GGCA"]);
    for s in ["ACGT", "TTTT", "GGCA"] {
        assert!(wl.contains(&seq(s)));
        assert_eq!(wl.match_to_whitelist(seq(s)), Some(seq(s)));
    }
    assert!(!wl.contains(&seq("AAAA")));
}

#[test]
fn only_the_first_n_is_corrected() {
    let wl = plain(&["ACGT", "ACGA"]);
    // The first N is tried with A, C, G, T in that order.
    assert_eq!(wl.match_to_whitelist(seq("ACGN")), Some(seq("ACGA")));
    // Two N: only the first is corrected, which gives no member.
    assert_eq!(wl.match_to_whitelist(seq("ANGN")), None);
    // A mismatch that is not an N is never corrected.
    assert_eq!(wl.match_to_whitelist(seq("TCGT")), None);
}

#[test]
fn invalid_sequences_are_refused() {
    assert!(BcSegSeq::from_bytes(b"ACGX").is_none());
    assert!(BcSegSeq::from_bytes(&[b'A'; 43]).is_none());
    assert!(BcSegSeq::from_bytes(&[b'A'; 42]).is_some());
    assert!(BcSegSeq::from_bytes(b"").is_some());
}

#[test]
fn sequence_lengths_of_plain_and_translation() {
    assert_eq!(plain(&["ACG", "ACGTA", "ACGT"]).sequence_lengths(), 3..6);
    assert_eq!(plain(&[]).sequence_lengths(), 0..0);
    let pairs = vec![(seq("ACGT"), seq("AC")), (seq("TTTT"), seq("GGGGGG"))];
    let wl = Whitelist::translation_of(&pairs);
    assert_eq!(wl.sequence_lengths(), 2..7);
}

#[test]
fn parse_entry_columns() {
    let e = parse_entry(b"ACGT\tTTTT\tBC001\textra").unwrap();
    assert_eq!(e.raw, seq("ACGT"));
    assert_eq!(e.translated, Some(seq("TTTT")));
    assert_eq!(e.id, Some(b"BC001".to_vec()));
    let e = parse_entry(b"  ACGT  \n").unwrap();
    assert_eq!(e.raw, seq("ACGT"));
    assert_eq!(e.translated, None);
    assert_eq!(e.id, None);
    assert_eq!(parse_entry(b"   ").unwrap_err(), WhitelistError::MalformedEntry);
    assert_eq!(parse_entry(b"ACXT").unwrap_err(), WhitelistError::MalformedEntry);
    assert_eq!(
        parse_entry(b"ACGT TTTT TOOLONGID").unwrap_err(),
        WhitelistError::MalformedEntry
    );
}

#[test]
fn translation_whitelist_updates_segment() {
    let source = WhitelistSource::DynamicTranslation {
        path: "/tmp/t.txt".to_string(),
    };
    let wl = source
        .as_whitelist(&entries(&["ACGT\tTTTT", "CCCC\tGGGG"]), 0)
        .unwrap();
    assert_eq!(wl.kind(), WhitelistKind::Translation);
    let mut hit = BarcodeSegment::new(seq("ACGT"));
    assert!(wl.check_and_update(&mut hit));
    assert_eq!(hit.state, BarcodeSegmentState::ValidBeforeCorrection);
    assert_eq!(hit.sequence(), &seq("TTTT"));
    let mut miss = BarcodeSegment::new(seq("AAAA"));
    assert!(!wl.check_and_update(&mut miss));
    assert_eq!(miss.state, BarcodeSegmentState::Invalid);
    assert_eq!(miss.sequence(), &seq("AAAA"));
    assert_eq!(wl.translate(&seq("CCCC")), seq("GGGG"));
    assert_eq!(wl.translate(&seq("AAAA")), seq("AAAA"));
}

#[test]
fn spatial_whitelist_indexes_first_appearance() {
    let source = WhitelistSource::SlideFile {
        path: "/slides/s1.slide".to_string(),
        part: OligoPart::Bc1,
    };
    let wl = source
        .as_whitelist(&entries(&["AAAA", "CCCC", "AAAA", "GGGG"]), 2)
        .unwrap();
    assert_eq!(wl.kind(), WhitelistKind::SpatialHd);
    let mut seg = BarcodeSegment::new(seq("GGGG"));
    assert!(wl.check_and_update(&mut seg));
    match &seg.content {
        BarcodeSegmentContent::SpatialIndex(s, idx) => {
            assert_eq!(s, &seq("GGGG"));
            assert_eq!(idx.index, 3);
            assert_eq!(idx.size_um, 2);
        }
        BarcodeSegmentContent::Sequence(_) => panic!("expected a spatial index"),
    }
    let mut again = BarcodeSegment::new(seq("AAAA"));
    assert!(wl.check_and_update(&mut again));
    match &again.content {
        BarcodeSegmentContent::SpatialIndex(_, idx) => assert_eq!(idx.index, 0),
        BarcodeSegmentContent::Sequence(_) => panic!("expected a spatial index"),
    }
}

#[test]
fn plain_and_missing_translation_sources() {
    let plain_source = WhitelistSource::txt_file("/wl/3M-february-2018.txt".to_string());
    assert!(!plain_source.is_translation());
    let wl = plain_source
        .as_whitelist(&entries(&["ACGT\tTTTT", "CCCC"]), 0)
        .unwrap();
    assert_eq!(wl.kind(), WhitelistKind::Plain);
    assert!(wl.contains(&seq("CCCC")));
    assert!(!wl.contains(&seq("TTTT")));

    let trans_source = WhitelistSource::txt_file("/wl/translation/3M-february-2018.txt".to_string());
    assert!(trans_source.is_translation());
    assert_eq!(
        trans_source
            .as_whitelist(&entries(&["ACGT\tTTTT", "CCCC"]), 0)
            .unwrap_err(),
        WhitelistError::NotATranslationWhitelist
    );
    assert!(WhitelistSource::txt_file("translation/x.txt".to_string()).is_translation());
    assert!(!WhitelistSource::txt_file("translation/".to_string()).is_translation());
    assert!(!WhitelistSource::txt_file("/wl/mytranslation/x.txt".to_string()).is_translation());
}

#[test]
fn id_maps_of_entries() {
    let source = WhitelistSource::DynamicTranslation {
        path: "/t".to_string(),
    };
    let e = entries(&["ACGT\tTTTT\tBC1", "CCCC\tGGGG\tBC2"]);
    let by_translation = source.as_translation_seq_to_id(&e).unwrap();
    assert_eq!(by_translation[1].0, seq("GGGG"));
    assert_eq!(by_translation[1].1, b"BC2".to_vec());
    let by_raw = source.as_raw_seq_to_id(&e).unwrap();
    assert_eq!(by_raw[0].0, seq("ACGT"));
    assert_eq!(by_raw[0].1, b"BC1".to_vec());
    assert_eq!(
        source.as_raw_seq_to_id(&entries(&["ACGT\tTTTT"])).unwrap_err(),
        WhitelistError::TranslationColumnsMissing
    );
    assert_eq!(source.as_vec(&e), vec![seq("ACGT"), seq("CCCC")]);
}

#[test]
fn construct_resolves_each_role() {
    let spec = BarcodeConstruct::GelBeadAndProbe(GelBeadAndProbeConstruct {
        gel_bead: WhitelistSpec::TxtFile {
            name: "737K-fixed-rna-profiling".to_string(),
        },
        probe: WhitelistSpec::TxtFile {
            name: "probe-barcodes-fixed-rna-profiling".to_string(),
        },
    });
    match translation_flags(&spec, false) {
        BarcodeConstruct::GelBeadAndProbe(f) => {
            assert!(!f.gel_bead);
            assert!(f.probe);
        }
        _ => panic!("shape changed"),
    }
    let located = BarcodeConstruct::GelBeadAndProbe(GelBeadAndProbeConstruct {
        gel_bead: Some("/wl/gb.txt".to_string()),
        probe: Some("/wl/translation/probe.txt".to_string()),
    });
    match WhitelistSource::construct(&spec, located).unwrap() {
        BarcodeConstruct::GelBeadAndProbe(c) => {
            assert_eq!(
                c.gel_bead,
                WhitelistSource::TxtFile {
                    path: "/wl/gb.txt".to_string()
                }
            );
            assert!(c.probe.is_translation());
        }
        _ => panic!("shape changed"),
    }
    let unresolved = BarcodeConstruct::GelBeadAndProbe(GelBeadAndProbeConstruct {
        gel_bead: Some("/wl/gb.txt".to_string()),
        probe: None,
    });
    assert_eq!(
        WhitelistSource::construct(&spec, unresolved).unwrap_err(),
        WhitelistError::UnresolvedWhitelist
    );
    let dynamic = WhitelistSpec::DynamicTranslation {
        translation_whitelist_path: "/run/t.txt".to_string(),
    };
    assert_eq!(
        dynamic.as_source(None).unwrap(),
        WhitelistSource::DynamicTranslation {
            path: "/run/t.txt".to_string()
        }
    );
}

#[test]
fn ids_are_sorted_without_repeats() {
    let source = WhitelistSource::DynamicTranslation {
        path: "/t".to_string(),
    };
    let e = entries(&[
        "ACGT\tAAAA\tBC2",
        "CCCC\tAAAA\tBC0",
        "GGGG\tCCCC\tBC2",
        "TTTT\tGGGG\tBC1",
    ]);
    assert_eq!(
        source.get_ids(&e).unwrap(),
        vec![b"BC0".to_vec(), b"BC1".to_vec(), b"BC2".to_vec()]
    );
    assert_eq!(
        source.get_ids(&entries(&["ACGT\tAAAA"])).unwrap_err(),
        WhitelistError::TranslationColumnsMissing
    );
}

#[test]
fn set_of_entries() {
    let source = WhitelistSource::txt_file("/wl/plain.txt".to_string());
    let wl = source.as_set(&entries(&["ACGT", "ACGT", "TTTT\tAAAA"]));
    assert_eq!(wl.kind(), WhitelistKind::Plain);
    assert!(wl.contains(&seq("ACGT")));
    assert!(wl.contains(&seq("TTTT")));
    assert!(!wl.contains(&seq("AAAA")));
}
