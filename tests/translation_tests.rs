use barcode_whitelist::entry::{parse_entry, BarcodeId, Entry};
use barcode_whitelist::source::{WhitelistError, WhitelistSource};

fn entries(rows: &[[&str; 3]]) -> Vec<Entry> {
    rows.iter()
        .map(|r| parse_entry(r.join("\t").as_bytes()).unwrap())
        .collect()
}

fn mapping(pairs: &[(&str, &str)]) -> Vec<(BarcodeId, BarcodeId)> {
    pairs
        .iter()
        .map(|(a, b)| (a.as_bytes().to_vec(), b.as_bytes().to_vec()))
        .collect()
}

fn as_strings(out: Vec<(barcode_whitelist::sequence::BcSegSeq, barcode_whitelist::sequence::BcSegSeq, BarcodeId)>) -> Vec<Vec<String>> {
    out.into_iter()
        .map(|(s0, s1, id)| {
            vec![
                String::from_utf8(s0.seq().to_vec()).unwrap(),
                String::from_utf8(s1.seq().to_vec()).unwrap(),
                String::from_utf8(id).unwrap(),
            ]
        })
        .collect()
}

fn owned_string_vecs(input: Vec<Vec<&str>>) -> Vec<Vec<String>> {
    input
        .into_iter()
        .map(|inner| inner.into_iter().map(String::from).collect())
        .collect()
}

const ALL: [[&str; 3]; 8] = [
    ["ACTG", "AAAA", "BC0"],
    ["ATCG", "AAAA", "BC0"],
    ["CTAG", "TTTT", "BC1"],
    ["TACG", "CCCC", "BC2"],
    ["TAAG", "CCCC", "BC2"],
    ["TCAG", "GGGG", "BC3"],
    ["GACT", "CCCC", "BC4"],
    ["GCAT", "GGCC", "BC5"],
];

#[test]
fn test_create_translation_from_overlapping_id_map() {
    let source = WhitelistSource::DynamicTranslation {
        path: "/tmp/source.txt".to_string(),
    };
    let e = entries(&ALL);
    let map = mapping(&[("BC2", "BC0"), ("BC3", "BC0"), ("BC4", "BC1")]);
    let translated = as_strings(
        source
            .create_translation_from_id_map(&e, &map, &source, &e)
            .unwrap(),
    );
    let expected = owned_string_vecs(vec![
        vec!["ACTG", "AAAA", "BC0"],
        vec!["ATCG", "AAAA", "BC0"],
        vec!["CTAG", "TTTT", "BC1"],
        vec!["TACG", "AAAA", "BC0"],
        vec!["TAAG", "AAAA", "BC0"],
        vec!["TCAG", "AAAA", "BC0"],
        vec!["GACT", "TTTT", "BC1"],
        vec!["GCAT", "GGCC", "BC5"],
    ]);
    assert_eq!(translated, expected);
}

#[test]
fn test_create_translation_from_non_overlapping_id_maps() {
    let target = WhitelistSource::DynamicTranslation {
        path: "/tmp/target.txt".to_string(),
    };
    let target_entries = entries(&ALL[..3]);
    let source = WhitelistSource::DynamicTranslation {
        path: "/tmp/source.txt".to_string(),
    };
    let source_entries = entries(&ALL[3..]);
    let map = mapping(&[("BC2", "BC0"), ("BC3", "BC0"), ("BC4", "BC1")]);

    let translated = as_strings(
        source
            .create_translation_from_id_map(&source_entries, &map, &target, &target_entries)
            .unwrap(),
    );
    let expected = owned_string_vecs(vec![
        vec!["TACG", "AAAA", "BC0"],
        vec!["TAAG", "AAAA", "BC0"],
        vec!["TCAG", "AAAA", "BC0"],
        vec!["GACT", "TTTT", "BC1"],
        vec!["GCAT", "GGCC", "BC5"],
    ]);
    assert_eq!(translated, expected);

    // Translating the target whitelist should leave it unchanged.
    let translated_target = as_strings(
        target
            .create_translation_from_id_map(&target_entries, &map, &target, &target_entries)
            .unwrap(),
    );
    assert_eq!(
        translated_target,
        owned_string_vecs(vec![
            vec!["ACTG", "AAAA", "BC0"],
            vec!["ATCG", "AAAA", "BC0"],
            vec!["CTAG", "TTTT", "BC1"],
        ])
    );
}

#[test]
fn self_translation_with_no_remap_is_unchanged() {
    let source = WhitelistSource::DynamicTranslation {
        path: "/tmp/source.txt".to_string(),
    };
    let e = entries(&ALL);
    let identity = mapping(&[("BC0", "BC0"), ("BC3", "BC3")]);
    for map in [Vec::new(), identity] {
        let out = as_strings(source.create_translation_from_id_map(&e, &map, &source, &e).unwrap());
        let expected: Vec<Vec<String>> = ALL
            .iter()
            .map(|r| r.iter().map(|s| s.to_string()).collect())
            .collect();
        assert_eq!(out, expected);
    }
}

#[test]
fn translation_errors() {
    let a = WhitelistSource::DynamicTranslation {
        path: "/tmp/a.txt".to_string(),
    };
    let b = WhitelistSource::DynamicTranslation {
        path: "/tmp/b.txt".to_string(),
    };
    let plain = WhitelistSource::txt_file("/wl/plain.txt".to_string());
    let e = entries(&ALL[..3]);
    assert_eq!(
        plain
            .create_translation_from_id_map(&e, &Vec::new(), &a, &e)
            .unwrap_err(),
        WhitelistError::TranslationPreconditionViolated
    );
    // Two distinct whitelists that share BC0.
    assert_eq!(
        a.create_translation_from_id_map(&e, &Vec::new(), &b, &e)
            .unwrap_err(),
        WhitelistError::IdOverlapBetweenWhitelists
    );
    // BC9 is in neither whitelist.
    assert_eq!(
        a.create_translation_from_id_map(&e, &mapping(&[("BC1", "BC9")]), &a, &e)
            .unwrap_err(),
        WhitelistError::IdNotFoundInCombinedWhitelist
    );
    let two_columns = vec![parse_entry(b"ACGT\tAAAA").unwrap()];
    assert_eq!(
        a.create_translation_from_id_map(&two_columns, &Vec::new(), &a, &two_columns)
            .unwrap_err(),
        WhitelistError::TranslationColumnsMissing
    );
    let conflicting = entries(&[["ACTG", "AAAA", "BC0"], ["ATCG", "CCCC", "BC0"]]);
    assert_eq!(
        a.create_translation_from_id_map(&conflicting, &Vec::new(), &a, &conflicting)
            .unwrap_err(),
        WhitelistError::ConflictingTranslation
    );
}
