use barcode_whitelist::beam::BeamMode;
use barcode_whitelist::multiplexing::{categorize_multiplexing_barcode_id, MultiplexingBarcodeType};
use barcode_whitelist::vdj_proto::{Receptor, VdjChain, VdjRegion};

#[test]
fn multiplexing_ids_are_categorized() {
    assert_eq!(categorize_multiplexing_barcode_id("BC001"), MultiplexingBarcodeType::RTL);
    assert_eq!(categorize_multiplexing_barcode_id("BC024"), MultiplexingBarcodeType::RTL);
    assert_eq!(categorize_multiplexing_barcode_id("BC025"), MultiplexingBarcodeType::Antibody);
    assert_eq!(categorize_multiplexing_barcode_id("BC999"), MultiplexingBarcodeType::Antibody);
    assert_eq!(categorize_multiplexing_barcode_id("BC001A"), MultiplexingBarcodeType::RTL);
    assert_eq!(categorize_multiplexing_barcode_id("BC001E"), MultiplexingBarcodeType::CMO);
    assert_eq!(categorize_multiplexing_barcode_id("AB001"), MultiplexingBarcodeType::Antibody);
    assert_eq!(categorize_multiplexing_barcode_id("CR001"), MultiplexingBarcodeType::Crispr);
    assert_eq!(categorize_multiplexing_barcode_id("OH001"), MultiplexingBarcodeType::Overhang);
    assert_eq!(categorize_multiplexing_barcode_id("CMO301"), MultiplexingBarcodeType::CMO);
    assert_eq!(categorize_multiplexing_barcode_id("AB"), MultiplexingBarcodeType::CMO);
    assert_eq!(categorize_multiplexing_barcode_id("BC+5"), MultiplexingBarcodeType::RTL);
    assert_eq!(categorize_multiplexing_barcode_id("X"), MultiplexingBarcodeType::CMO);
    assert_eq!(MultiplexingBarcodeType::RTL.name(), "Gene Expression (BC)");
    assert_eq!(MultiplexingBarcodeType::Antibody.name(), "Antibody Capture (AB)");
}

#[test]
fn vdj_names_round_trip() {
    for r in [VdjRegion::U, VdjRegion::V, VdjRegion::D, VdjRegion::J, VdjRegion::C] {
        assert_eq!(VdjRegion::from_str_name(r.as_str_name()), Some(r));
    }
    for c in [
        VdjChain::Igh,
        VdjChain::Igk,
        VdjChain::Igl,
        VdjChain::Tra,
        VdjChain::Trb,
        VdjChain::Trd,
        VdjChain::Trg,
    ] {
        assert_eq!(VdjChain::from_str_name(c.as_str_name()), Some(c));
    }
    for r in [Receptor::Tcr, Receptor::Ig, Receptor::Tcrgd] {
        assert_eq!(Receptor::from_str_name(r.as_str_name()), Some(r));
    }
    assert_eq!(VdjChain::Tra.as_str_name(), "TRA");
    assert_eq!(VdjRegion::from_str_name("X"), None);
    assert_eq!(Receptor::from_str_name("tcr"), None);
}

#[test]
fn beam_modes_by_name() {
    assert_eq!(BeamMode::from_name("beam_ab"), Some(BeamMode::BeamAB));
    assert_eq!(BeamMode::from_name("beam_t"), Some(BeamMode::BeamT));
    assert_eq!(BeamMode::from_name("beam"), None);
    assert_eq!(BeamMode::BeamT.name(), "beam_t");
}
