use vstd::prelude::*;

use crate::text::str_eq;

verus! {

/// A feature of a VDJ reference that a contig aligns to.
#[derive(Clone, Debug, Default, PartialEq)]
pub struct AnnotationFeature {
    /// Chain type of the reference record, as a `VdjChain` number.
    pub chain: i32,
    pub display_name: String,
    pub feature_id: u32,
    pub gene_name: String,
    /// Region type, as a `VdjRegion` number.
    pub region_type: i32,
}

/// One alignment of a contig to a reference feature.
#[derive(Clone, Debug, Default, PartialEq)]
pub struct AnnotationUnit {
    pub contig_match_start: u32,
    pub contig_match_end: u32,
    pub annotation_match_start: u32,
    pub annotation_match_end: u32,
    pub annotation_length: u32,
    pub cigar: String,
    pub score: i32,
    pub feature: Option<AnnotationFeature>,
}

#[derive(Clone, Debug, Default, PartialEq)]
pub struct GexData {
    pub is_gex_cell: bool,
}

#[derive(Clone, Debug, Default, PartialEq)]
pub struct AsmData {
    pub is_asm_cell: bool,
}

#[derive(Clone, Debug, Default, PartialEq)]
pub struct JunctionSupport {
    pub reads: i32,
    pub umis: i32,
}

/// A region of a contig with its nucleotide and amino acid sequences.
#[derive(Clone, Debug, Default, PartialEq)]
pub struct Region {
    pub start: i32,
    pub stop: i32,
    pub nt_seq: String,
    pub aa_seq: String,
}

/// The annotation of one assembled contig. Text fields that are empty and
/// numbers that are -1 stand for absent values.
#[derive(Clone, Debug, Default, PartialEq)]
pub struct ContigAnnotation {
    pub barcode: String,
    pub contig_name: String,
    pub sequence: String,
    pub quals: String,
    pub read_count: u64,
    pub umi_count: u64,
    pub start_codon_pos: i32,
    pub stop_codon_pos: i32,
    pub aa_sequence: String,
    pub cdr3: String,
    pub cdr3_nt: String,
    pub cdr3_start: i32,
    pub cdr3_stop: i32,
    pub annotations: Vec<AnnotationUnit>,
    pub clonotype: String,
    pub raw_clonotype_id: String,
    pub raw_consensus_id: String,
    pub high_confidence: bool,
    pub is_cell: bool,
    pub productive: bool,
    pub filtered: bool,
    pub frame: i32,
    pub asm_data: Option<AsmData>,
    pub gex_data: Option<GexData>,
    pub full_length: bool,
    pub fwr1: Option<Region>,
    pub cdr1: Option<Region>,
    pub fwr2: Option<Region>,
    pub cdr2: Option<Region>,
    pub fwr3: Option<Region>,
    pub fwr4: Option<Region>,
    pub exact_subclonotype_id: String,
    pub junction_support: Option<JunctionSupport>,
}

/// The VDJ reference as text: its regions FASTA and its JSON description.
#[derive(Clone, Debug, Default, PartialEq)]
pub struct VdjReferenceRaw {
    pub regions: String,
    pub ref_json: String,
}

#[derive(Clone, Debug, Default, PartialEq)]
pub struct VdjMetadata {
    pub reference_fasta_hash: String,
    pub pipeline_version: String,
    /// The receptor, as a `Receptor` number.
    pub receptor: i32,
    pub gem_wells: Vec<u32>,
    pub number_of_cells: u32,
    pub sample_id: String,
    pub sample_desc: String,
    pub multi_config_sha: String,
    pub protobuf_version: String,
}

#[derive(Clone, Debug, Default, PartialEq)]
pub struct MetricsSummary {
    pub raw_json: String,
}

/// The regions within a VDJ transcript.
#[derive(Clone, Copy, Debug, PartialEq, Eq, Structural, Hash, PartialOrd, Ord)]
pub enum VdjRegion {
    /// 5' untranslated region
    U,
    /// Variable region
    V,
    /// Diversity region
    D,
    /// Joining region
    J,
    /// Constant region
    C,
}

impl VdjRegion {
    /// The name of the variant in the message schema.
    pub fn as_str_name(&self) -> (r: &'static str)
        ensures
            r@ == match *self {
                VdjRegion::U => "U"@,
                VdjRegion::V => "V"@,
                VdjRegion::D => "D"@,
                VdjRegion::J => "J"@,
                VdjRegion::C => "C"@,
            },
    {
        match self {
            VdjRegion::U => "U",
            VdjRegion::V => "V",
            VdjRegion::D => "D",
            VdjRegion::J => "J",
            VdjRegion::C => "C",
        }
    }

    /// The variant with this schema name.
    pub fn from_str_name(value: &str) -> (r: Option<VdjRegion>)
        ensures
            r == if value@ == "U"@ {
                Some(VdjRegion::U)
            } else if value@ == "V"@ {
                Some(VdjRegion::V)
            } else if value@ == "D"@ {
                Some(VdjRegion::D)
            } else if value@ == "J"@ {
                Some(VdjRegion::J)
            } else if value@ == "C"@ {
                Some(VdjRegion::C)
            } else {
                None
            },
    {
        if str_eq(value, "U") {
            Some(VdjRegion::U)
        } else if str_eq(value, "V") {
            Some(VdjRegion::V)
        } else if str_eq(value, "D") {
            Some(VdjRegion::D)
        } else if str_eq(value, "J") {
            Some(VdjRegion::J)
        } else if str_eq(value, "C") {
            Some(VdjRegion::C)
        } else {
            None
        }
    }
}

/// The chains of immune receptors.
#[derive(Clone, Copy, Debug, PartialEq, Eq, Structural, Hash, PartialOrd, Ord)]
pub enum VdjChain {
    Igh,
    Igk,
    Igl,
    Tra,
    Trb,
    Trd,
    Trg,
}

impl VdjChain {
    /// The name of the variant in the message schema.
    pub fn as_str_name(&self) -> (r: &'static str)
        ensures
            r@ == match *self {
                VdjChain::Igh => "IGH"@,
                VdjChain::Igk => "IGK"@,
                VdjChain::Igl => "IGL"@,
                VdjChain::Tra => "TRA"@,
                VdjChain::Trb => "TRB"@,
                VdjChain::Trd => "TRD"@,
                VdjChain::Trg => "TRG"@,
            },
    {
        match self {
            VdjChain::Igh => "IGH",
            VdjChain::Igk => "IGK",
            VdjChain::Igl => "IGL",
            VdjChain::Tra => "TRA",
            VdjChain::Trb => "TRB",
            VdjChain::Trd => "TRD",
            VdjChain::Trg => "TRG",
        }
    }

    /// The variant with this schema name.
    pub fn from_str_name(value: &str) -> (r: Option<VdjChain>)
        ensures
            r == if value@ == "IGH"@ {
                Some(VdjChain::Igh)
            } else if value@ == "IGK"@ {
                Some(VdjChain::Igk)
            } else if value@ == "IGL"@ {
                Some(VdjChain::Igl)
            } else if value@ == "TRA"@ {
                Some(VdjChain::Tra)
            } else if value@ == "TRB"@ {
                Some(VdjChain::Trb)
            } else if value@ == "TRD"@ {
                Some(VdjChain::Trd)
            } else if value@ == "TRG"@ {
                Some(VdjChain::Trg)
            } else {
                None
            },
    {
        if str_eq(value, "IGH") {
            Some(VdjChain::Igh)
        } else if str_eq(value, "IGK") {
            Some(VdjChain::Igk)
        } else if str_eq(value, "IGL") {
            Some(VdjChain::Igl)
        } else if str_eq(value, "TRA") {
            Some(VdjChain::Tra)
        } else if str_eq(value, "TRB") {
            Some(VdjChain::Trb)
        } else if str_eq(value, "TRD") {
            Some(VdjChain::Trd)
        } else if str_eq(value, "TRG") {
            Some(VdjChain::Trg)
        } else {
            None
        }
    }
}

/// The immune receptors.
#[derive(Clone, Copy, Debug, PartialEq, Eq, Structural, Hash, PartialOrd, Ord)]
pub enum Receptor {
    Tcr,
    Ig,
    Tcrgd,
}

impl Receptor {
    /// The name of the variant in the message schema.
    pub fn as_str_name(&self) -> (r: &'static str)
        ensures
            r@ == match *self {
                Receptor::Tcr => "TCR"@,
                Receptor::Ig => "IG"@,
                Receptor::Tcrgd => "TCRGD"@,
            },
    {
        match self {
            Receptor::Tcr => "TCR",
            Receptor::Ig => "IG",
            Receptor::Tcrgd => "TCRGD",
        }
    }

    /// The variant with this schema name.
    pub fn from_str_name(value: &str) -> (r: Option<Receptor>)
        ensures
            r == if value@ == "TCR"@ {
                Some(Receptor::Tcr)
            } else if value@ == "IG"@ {
                Some(Receptor::Ig)
            } else if value@ == "TCRGD"@ {
                Some(Receptor::Tcrgd)
            } else {
                None
            },
    {
        if str_eq(value, "TCR") {
            Some(Receptor::Tcr)
        } else if str_eq(value, "IG") {
            Some(Receptor::Ig)
        } else if str_eq(value, "TCRGD") {
            Some(Receptor::Tcrgd)
        } else {
            None
        }
    }
}

} // verus!
