use vstd::prelude::*;
use vstd::string::StringExecFns;

use crate::histogram::{observe_all, total_of, HistogramView, SimpleHistogram};
use crate::sequence::BcSegSeq;
use crate::similarity::{
    robust_cosine_similarity, sim_at_least, sim_greater, spec_similarity, SimilarityTerms,
    MAX_EXACT_TOTAL,
};
use crate::source::{spec_same_spec, BarcodeConstruct, WhitelistSpec};
use crate::whitelist::{match_in, Whitelist, WhitelistKind};

verus! {

/// The most reads sampled from one sample for the compatibility check.
pub const MAX_READS_BARCODE_COMPATIBILITY: usize = 1000000;

/// The error text for several library types without a gene expression
/// library.
pub const MISSING_GEX: &'static str = "Gene expression data is required if there are multiple library types.";

/// The assay of a sequencing library.
#[derive(Clone, Copy, Debug, PartialEq, Eq, Structural, Hash)]
pub enum LibraryType {
    Gex,
    Antibody,
    Crispr,
    Multiplexing,
    Custom,
}

/// The name of a library type as users see it.
pub open spec fn library_type_name(t: LibraryType) -> Seq<char> {
    match t {
        LibraryType::Gex => "Gene Expression"@,
        LibraryType::Antibody => "Antibody Capture"@,
        LibraryType::Crispr => "CRISPR Guide Capture"@,
        LibraryType::Multiplexing => "Multiplexing Capture"@,
        LibraryType::Custom => "Custom"@,
    }
}

impl LibraryType {
    /// The name of the library type as users see it.
    pub fn as_str(&self) -> (r: &'static str)
        ensures
            r@ == library_type_name(*self),
    {
        match self {
            LibraryType::Gex => "Gene Expression",
            LibraryType::Antibody => "Antibody Capture",
            LibraryType::Crispr => "CRISPR Guide Capture",
            LibraryType::Multiplexing => "Multiplexing Capture",
            LibraryType::Custom => "Custom",
        }
    }
}

/// The chemistries that the compatibility check tells apart.
#[derive(Clone, Copy, Debug, PartialEq, Eq, Structural)]
pub enum ChemistryName {
    Custom,
    ThreePrimeV1,
    ThreePrimeV2,
    ThreePrimeV3,
    ThreePrimeV3LT,
    ThreePrimeV3HT,
    FivePrimeR1,
    FivePrimeR2,
    FivePrimePE,
    SpatialThreePrimeV1,
}

/// What the compatibility check needs of a chemistry: its name and how its
/// barcode whitelists are named.
#[derive(Debug, Clone)]
pub struct ChemistryDef {
    pub name: ChemistryName,
    pub barcode_whitelist: BarcodeConstruct<WhitelistSpec>,
}

/// The errors of the compatibility check.
#[derive(Clone, Copy, Debug, PartialEq, Eq, Structural)]
pub enum CompatibilityError {
    /// Several library types and no gene expression library among them.
    MissingGexLibrary,
    /// The chemistries name different gel bead whitelists.
    AmbiguousGelBeadWhitelist,
    /// The barcodes of this library type overlap too little with those of
    /// the gene expression library.
    InsufficientBarcodeOverlap(LibraryType),
}

/// The first step of the check: either the libraries to translate are
/// known from the chemistries alone, or the histograms of the libraries
/// against the named gel bead whitelist must be compared.
#[derive(Debug)]
pub enum CompatibilityPlan {
    Decided(Vec<LibraryType>),
    Compare(WhitelistSpec),
}

/// Some chemistry builds its barcode from segments.
pub open spec fn has_segmented(d: Seq<(LibraryType, ChemistryDef)>) -> bool {
    exists|i: int| 0 <= i < d.len() && (#[trigger] d[i]).1.barcode_whitelist is Segmented
}

/// At least two library types are present.
pub open spec fn several_types(d: Seq<(LibraryType, ChemistryDef)>) -> bool {
    exists|i: int, j: int| 0 <= i < d.len() && 0 <= j < d.len() && (#[trigger] d[i]).0 != (#[trigger] d[j]).0
}

pub open spec fn has_type(d: Seq<(LibraryType, ChemistryDef)>, t: LibraryType) -> bool {
    exists|i: int| 0 <= i < d.len() && (#[trigger] d[i]).0 == t
}

/// The gel bead whitelist of a construct that has one.
pub open spec fn gel_bead_spec(c: BarcodeConstruct<WhitelistSpec>) -> WhitelistSpec {
    match c {
        BarcodeConstruct::GelBeadOnly(g) => g,
        BarcodeConstruct::GelBeadAndProbe(p) => p.gel_bead,
        BarcodeConstruct::Segmented(v) => v@[0],
    }
}

/// All chemistries name the gel bead whitelist of the first.
pub open spec fn same_gel_bead(d: Seq<(LibraryType, ChemistryDef)>) -> bool {
    forall|i: int|
        0 <= i < d.len() ==> spec_same_spec(
            gel_bead_spec((#[trigger] d[i]).1.barcode_whitelist),
            gel_bead_spec(d[0].1.barcode_whitelist),
        )
}

/// With a single library type, only an antibody library of a 3' v3
/// chemistry is translated.
pub open spec fn single_type_translated(d: Seq<(LibraryType, ChemistryDef)>) -> Seq<LibraryType> {
    if d.len() > 0 && (d[0].1.name == ChemistryName::ThreePrimeV3 || d[0].1.name
        == ChemistryName::ThreePrimeV3LT) && d[0].0 == LibraryType::Antibody {
        seq![LibraryType::Antibody]
    } else {
        seq![]
    }
}

/// Decides from the chemistries of the libraries what the compatibility
/// check does: nothing for segmented barcodes; the fixed policy for a
/// single library type; else, after checking that a gene expression
/// library is present and that all chemistries share one gel bead
/// whitelist, a comparison of barcode histograms against that whitelist.
pub fn plan_compatibility(chemistry_defs: &Vec<(LibraryType, ChemistryDef)>) -> (r: Result<
    CompatibilityPlan,
    CompatibilityError,
>)
    ensures
        has_segmented(chemistry_defs@) ==> (r matches Ok(CompatibilityPlan::Decided(v))
            && v@ == Seq::<LibraryType>::empty()),
        !has_segmented(chemistry_defs@) && !several_types(chemistry_defs@) ==> (r matches Ok(
            CompatibilityPlan::Decided(v),
        ) && v@ == single_type_translated(chemistry_defs@)),
        !has_segmented(chemistry_defs@) && several_types(chemistry_defs@) && !has_type(
            chemistry_defs@,
            LibraryType::Gex,
        ) ==> r == Err::<CompatibilityPlan, CompatibilityError>(
            CompatibilityError::MissingGexLibrary,
        ),
        !has_segmented(chemistry_defs@) && several_types(chemistry_defs@) && has_type(
            chemistry_defs@,
            LibraryType::Gex,
        ) && !same_gel_bead(chemistry_defs@) ==> r == Err::<CompatibilityPlan, CompatibilityError>(
            CompatibilityError::AmbiguousGelBeadWhitelist,
        ),
        !has_segmented(chemistry_defs@) && several_types(chemistry_defs@) && has_type(
            chemistry_defs@,
            LibraryType::Gex,
        ) && same_gel_bead(chemistry_defs@) ==> (r matches Ok(CompatibilityPlan::Compare(s))
            && spec_same_spec(s, gel_bead_spec(chemistry_defs@[0].1.barcode_whitelist))),
{
    let ghost d = chemistry_defs@;
    let n = chemistry_defs.len();
    let mut i: usize = 0;
    while i < n
        invariant
            0 <= i <= n,
            n == d.len(),
            d == chemistry_defs@,
            forall|j: int| 0 <= j < i ==> !((#[trigger] d[j]).1.barcode_whitelist is Segmented),
        decreases n - i,
    {
        if let BarcodeConstruct::Segmented(_) = &chemistry_defs[i].1.barcode_whitelist {
            return Ok(CompatibilityPlan::Decided(Vec::new()));
        }
        i += 1;
    }
    if n == 0 {
        return Ok(CompatibilityPlan::Decided(Vec::new()));
    }
    let first = chemistry_defs[0].0;
    let mut several = false;
    let mut gex = false;
    let mut j: usize = 0;
    while j < n
        invariant
            0 <= j <= n,
            n == d.len(),
            n > 0,
            d == chemistry_defs@,
            first == d[0].0,
            several == exists|k: int| 0 <= k < j && (#[trigger] d[k]).0 != first,
            gex == exists|k: int| 0 <= k < j && (#[trigger] d[k]).0 == LibraryType::Gex,
        decreases n - j,
    {
        if chemistry_defs[j].0 != first {
            several = true;
        }
        if chemistry_defs[j].0 == LibraryType::Gex {
            gex = true;
        }
        j += 1;
    }
    proof {
        if several_types(d) {
            let (a, b) = choose|a: int, b: int|
                0 <= a < d.len() && 0 <= b < d.len() && (#[trigger] d[a]).0 != (#[trigger] d[b]).0;
            if d[a].0 == first {
                assert(d[b].0 != first);
            } else {
                assert(d[a].0 != first);
            }
        }
        if several {
            let k = choose|k: int| 0 <= k < n && (#[trigger] d[k]).0 != first;
            assert(d[k].0 != d[0].0);
        }
    }
    if !several {
        let name = chemistry_defs[0].1.name;
        if (name == ChemistryName::ThreePrimeV3 || name == ChemistryName::ThreePrimeV3LT) && first
            == LibraryType::Antibody {
            let mut v: Vec<LibraryType> = Vec::new();
            v.push(LibraryType::Antibody);
            proof {
                assert(v@ =~= seq![LibraryType::Antibody]);
            }
            return Ok(CompatibilityPlan::Decided(v));
        }
        let v: Vec<LibraryType> = Vec::new();
        proof {
            assert(v@ =~= Seq::<LibraryType>::empty());
        }
        return Ok(CompatibilityPlan::Decided(v));
    }
    if !gex {
        return Err(CompatibilityError::MissingGexLibrary);
    }
    let gb0 = match chemistry_defs[0].1.barcode_whitelist.gel_bead() {
        Some(g) => g,
        None => {
            return Err(CompatibilityError::AmbiguousGelBeadWhitelist);
        },
    };
    let mut k: usize = 0;
    while k < n
        invariant
            0 <= k <= n,
            n == d.len(),
            n > 0,
            d == chemistry_defs@,
            *gb0 == gel_bead_spec(d[0].1.barcode_whitelist),
            several_types(d),
            has_type(d, LibraryType::Gex),
            !has_segmented(d),
            forall|j: int| 0 <= j < n ==> !((#[trigger] d[j]).1.barcode_whitelist is Segmented),
            forall|j: int|
                0 <= j < k ==> spec_same_spec(
                    gel_bead_spec((#[trigger] d[j]).1.barcode_whitelist),
                    gel_bead_spec(d[0].1.barcode_whitelist),
                ),
        decreases n - k,
    {
        match chemistry_defs[k].1.barcode_whitelist.gel_bead() {
            Some(g) => {
                if !(*g == *gb0) {
                    return Err(CompatibilityError::AmbiguousGelBeadWhitelist);
                }
            },
            None => {
                return Err(CompatibilityError::AmbiguousGelBeadWhitelist);
            },
        }
        k += 1;
    }
    Ok(CompatibilityPlan::Compare(gb0.duplicate()))
}

/// A sequence as a translation whitelist maps it: its translation where
/// the whitelist translates it, else itself.
pub open spec fn translated_key(w: &Whitelist, k: Seq<u8>) -> Seq<u8> {
    if w.spec_kind() == WhitelistKind::Translation && w.translation().contains_key(k) {
        w.translation()[k]
    } else {
        k
    }
}

/// A histogram with each sequence put through a translation whitelist;
/// counts of sequences with the same translation add up.
pub open spec fn translated_view(e: HistogramView, w: &Whitelist) -> HistogramView {
    observe_all(
        Seq::empty(),
        e.map_values(|p: (Seq<u8>, u64)| (translated_key(w, p.0), p.1)),
    )
}

/// The histogram `h` with its sequences put through the translation
/// whitelist `w`.
pub fn translate_histogram(h: &SimpleHistogram, w: &Whitelist) -> (r: SimpleHistogram)
    requires
        h.wf(),
    ensures
        r.wf(),
        r.view() == translated_view(h.view(), w),
        total_of(r.view()) == total_of(h.view()),
{
    let ghost e = h.view();
    let ghost f = e.map_values(|p: (Seq<u8>, u64)| (translated_key(w, p.0), p.1));
    let n = h.len();
    let mut out = SimpleHistogram::new();
    let mut i: usize = 0;
    // The total of `h` bounds every sum of its counts.
    let _total = h.total();
    while i < n
        invariant
            0 <= i <= n,
            n == e.len(),
            h.wf(),
            out.wf(),
            e == h.view(),
            f == e.map_values(|p: (Seq<u8>, u64)| (translated_key(w, p.0), p.1)),
            total_of(e) <= u64::MAX,
            out.view() == observe_all(Seq::empty(), f.subrange(0, i as int)),
            total_of(out.view()) == total_of(e.subrange(0, i as int)),
        decreases n - i,
    {
        let (k, c) = h.entry(i);
        let k2 = w.translate(k);
        proof {
            assert(f.subrange(0, i + 1).drop_last() =~= f.subrange(0, i as int));
            assert(e.subrange(0, i + 1).drop_last() =~= e.subrange(0, i as int));
            crate::histogram::lemma_prefix_total_le(e, i + 1);
        }
        out.observe_by(&k2, c);
        i += 1;
    }
    proof {
        assert(f.subrange(0, n as int) =~= f);
        assert(e.subrange(0, n as int) =~= e);
    }
    out
}

/// The outcome of the check for the non-gene-expression libraries `libs`
/// in order: each is translated where translating its barcodes raises its
/// similarity to the gene expression histogram `gex`; with the check on,
/// the first library whose (effective) similarity is below `num / den`
/// fails it.
pub open spec fn spec_decide(
    gex: HistogramView,
    libs: Seq<(LibraryType, HistogramView)>,
    translation: Option<&Whitelist>,
    check: bool,
    num: int,
    den: int,
) -> Result<Seq<LibraryType>, CompatibilityError>
    decreases libs.len(),
{
    if libs.len() == 0 {
        Ok(seq![])
    } else {
        match spec_decide(gex, libs.drop_last(), translation, check, num, den) {
            Err(e) => Err(e),
            Ok(v) => {
                let t = libs.last().0;
                let plain = spec_similarity(gex, libs.last().1);
                let translated = match translation {
                    Some(w) => sim_greater(
                        spec_similarity(gex, translated_view(libs.last().1, w)),
                        plain,
                    ),
                    None => false,
                };
                let effective = if translated {
                    spec_similarity(gex, translated_view(libs.last().1, translation->Some_0))
                } else {
                    plain
                };
                if check && !sim_at_least(effective, num, den) {
                    Err(CompatibilityError::InsufficientBarcodeOverlap(t))
                } else if translated {
                    Ok(v.push(t))
                } else {
                    Ok(v)
                }
            },
        }
    }
}

/// The library types and histogram views of a list of libraries.
pub open spec fn library_views(v: Seq<(LibraryType, SimpleHistogram)>) -> Seq<(LibraryType, HistogramView)> {
    v.map_values(|p: (LibraryType, SimpleHistogram)| (p.0, p.1.view()))
}

/// Every histogram is well formed and small enough to be compared exactly.
pub open spec fn comparable(v: Seq<(LibraryType, SimpleHistogram)>) -> bool {
    forall|i: int|
        0 <= i < v.len() ==> (#[trigger] v[i]).1.wf() && total_of(v[i].1.view()) <= MAX_EXACT_TOTAL
}

/// Compares each non-gene-expression library with the gene expression
/// histogram and returns the library types that need translation, or the
/// first library whose barcodes overlap too little where the check is on.
/// `translation` is the gel bead translation whitelist where the chemistry
/// has one; `num / den` is the least similarity accepted.
pub fn decide_translation(
    gex: &SimpleHistogram,
    libraries: &Vec<(LibraryType, SimpleHistogram)>,
    translation: Option<&Whitelist>,
    check_library_compatibility: bool,
    num: u64,
    den: u64,
) -> (r: Result<Vec<LibraryType>, CompatibilityError>)
    requires
        gex.wf(),
        total_of(gex.view()) <= MAX_EXACT_TOTAL,
        comparable(libraries@),
    ensures
        match r {
            Ok(v) => spec_decide(
                gex.view(),
                library_views(libraries@),
                translation,
                check_library_compatibility,
                num as int,
                den as int,
            ) == Ok::<Seq<LibraryType>, CompatibilityError>(v@),
            Err(e) => spec_decide(
                gex.view(),
                library_views(libraries@),
                translation,
                check_library_compatibility,
                num as int,
                den as int,
            ) == Err::<Seq<LibraryType>, CompatibilityError>(e),
        },
{
    let ghost libs = library_views(libraries@);
    let mut out: Vec<LibraryType> = Vec::new();
    let mut i: usize = 0;
    while i < libraries.len()
        invariant
            0 <= i <= libraries@.len(),
            libs == library_views(libraries@),
            gex.wf(),
            total_of(gex.view()) <= MAX_EXACT_TOTAL,
            comparable(libraries@),
            spec_decide(
                gex.view(),
                libs.subrange(0, i as int),
                translation,
                check_library_compatibility,
                num as int,
                den as int,
            ) == Ok::<Seq<LibraryType>, CompatibilityError>(out@),
        decreases libraries@.len() - i,
    {
        let t = libraries[i].0;
        let h = &libraries[i].1;
        proof {
            assert(libs.subrange(0, i + 1).drop_last() =~= libs.subrange(0, i as int));
            assert(libs.subrange(0, i + 1).last() == (t, h.view()));
            assert(h.wf() && total_of(h.view()) <= MAX_EXACT_TOTAL);
        }
        let plain = robust_cosine_similarity(gex, h);
        let mut effective: SimilarityTerms = plain;
        let mut translated = false;
        match translation {
            Some(w) => {
                let th = translate_histogram(h, w);
                let ts = robust_cosine_similarity(gex, &th);
                if ts.greater_than(&plain) {
                    translated = true;
                    effective = ts;
                }
            },
            None => {},
        }
        if check_library_compatibility && !effective.at_least(num, den) {
            proof {
                lemma_decide_prefix_err(
                    gex.view(),
                    libs,
                    translation,
                    check_library_compatibility,
                    num as int,
                    den as int,
                    i + 1,
                );
            }
            return Err(CompatibilityError::InsufficientBarcodeOverlap(t));
        }
        if translated {
            out.push(t);
        }
        i += 1;
    }
    proof {
        assert(libs.subrange(0, libs.len() as int) =~= libs);
    }
    Ok(out)
}

/// An error on a prefix of the libraries is the error on all of them.
proof fn lemma_decide_prefix_err(
    gex: HistogramView,
    libs: Seq<(LibraryType, HistogramView)>,
    translation: Option<&Whitelist>,
    check: bool,
    num: int,
    den: int,
    n: int,
)
    requires
        0 <= n <= libs.len(),
        spec_decide(gex, libs.subrange(0, n), translation, check, num, den) is Err,
    ensures
        spec_decide(gex, libs, translation, check, num, den) == spec_decide(
            gex,
            libs.subrange(0, n),
            translation,
            check,
            num,
            den,
        ),
    decreases libs.len() - n,
{
    if n < libs.len() {
        assert(libs.drop_last().subrange(0, n) =~= libs.subrange(0, n));
        lemma_decide_prefix_err(gex, libs.drop_last(), translation, check, num, den, n);
    } else {
        assert(libs.subrange(0, n) =~= libs);
    }
}

/// The first part of the error text for libraries that overlap too little.
pub const INCOMPATIBLE_HEAD: &'static str = "Barcodes from the [";

pub const INCOMPATIBLE_MIDDLE: &'static str = "] library and the [";

pub const INCOMPATIBLE_TAIL: &'static str = "] library have insufficient overlap. This usually indicates the libraries originated from different cells or samples. This error can usually be fixed by providing correct FASTQ files from the same sample. If you are certain the input libraries are matched, you can bypass this check by adding `check-library-compatibility,false` to the [gene-expression] section of your multi config CSV if using `cellranger multi` or passing the --check-library-compatibility=false argument if using `cellranger count`. If you have questions regarding this error or your results, please contact support@10xgenomics.com.";

/// The error text for libraries of types `lib_0_type` and `lib_1_type`
/// whose barcodes overlap too little, with how to fix or bypass the check.
pub fn incompatible_message(lib_0_type: LibraryType, lib_1_type: LibraryType) -> (r: String)
    ensures
        r@ == INCOMPATIBLE_HEAD@ + library_type_name(lib_0_type) + INCOMPATIBLE_MIDDLE@
            + library_type_name(lib_1_type) + INCOMPATIBLE_TAIL@,
{
    let mut s = String::from_str(INCOMPATIBLE_HEAD);
    s.append(lib_0_type.as_str());
    s.append(INCOMPATIBLE_MIDDLE);
    s.append(lib_1_type.as_str());
    s.append(INCOMPATIBLE_TAIL);
    s
}

impl CompatibilityError {
    /// The user-facing text of the error.
    pub fn message(&self) -> (r: String)
        ensures
            *self == CompatibilityError::MissingGexLibrary ==> r@ == MISSING_GEX@,
            self matches CompatibilityError::InsufficientBarcodeOverlap(t) ==> r@ == INCOMPATIBLE_HEAD@
                + library_type_name(LibraryType::Gex) + INCOMPATIBLE_MIDDLE@ + library_type_name(*t)
                + INCOMPATIBLE_TAIL@,
    {
        match self {
            CompatibilityError::MissingGexLibrary => String::from_str(MISSING_GEX),
            CompatibilityError::AmbiguousGelBeadWhitelist => String::from_str(
                "The chemistries of the libraries use different gel bead barcode whitelists.",
            ),
            CompatibilityError::InsufficientBarcodeOverlap(t) => incompatible_message(
                LibraryType::Gex,
                *t,
            ),
        }
    }
}

/// Samples the barcodes of one sample: each read hands in the barcode
/// extracted from it, which is matched to the whitelist (correcting one
/// `N`) and counted, until `MAX_READS_BARCODE_COMPATIBILITY` reads with a
/// barcode have been seen.
pub struct BarcodeSampler {
    pub histogram: SimpleHistogram,
    pub num_reads: usize,
}

impl BarcodeSampler {
    pub open spec fn wf(&self) -> bool {
        &&& self.histogram.wf()
        &&& total_of(self.histogram.view()) <= self.num_reads
        &&& self.num_reads <= MAX_READS_BARCODE_COMPATIBILITY
    }

    /// A sampler that has seen no read.
    pub fn new() -> (r: BarcodeSampler)
        ensures
            r.wf(),
            r.num_reads == 0,
            r.histogram.view() == Seq::<(Seq<u8>, u64)>::empty(),
    {
        BarcodeSampler { histogram: SimpleHistogram::new(), num_reads: 0 }
    }

    /// Takes the barcode extracted from the next read, `None` for a read
    /// without one, and tells whether more reads are wanted. A barcode that
    /// matches the whitelist, itself or with its first `N` corrected, is
    /// counted under its match; every barcode counts as a read.
    pub fn observe(&mut self, barcode: Option<&[u8]>, wl: &Whitelist) -> (more: bool)
        requires
            old(self).wf(),
            old(self).num_reads < MAX_READS_BARCODE_COMPATIBILITY,
        ensures
            final(self).wf(),
            final(self).num_reads == old(self).num_reads + if barcode is Some {
                1int
            } else {
                0int
            },
            barcode matches Some(b) ==> (crate::sequence::valid_seq(b@) && match_in(wl.members(), b@)
                is Some ==> final(self).histogram.view() == crate::histogram::spec_observe(
                old(self).histogram.view(),
                match_in(wl.members(), b@)->Some_0,
                1,
            )),
            barcode matches Some(b) ==> (!(crate::sequence::valid_seq(b@) && match_in(
                wl.members(),
                b@,
            ) is Some) ==> final(self).histogram.view() == old(self).histogram.view()),
            barcode is None ==> final(self).histogram.view() == old(self).histogram.view(),
            more == (final(self).num_reads < MAX_READS_BARCODE_COMPATIBILITY),
    {
        if let Some(b) = barcode {
            if let Some(seq) = BcSegSeq::from_bytes(b) {
                if let Some(m) = wl.match_to_whitelist(seq) {
                    self.histogram.observe_by(&m, 1);
                }
            }
            self.num_reads = self.num_reads + 1;
        }
        self.num_reads < MAX_READS_BARCODE_COMPATIBILITY
    }
}

/// One of the first `n` libraries is of type `t`.
pub open spec fn lists_type(s: Seq<(LibraryType, SimpleHistogram)>, n: int, t: LibraryType) -> bool {
    exists|i: int| 0 <= i < n && (#[trigger] s[i]).0 == t
}

/// The histogram of the samples of type `t`, merged in order.
pub open spec fn merged_of(s: Seq<(LibraryType, HistogramView)>, t: LibraryType) -> HistogramView
    decreases s.len(),
{
    if s.len() == 0 {
        Seq::empty()
    } else if s.last().0 == t {
        observe_all(merged_of(s.drop_last(), t), s.last().1)
    } else {
        merged_of(s.drop_last(), t)
    }
}

/// The sum of the totals of the samples.
pub open spec fn sum_totals(s: Seq<(LibraryType, HistogramView)>) -> int
    decreases s.len(),
{
    if s.len() == 0 {
        0
    } else {
        sum_totals(s.drop_last()) + total_of(s.last().1)
    }
}

proof fn lemma_sum_totals_prefix(s: Seq<(LibraryType, HistogramView)>, n: int)
    requires
        0 <= n <= s.len(),
    ensures
        sum_totals(s.subrange(0, n)) <= sum_totals(s),
        sum_totals(s.subrange(0, n)) >= 0,
    decreases s.len() - n,
{
    if n < s.len() {
        lemma_sum_totals_prefix(s, n + 1);
        assert(s.subrange(0, n + 1).drop_last() =~= s.subrange(0, n));
        crate::histogram::lemma_total_nonneg(s[n].1);
        lemma_sum_totals_nonneg(s.subrange(0, n));
    } else {
        assert(s.subrange(0, n) =~= s);
        lemma_sum_totals_nonneg(s);
    }
}

proof fn lemma_sum_totals_nonneg(s: Seq<(LibraryType, HistogramView)>)
    ensures
        sum_totals(s) >= 0,
    decreases s.len(),
{
    if s.len() > 0 {
        lemma_sum_totals_nonneg(s.drop_last());
        crate::histogram::lemma_total_nonneg(s.last().1);
    }
}

proof fn lemma_merged_absent(s: Seq<(LibraryType, HistogramView)>, t: LibraryType)
    requires
        forall|i: int| 0 <= i < s.len() ==> (#[trigger] s[i]).0 != t,
    ensures
        merged_of(s, t) == Seq::<(Seq<u8>, u64)>::empty(),
    decreases s.len(),
{
    if s.len() > 0 {
        assert(s.last().0 != t);
        lemma_merged_absent(s.drop_last(), t);
    }
}

/// Merges the histograms of the samples by library type, in order of first
/// appearance: one histogram per library type, the sum of its samples'.
pub fn merge_by_library_type(samples: &Vec<(LibraryType, SimpleHistogram)>) -> (r: Vec<
    (LibraryType, SimpleHistogram),
>)
    requires
        forall|i: int| 0 <= i < samples@.len() ==> (#[trigger] samples@[i]).1.wf(),
        sum_totals(library_views(samples@)) <= u64::MAX,
    ensures
        forall|j: int| 0 <= j < r@.len() ==> (#[trigger] r@[j]).1.wf(),
        forall|i: int, j: int| 0 <= i < j < r@.len() ==> (#[trigger] r@[i]).0 != (#[trigger] r@[j]).0,
        forall|t: LibraryType|
            #[trigger] lists_type(samples@, samples@.len() as int, t) <==> lists_type(
                r@,
                r@.len() as int,
                t,
            ),
        forall|j: int|
            0 <= j < r@.len() ==> (#[trigger] r@[j]).1.view() == merged_of(
                library_views(samples@),
                r@[j].0,
            ),
        forall|j: int| 0 <= j < r@.len() ==> total_of((#[trigger] r@[j]).1.view()) <= sum_totals(library_views(samples@)),
{
    let ghost all = library_views(samples@);
    let mut out: Vec<(LibraryType, SimpleHistogram)> = Vec::new();
    let mut i: usize = 0;
    while i < samples.len()
        invariant
            0 <= i <= samples@.len(),
            all == library_views(samples@),
            forall|k: int| 0 <= k < samples@.len() ==> (#[trigger] samples@[k]).1.wf(),
            sum_totals(all) <= u64::MAX,
            forall|j: int| 0 <= j < out@.len() ==> (#[trigger] out@[j]).1.wf(),
            forall|a: int, b: int| 0 <= a < b < out@.len() ==> (#[trigger] out@[a]).0 != (#[trigger] out@[b]).0,
            forall|t: LibraryType|
                #[trigger] lists_type(samples@, i as int, t) <==> lists_type(
                    out@,
                    out@.len() as int,
                    t,
                ),
            forall|j: int|
                0 <= j < out@.len() ==> (#[trigger] out@[j]).1.view() == merged_of(
                    all.subrange(0, i as int),
                    out@[j].0,
                ),
            forall|j: int|
                0 <= j < out@.len() ==> total_of((#[trigger] out@[j]).1.view()) <= sum_totals(
                    all.subrange(0, i as int),
                ),
        decreases samples@.len() - i,
    {
        let t = samples[i].0;
        let ghost pre = all.subrange(0, i as int);
        let ghost post = all.subrange(0, i + 1);
        proof {
            assert(post.drop_last() =~= pre);
            assert(post.last() == (t, samples@[i as int].1.view()));
            lemma_sum_totals_prefix(all, i + 1);
            lemma_sum_totals_prefix(all, i as int);
            crate::histogram::lemma_total_nonneg(samples@[i as int].1.view());
        }
        let mut pos: usize = 0;
        while pos < out.len() && out[pos].0 != t
            invariant
                0 <= pos <= out@.len(),
                forall|j: int| 0 <= j < pos ==> (#[trigger] out@[j]).0 != t,
            decreases out@.len() - pos,
        {
            pos += 1;
        }
        let ghost old_out = out@;
        if pos < out.len() {
            let (t0, mut h) = out.remove(pos);
            h.merge(&samples[i].1);
            out.insert(pos, (t0, h));
            proof {
                assert forall|j: int| 0 <= j < out@.len() implies (#[trigger] out@[j]).1.view()
                    == merged_of(post, out@[j].0) by {
                    if j != pos {
                        assert(out@[j] == old_out[j]);
                    }
                }
                assert forall|j: int| 0 <= j < out@.len() implies total_of(
                    (#[trigger] out@[j]).1.view(),
                ) <= sum_totals(post) by {
                    if j != pos {
                        assert(out@[j] == old_out[j]);
                    }
                }
                assert forall|a: int, b: int| 0 <= a < b < out@.len() implies (#[trigger] out@[a]).0
                    != (#[trigger] out@[b]).0 by {
                    assert(out@[a].0 == old_out[a].0);
                    assert(out@[b].0 == old_out[b].0);
                }
                assert forall|j: int| 0 <= j < out@.len() implies (#[trigger] out@[j]).1.wf() by {
                    if j != pos {
                        assert(out@[j] == old_out[j]);
                    }
                }
                assert forall|u: LibraryType|
                    #[trigger] lists_type(samples@, i + 1, u) <==> lists_type(
                        out@,
                        out@.len() as int,
                        u,
                    ) by {
                    assert(lists_type(samples@, i as int, u) <==> lists_type(
                        old_out,
                        old_out.len() as int,
                        u,
                    ));
                    if exists|k: int| 0 <= k < i + 1 && (#[trigger] samples@[k]).0 == u {
                        let k = choose|k: int| 0 <= k < i + 1 && (#[trigger] samples@[k]).0 == u;
                        if k == i {
                            assert(out@[pos as int].0 == u);
                        } else {
                            let j = choose|j: int| 0 <= j < old_out.len() && (#[trigger] old_out[j]).0 == u;
                            assert(out@[j].0 == u);
                        }
                    }
                    if exists|j: int| 0 <= j < out@.len() && (#[trigger] out@[j]).0 == u {
                        let j = choose|j: int| 0 <= j < out@.len() && (#[trigger] out@[j]).0 == u;
                        assert(old_out[j].0 == u);
                    }
                }
            }
        } else {
            let mut h = SimpleHistogram::new();
            proof {
                crate::histogram::lemma_total_nonneg(samples@[i as int].1.view());
                assert forall|k: int| 0 <= k < pre.len() implies (#[trigger] pre[k]).0 != t by {
                    assert(pre[k].0 == samples@[k].0);
                    if samples@[k].0 == t {
                        assert(lists_type(samples@, i as int, t));
                        assert(lists_type(out@, out@.len() as int, t));
                        let j = choose|j: int| 0 <= j < out@.len() && (#[trigger] out@[j]).0 == t;
                        assert(out@[j].0 != t);
                    }
                }
                lemma_merged_absent(pre, t);
            }
            h.merge(&samples[i].1);
            out.push((t, h));
            proof {
                assert forall|j: int| 0 <= j < out@.len() implies (#[trigger] out@[j]).1.view()
                    == merged_of(post, out@[j].0) by {
                    if j < old_out.len() {
                        assert(out@[j] == old_out[j]);
                    }
                }
                assert forall|j: int| 0 <= j < out@.len() implies total_of(
                    (#[trigger] out@[j]).1.view(),
                ) <= sum_totals(post) by {
                    if j < old_out.len() {
                        assert(out@[j] == old_out[j]);
                    }
                }
                assert forall|j: int| 0 <= j < out@.len() implies (#[trigger] out@[j]).1.wf() by {
                    if j < old_out.len() {
                        assert(out@[j] == old_out[j]);
                    }
                }
                assert forall|a: int, b: int| 0 <= a < b < out@.len() implies (#[trigger] out@[a]).0
                    != (#[trigger] out@[b]).0 by {
                    assert(out@[a] == old_out[a]);
                    if b < old_out.len() {
                        assert(out@[b] == old_out[b]);
                    }
                }
                assert forall|u: LibraryType|
                    #[trigger] lists_type(samples@, i + 1, u) <==> lists_type(
                        out@,
                        out@.len() as int,
                        u,
                    ) by {
                    assert(lists_type(samples@, i as int, u) <==> lists_type(
                        old_out,
                        old_out.len() as int,
                        u,
                    ));
                    if exists|k: int| 0 <= k < i + 1 && (#[trigger] samples@[k]).0 == u {
                        let k = choose|k: int| 0 <= k < i + 1 && (#[trigger] samples@[k]).0 == u;
                        if k == i {
                            assert(out@[old_out.len() as int].0 == u);
                        } else {
                            let j = choose|j: int| 0 <= j < old_out.len() && (#[trigger] old_out[j]).0 == u;
                            assert(out@[j].0 == u);
                        }
                    }
                    if exists|j: int| 0 <= j < out@.len() && (#[trigger] out@[j]).0 == u {
                        let j = choose|j: int| 0 <= j < out@.len() && (#[trigger] out@[j]).0 == u;
                        if j < old_out.len() {
                            assert(old_out[j].0 == u);
                        } else {
                            assert(samples@[i as int].0 == u);
                        }
                    }
                }
            }
        }
        i += 1;
    }
    proof {
        assert(all.subrange(0, all.len() as int) =~= all);
    }
    out
}

/// The decision depends on its inputs alone: equal histograms, whitelist,
/// switch and threshold give the same libraries to translate and the same
/// outcome of the check.
pub proof fn lemma_decision_deterministic(
    gex_a: HistogramView,
    gex_b: HistogramView,
    libs_a: Seq<(LibraryType, HistogramView)>,
    libs_b: Seq<(LibraryType, HistogramView)>,
    translation: Option<&Whitelist>,
    check: bool,
    num: int,
    den: int,
)
    requires
        gex_a == gex_b,
        libs_a == libs_b,
    ensures
        spec_decide(gex_a, libs_a, translation, check, num, den) == spec_decide(
            gex_b,
            libs_b,
            translation,
            check,
            num,
            den,
        ),
{
}

} // verus!
