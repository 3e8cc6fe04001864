use vstd::prelude::*;

verus! {

/// The errors of resolving, reading and combining whitelists.
#[derive(Clone, Copy, Debug, PartialEq, Eq, Structural)]
pub enum WhitelistError {
    /// The locator found no file for the whitelist's name or slide.
    UnresolvedWhitelist,
    /// A flat spec record sets no valid combination of fields.
    AmbiguousWhitelistSpec,
    /// A whitelist line is empty, or holds a sequence that is not a barcode
    /// or an identifier longer than a barcode identifier can be.
    MalformedEntry,
    /// A translation was asked of a whitelist whose entries lack it.
    NotATranslationWhitelist,
    /// An identifier lookup was asked of entries without the translated
    /// sequence or the identifier column.
    TranslationColumnsMissing,
    /// One identifier appears with two different translated sequences.
    ConflictingTranslation,
    /// A mapped translation was asked of or into a whitelist that is not a
    /// translation whitelist.
    TranslationPreconditionViolated,
    /// Two distinct whitelists share a barcode identifier.
    IdOverlapBetweenWhitelists,
    /// A mapped identifier is in neither whitelist.
    IdNotFoundInCombinedWhitelist,
}

/// Which half of a dual-part spatial barcode a slide whitelist covers.
#[derive(Clone, Copy, Debug, PartialEq, Eq, Structural)]
pub enum OligoPart {
    Bc1,
    Bc2,
}

/// The three ways to name a whitelist.
#[derive(Debug, Clone)]
pub enum WhitelistSpec {
    /// A whitelist shipped with the pipeline, found by name.
    TxtFile { name: String },
    /// A translation whitelist written earlier in the same run.
    DynamicTranslation { translation_whitelist_path: String },
    /// One part of the oligo layout of a spatial slide design.
    SlideFile { slide: String, part: OligoPart },
}

/// The flat record in which a `WhitelistSpec` is stored: a valid record sets
/// exactly `name`, or exactly `translation_whitelist_path`, or exactly
/// `slide` and `part`.
#[derive(Debug, Clone)]
pub struct WhitelistSpecFlat {
    pub name: Option<String>,
    pub translation_whitelist_path: Option<String>,
    pub slide: Option<String>,
    pub part: Option<OligoPart>,
}

/// A resolved whitelist: the file to read it from.
#[derive(Debug, Clone)]
pub enum WhitelistSource {
    /// A headerless text file of sequences, with optional translated
    /// sequences and identifiers.
    TxtFile { path: String },
    /// A translation whitelist; its lines always hold two sequences.
    DynamicTranslation { path: String },
    /// The oligo layout of one part of a slide design.
    SlideFile { path: String, part: OligoPart },
}

/// The part of a barcode that each role of a barcode construct covers.
#[derive(Debug, Clone)]
pub struct GelBeadAndProbeConstruct<G> {
    pub gel_bead: G,
    pub probe: G,
}

/// How the barcode of a chemistry is built: from a gel bead barcode alone,
/// from a gel bead and a probe barcode, or from a number of segments.
#[derive(Debug, Clone)]
pub enum BarcodeConstruct<G> {
    GelBeadOnly(G),
    GelBeadAndProbe(GelBeadAndProbeConstruct<G>),
    Segmented(Vec<G>),
}

impl<G> BarcodeConstruct<G> {
    /// The roles of the construct in order: the gel bead, then the probe; or
    /// the segments.
    pub open spec fn roles(&self) -> Seq<G> {
        match self {
            BarcodeConstruct::GelBeadOnly(g) => seq![*g],
            BarcodeConstruct::GelBeadAndProbe(c) => seq![c.gel_bead, c.probe],
            BarcodeConstruct::Segmented(v) => v@,
        }
    }

    /// The same shape: the same variant and the same number of roles.
    pub open spec fn same_shape<H>(&self, other: &BarcodeConstruct<H>) -> bool {
        match (self, other) {
            (BarcodeConstruct::GelBeadOnly(_), BarcodeConstruct::GelBeadOnly(_)) => true,
            (BarcodeConstruct::GelBeadAndProbe(_), BarcodeConstruct::GelBeadAndProbe(_)) => true,
            (BarcodeConstruct::Segmented(a), BarcodeConstruct::Segmented(b)) => a@.len() == b@.len(),
            _ => false,
        }
    }

    /// The gel bead barcode, where the construct has one.
    pub fn gel_bead(&self) -> (r: Option<&G>)
        ensures
            r == match self {
                BarcodeConstruct::GelBeadOnly(g) => Some(g),
                BarcodeConstruct::GelBeadAndProbe(c) => Some(&c.gel_bead),
                BarcodeConstruct::Segmented(_) => None,
            },
    {
        match self {
            BarcodeConstruct::GelBeadOnly(g) => Some(g),
            BarcodeConstruct::GelBeadAndProbe(c) => Some(&c.gel_bead),
            BarcodeConstruct::Segmented(_) => None,
        }
    }
}

/// Whether each role of a construct is resolved to its translation
/// whitelist: the gel bead role as asked, the probe role always, segments
/// never.
pub open spec fn spec_translation_flags<G>(c: &BarcodeConstruct<G>, gel_bead_translation: bool) -> Seq<bool> {
    match c {
        BarcodeConstruct::GelBeadOnly(_) => seq![gel_bead_translation],
        BarcodeConstruct::GelBeadAndProbe(_) => seq![gel_bead_translation, true],
        BarcodeConstruct::Segmented(v) => Seq::new(v@.len(), |i: int| false),
    }
}

/// For each role of `spec`, whether it is to be resolved to its translation
/// whitelist. Probe barcodes are always multiplexed through a translation
/// whitelist; segmented barcodes never are.
pub fn translation_flags<G>(spec: &BarcodeConstruct<G>, gel_bead_translation: bool) -> (r:
    BarcodeConstruct<bool>)
    ensures
        r.same_shape(spec),
        r.roles() == spec_translation_flags(spec, gel_bead_translation),
{
    match spec {
        BarcodeConstruct::GelBeadOnly(_) => BarcodeConstruct::GelBeadOnly(gel_bead_translation),
        BarcodeConstruct::GelBeadAndProbe(_) => BarcodeConstruct::GelBeadAndProbe(
            GelBeadAndProbeConstruct { gel_bead: gel_bead_translation, probe: true },
        ),
        BarcodeConstruct::Segmented(v) => {
            let mut flags: Vec<bool> = Vec::new();
            let mut i: usize = 0;
            while i < v.len()
                invariant
                    0 <= i <= v@.len(),
                    flags@ =~= Seq::new(i as nat, |j: int| false),
                decreases v@.len() - i,
            {
                flags.push(false);
                i += 1;
            }
            let r = BarcodeConstruct::Segmented(flags);
            assert(r.roles() =~= spec_translation_flags(spec, gel_bead_translation));
            r
        },
    }
}

/// What resolving a spec gives, where the locator answered `located` for
/// the spec's name or slide.
pub open spec fn spec_as_source(spec: WhitelistSpec, located: Option<String>) -> Result<
    WhitelistSource,
    WhitelistError,
> {
    match spec {
        WhitelistSpec::TxtFile { name } => match located {
            Some(p) => Ok(WhitelistSource::TxtFile { path: p }),
            None => Err(WhitelistError::UnresolvedWhitelist),
        },
        WhitelistSpec::DynamicTranslation { translation_whitelist_path } => Ok(
            WhitelistSource::DynamicTranslation { path: translation_whitelist_path },
        ),
        WhitelistSpec::SlideFile { slide, part } => match located {
            Some(p) => Ok(WhitelistSource::SlideFile { path: p, part }),
            None => Err(WhitelistError::UnresolvedWhitelist),
        },
    }
}

/// The flat record of a spec.
pub open spec fn spec_flat_of(spec: WhitelistSpec) -> WhitelistSpecFlat {
    match spec {
        WhitelistSpec::TxtFile { name } => WhitelistSpecFlat {
            name: Some(name),
            translation_whitelist_path: None,
            slide: None,
            part: None,
        },
        WhitelistSpec::DynamicTranslation { translation_whitelist_path } => WhitelistSpecFlat {
            name: None,
            translation_whitelist_path: Some(translation_whitelist_path),
            slide: None,
            part: None,
        },
        WhitelistSpec::SlideFile { slide, part } => WhitelistSpecFlat {
            name: None,
            translation_whitelist_path: None,
            slide: Some(slide),
            part: Some(part),
        },
    }
}

/// The spec that a flat record stands for, or the error for a record that
/// sets no valid combination of fields.
pub open spec fn spec_from_flat(flat: WhitelistSpecFlat) -> Result<WhitelistSpec, WhitelistError> {
    match (flat.name, flat.translation_whitelist_path, flat.slide, flat.part) {
        (Some(name), None, None, None) => Ok(WhitelistSpec::TxtFile { name }),
        (None, Some(path), None, None) => Ok(
            WhitelistSpec::DynamicTranslation { translation_whitelist_path: path },
        ),
        (None, None, Some(slide), Some(part)) => Ok(WhitelistSpec::SlideFile { slide, part }),
        _ => Err(WhitelistError::AmbiguousWhitelistSpec),
    }
}

impl WhitelistSpec {
    /// The name of a whitelist shipped with the pipeline.
    pub fn whitelist_name(&self) -> (r: Option<&String>)
        ensures
            r == match self {
                WhitelistSpec::TxtFile { name } => Some(name),
                _ => None::<&String>,
            },
    {
        match self {
            WhitelistSpec::TxtFile { name } => Some(name),
            _ => None,
        }
    }

    /// The slide of a slide design whitelist.
    pub fn slide_name(&self) -> (r: Option<&String>)
        ensures
            r == match self {
                WhitelistSpec::SlideFile { slide, .. } => Some(slide),
                _ => None::<&String>,
            },
    {
        match self {
            WhitelistSpec::SlideFile { slide, .. } => Some(slide),
            _ => None,
        }
    }

    /// The source of this spec, given what the whitelist locator found for
    /// its name or slide (with or without translation, as the caller asked
    /// it). A dynamic translation whitelist needs no lookup.
    pub fn as_source(&self, located: Option<String>) -> (r: Result<WhitelistSource, WhitelistError>)
        ensures
            r == spec_as_source(*self, located),
    {
        match self {
            WhitelistSpec::TxtFile { .. } => match located {
                Some(p) => Ok(WhitelistSource::TxtFile { path: p }),
                None => Err(WhitelistError::UnresolvedWhitelist),
            },
            WhitelistSpec::DynamicTranslation { translation_whitelist_path } => Ok(
                WhitelistSource::DynamicTranslation { path: translation_whitelist_path.clone() },
            ),
            WhitelistSpec::SlideFile { part, .. } => match located {
                Some(p) => Ok(WhitelistSource::SlideFile { path: p, part: *part }),
                None => Err(WhitelistError::UnresolvedWhitelist),
            },
        }
    }

    /// A copy of this spec.
    pub fn duplicate(&self) -> (r: WhitelistSpec)
        ensures
            r == *self,
    {
        match self {
            WhitelistSpec::TxtFile { name } => WhitelistSpec::TxtFile { name: name.clone() },
            WhitelistSpec::DynamicTranslation { translation_whitelist_path } => WhitelistSpec::DynamicTranslation {
                translation_whitelist_path: translation_whitelist_path.clone(),
            },
            WhitelistSpec::SlideFile { slide, part } => WhitelistSpec::SlideFile {
                slide: slide.clone(),
                part: *part,
            },
        }
    }

    /// The spec that a flat record stands for; a record with more or fewer
    /// fields set than one variant takes is refused.
    pub fn from_flat(flat: WhitelistSpecFlat) -> (r: Result<WhitelistSpec, WhitelistError>)
        ensures
            r == spec_from_flat(flat),
    {
        match (flat.name, flat.translation_whitelist_path, flat.slide, flat.part) {
            (Some(name), None, None, None) => Ok(WhitelistSpec::TxtFile { name }),
            (None, Some(path), None, None) => Ok(
                WhitelistSpec::DynamicTranslation { translation_whitelist_path: path },
            ),
            (None, None, Some(slide), Some(part)) => Ok(WhitelistSpec::SlideFile { slide, part }),
            _ => Err(WhitelistError::AmbiguousWhitelistSpec),
        }
    }

    /// The flat record of this spec.
    pub fn to_flat(self) -> (r: WhitelistSpecFlat)
        ensures
            r == spec_flat_of(self),
    {
        match self {
            WhitelistSpec::TxtFile { name } => WhitelistSpecFlat {
                name: Some(name),
                translation_whitelist_path: None,
                slide: None,
                part: None,
            },
            WhitelistSpec::DynamicTranslation { translation_whitelist_path } => WhitelistSpecFlat {
                name: None,
                translation_whitelist_path: Some(translation_whitelist_path),
                slide: None,
                part: None,
            },
            WhitelistSpec::SlideFile { slide, part } => WhitelistSpecFlat {
                name: None,
                translation_whitelist_path: None,
                slide: Some(slide),
                part: Some(part),
            },
        }
    }
}

impl From<WhitelistSpec> for WhitelistSpecFlat {
    fn from(spec: WhitelistSpec) -> (r: WhitelistSpecFlat) {
        spec.to_flat()
    }
}

impl vstd::std_specs::convert::FromSpecImpl<WhitelistSpec> for WhitelistSpecFlat {
    open spec fn obeys_from_spec() -> bool {
        true
    }

    open spec fn from_spec(spec: WhitelistSpec) -> WhitelistSpecFlat {
        spec_flat_of(spec)
    }
}

impl TryFrom<WhitelistSpecFlat> for WhitelistSpec {
    type Error = WhitelistError;

    fn try_from(flat: WhitelistSpecFlat) -> (r: Result<WhitelistSpec, WhitelistError>) {
        WhitelistSpec::from_flat(flat)
    }
}

impl vstd::std_specs::convert::TryFromSpecImpl<WhitelistSpecFlat> for WhitelistSpec {
    open spec fn obeys_try_from_spec() -> bool {
        true
    }

    open spec fn try_from_spec(flat: WhitelistSpecFlat) -> Result<WhitelistSpec, WhitelistError> {
        spec_from_flat(flat)
    }
}

/// Two specs name the same whitelist.
pub open spec fn spec_same_spec(a: WhitelistSpec, b: WhitelistSpec) -> bool {
    match (a, b) {
        (WhitelistSpec::TxtFile { name: x }, WhitelistSpec::TxtFile { name: y }) => x@ == y@,
        (
            WhitelistSpec::DynamicTranslation { translation_whitelist_path: x },
            WhitelistSpec::DynamicTranslation { translation_whitelist_path: y },
        ) => x@ == y@,
        (
            WhitelistSpec::SlideFile { slide: x, part: p },
            WhitelistSpec::SlideFile { slide: y, part: q },
        ) => x@ == y@ && p == q,
        _ => false,
    }
}

impl PartialEq for WhitelistSpec {
    fn eq(&self, other: &WhitelistSpec) -> (r: bool) {
        match (self, other) {
            (WhitelistSpec::TxtFile { name: x }, WhitelistSpec::TxtFile { name: y }) => *x == *y,
            (
                WhitelistSpec::DynamicTranslation { translation_whitelist_path: x },
                WhitelistSpec::DynamicTranslation { translation_whitelist_path: y },
            ) => *x == *y,
            (
                WhitelistSpec::SlideFile { slide: x, part: p },
                WhitelistSpec::SlideFile { slide: y, part: q },
            ) => *x == *y && *p == *q,
            _ => false,
        }
    }
}

impl vstd::std_specs::cmp::PartialEqSpecImpl for WhitelistSpec {
    open spec fn obeys_eq_spec() -> bool {
        true
    }

    open spec fn eq_spec(&self, other: &WhitelistSpec) -> bool {
        spec_same_spec(*self, *other)
    }
}

/// Two sources read the same file the same way.
pub open spec fn spec_same_source(a: WhitelistSource, b: WhitelistSource) -> bool {
    match (a, b) {
        (WhitelistSource::TxtFile { path: x }, WhitelistSource::TxtFile { path: y }) => x@ == y@,
        (
            WhitelistSource::DynamicTranslation { path: x },
            WhitelistSource::DynamicTranslation { path: y },
        ) => x@ == y@,
        (
            WhitelistSource::SlideFile { path: x, part: p },
            WhitelistSource::SlideFile { path: y, part: q },
        ) => x@ == y@ && p == q,
        _ => false,
    }
}

impl PartialEq for WhitelistSource {
    fn eq(&self, other: &WhitelistSource) -> (r: bool) {
        match (self, other) {
            (WhitelistSource::TxtFile { path: x }, WhitelistSource::TxtFile { path: y }) => *x == *y,
            (
                WhitelistSource::DynamicTranslation { path: x },
                WhitelistSource::DynamicTranslation { path: y },
            ) => *x == *y,
            (
                WhitelistSource::SlideFile { path: x, part: p },
                WhitelistSource::SlideFile { path: y, part: q },
            ) => *x == *y && *p == *q,
            _ => false,
        }
    }
}

impl vstd::std_specs::cmp::PartialEqSpecImpl for WhitelistSource {
    open spec fn obeys_eq_spec() -> bool {
        true
    }

    open spec fn eq_spec(&self, other: &WhitelistSource) -> bool {
        spec_same_source(*self, *other)
    }
}

/// Position `i` holds the last `/` of `p`.
pub open spec fn is_last_slash(p: Seq<char>, i: int) -> bool {
    &&& 0 <= i < p.len()
    &&& p[i] == '/'
    &&& forall|j: int| i < j < p.len() ==> p[j] != '/'
}

/// The directory name that marks a translation whitelist.
pub open spec fn translation_dir() -> Seq<char> {
    seq!['t', 'r', 'a', 'n', 's', 'l', 'a', 't', 'i', 'o', 'n']
}

/// The file at `p` lies in a directory named `translation`: the path is
/// `translation/<file>` or ends in `/translation/<file>`, with a file name
/// that is not empty.
pub open spec fn in_translation_dir(p: Seq<char>) -> bool {
    exists|i: int|
        is_last_slash(p, i) && i + 1 < p.len() && (p.subrange(0, i) == translation_dir() || (i
            >= 12 && p[i - 12] == '/' && p.subrange(i - 11, i) == translation_dir()))
}

fn is_translation_path(p: &String) -> (r: bool)
    ensures
        r == in_translation_dir(p@),
{
    let s = p.as_str();
    let n = s.unicode_len();
    let mut i: usize = n;
    while i > 0 && s.get_char(i - 1) != '/'
        invariant
            0 <= i <= n,
            n == s@.len(),
            s@ == p@,
            forall|j: int| i <= j < n ==> s@[j] != '/',
        decreases i,
    {
        i -= 1;
    }
    if i == 0 || i == n {
        proof {
            if exists|k: int| is_last_slash(p@, k) && k + 1 < p@.len() {
                let k = choose|k: int| is_last_slash(p@, k) && k + 1 < p@.len();
                if i == n {
                    assert(p@[n - 1] == '/');
                }
                assert(false);
            }
        }
        return false;
    }
    let slash: usize = i - 1;
    proof {
        assert(is_last_slash(p@, slash as int));
        assert forall|k: int| is_last_slash(p@, k) implies k == slash as int by {
            if k < slash {
                assert(p@[slash as int] != '/');
            }
        }
    }
    let word: [char; 11] = ['t', 'r', 'a', 'n', 's', 'l', 'a', 't', 'i', 'o', 'n'];
    if slash < 11 {
        proof {
            if p@.subrange(0, slash as int) == translation_dir() {
                assert(p@.subrange(0, slash as int).len() == 11);
            }
        }
        return false;
    }
    let start: usize = slash - 11;
    let mut k: usize = 0;
    while k < 11
        invariant
            0 <= k <= 11,
            start + 11 == slash,
            slash < n,
            n == s@.len(),
            s@ == p@,
            word@ == translation_dir(),
            forall|j: int| 0 <= j < k ==> s@[start + j] == word@[j],
            is_last_slash(p@, slash as int),
            forall|j: int| is_last_slash(p@, j) ==> j == slash as int,
        decreases 11 - k,
    {
        if s.get_char(start + k) != word[k] {
            proof {
                assert(p@.subrange(start as int, slash as int)[k as int] != translation_dir()[k as int]);
                assert(p@.subrange(start as int, slash as int) != translation_dir());
                if slash == 11 {
                    assert(start == 0);
                }
                if in_translation_dir(p@) {
                    let j = choose|j: int|
                        is_last_slash(p@, j) && j + 1 < p@.len() && (p@.subrange(0, j)
                            == translation_dir() || (j >= 12 && p@[j - 12] == '/' && p@.subrange(
                            j - 11,
                            j,
                        ) == translation_dir()));
                    assert(j == slash);
                    assert(p@.subrange(0, j).len() == j);
                }
            }
            return false;
        }
        k += 1;
    }
    proof {
        assert(p@.subrange(start as int, slash as int) =~= translation_dir());
    }
    if start == 0 {
        proof {
            assert(in_translation_dir(p@));
        }
        return true;
    }
    let r = s.get_char(start - 1) == '/';
    proof {
        if r {
            assert(in_translation_dir(p@));
        } else {
            assert(p@.subrange(0, slash as int).len() != 11);
            assert(!in_translation_dir(p@));
        }
    }
    r
}

/// What resolving each role of a construct gives: the sources in role
/// order, or the error of the first role that fails.
pub open spec fn spec_construct_ok(
    spec: &BarcodeConstruct<WhitelistSpec>,
    located: &BarcodeConstruct<Option<String>>,
) -> bool {
    forall|i: int|
        0 <= i < spec.roles().len() ==> #[trigger] spec_as_source(spec.roles()[i], located.roles()[i])
            is Ok
}

impl WhitelistSource {
    /// The source of a plain text whitelist at `path`.
    pub fn txt_file(path: String) -> (r: WhitelistSource)
        ensures
            r == (WhitelistSource::TxtFile { path }),
    {
        WhitelistSource::TxtFile { path }
    }

    /// Whether this is a translation whitelist: a dynamic translation
    /// whitelist, or a text whitelist kept in a directory named
    /// `translation` (the convention of the whitelist folder). A slide
    /// layout never is.
    pub open spec fn spec_is_translation(&self) -> bool {
        match self {
            WhitelistSource::TxtFile { path } => in_translation_dir(path@),
            WhitelistSource::DynamicTranslation { .. } => true,
            WhitelistSource::SlideFile { .. } => false,
        }
    }

    pub fn is_translation(&self) -> (r: bool)
        ensures
            r == self.spec_is_translation(),
    {
        match self {
            WhitelistSource::TxtFile { path } => is_translation_path(path),
            WhitelistSource::DynamicTranslation { .. } => true,
            WhitelistSource::SlideFile { .. } => false,
        }
    }

    /// The sources of the roles of a construct, given what the locator
    /// found for each role (as `translation_flags` asked it): an error where
    /// any role is unresolved.
    pub fn construct(
        spec: &BarcodeConstruct<WhitelistSpec>,
        located: BarcodeConstruct<Option<String>>,
    ) -> (r: Result<BarcodeConstruct<WhitelistSource>, WhitelistError>)
        requires
            located.same_shape(spec),
        ensures
            r is Ok <==> spec_construct_ok(spec, &located),
            r matches Ok(c) ==> c.same_shape(spec) && c.roles().len() == spec.roles().len() && forall|i: int|
                0 <= i < spec.roles().len() ==> spec_as_source(spec.roles()[i], located.roles()[i])
                    == Ok::<WhitelistSource, WhitelistError>(#[trigger] c.roles()[i]),
            r matches Err(e) ==> e == WhitelistError::UnresolvedWhitelist,
    {
        match (spec, located) {
            (BarcodeConstruct::GelBeadOnly(s), BarcodeConstruct::GelBeadOnly(l)) => {
                let src = s.as_source(l);
                match src {
                    Ok(x) => {
                        proof {
                            assert(spec_as_source(spec.roles()[0], located.roles()[0]) is Ok);
                        }
                        Ok(BarcodeConstruct::GelBeadOnly(x))
                    },
                    Err(e) => {
                        proof {
                            assert(spec_as_source(spec.roles()[0], located.roles()[0]) is Err);
                            assert(spec_as_source(*s, l) is Err);
                            assert(e == WhitelistError::UnresolvedWhitelist);
                        }
                        Err(e)
                    },
                }
            },
            (BarcodeConstruct::GelBeadAndProbe(s), BarcodeConstruct::GelBeadAndProbe(l)) => {
                let ghost lg = l.gel_bead;
                let ghost lp = l.probe;
                let g = s.gel_bead.as_source(l.gel_bead);
                let p = s.probe.as_source(l.probe);
                proof {
                    assert(spec.roles()[0] == s.gel_bead && located.roles()[0] == lg);
                    assert(spec.roles()[1] == s.probe && located.roles()[1] == lp);
                }
                match (g, p) {
                    (Ok(g), Ok(p)) => {
                        let r = BarcodeConstruct::GelBeadAndProbe(
                            GelBeadAndProbeConstruct { gel_bead: g, probe: p },
                        );
                        proof {
                            assert forall|i: int| 0 <= i < spec.roles().len() implies #[trigger] spec_as_source(
                                spec.roles()[i],
                                located.roles()[i],
                            ) is Ok by {
                                if i == 0 {
                                } else {
                                    assert(i == 1);
                                }
                            }
                            assert(r.roles()[0] == g && r.roles()[1] == p);
                        }
                        Ok(r)
                    },
                    (Err(e), _) => {
                        proof {
                            assert(spec_as_source(spec.roles()[0], located.roles()[0]) is Err);
                        }
                        Err(e)
                    },
                    (_, Err(e)) => {
                        proof {
                            assert(spec_as_source(spec.roles()[1], located.roles()[1]) is Err);
                        }
                        Err(e)
                    },
                }
            },
            (BarcodeConstruct::Segmented(s), BarcodeConstruct::Segmented(l)) => {
                let ghost sv = s@;
                let ghost lv = l@;
                proof {
                    assert(spec.roles() == sv);
                    assert(located.roles() == lv);
                }
                let mut l = l;
                let mut rest: Vec<Option<String>> = Vec::new();
                while l.len() > 0
                    invariant
                        rest@ + l@.reverse() =~= lv.reverse(),
                    decreases l.len(),
                {
                    let x = l.pop().unwrap();
                    proof {
                        assert(rest@.push(x) + l@.reverse() =~= rest@ + l@.push(x).reverse());
                    }
                    rest.push(x);
                }
                let ghost rv = rest@;
                assert(rv =~= lv.reverse());
                let mut out: Vec<WhitelistSource> = Vec::new();
                let mut i: usize = 0;
                while i < s.len()
                    invariant
                        0 <= i <= s@.len(),
                        s@ == sv,
                        spec.roles() == sv,
                        located.roles() == lv,
                        sv.len() == lv.len(),
                        rv == lv.reverse(),
                        rest@ =~= rv.subrange(0, rv.len() - i),
                        out@.len() == i,
                        forall|j: int|
                            0 <= j < i ==> spec_as_source(sv[j], lv[j]) == Ok::<
                                WhitelistSource,
                                WhitelistError,
                            >(#[trigger] out@[j]),
                    decreases s@.len() - i,
                {
                    let x = rest.pop().unwrap();
                    proof {
                        assert(x == rv[rv.len() - i - 1]);
                        assert(x == lv[i as int]);
                    }
                    match s[i].as_source(x) {
                        Ok(src) => {
                            out.push(src);
                        },
                        Err(e) => {
                            proof {
                                assert(spec_as_source(spec.roles()[i as int], located.roles()[i as int]) is Err);
                            }
                            return Err(e);
                        },
                    }
                    i += 1;
                }
                let r = BarcodeConstruct::Segmented(out);
                proof {
                    assert(r.roles() == out@);
                    assert forall|j: int| 0 <= j < spec.roles().len() implies #[trigger] spec_as_source(
                        spec.roles()[j],
                        located.roles()[j],
                    ) is Ok by {
                        assert(spec_as_source(sv[j], lv[j]) == Ok::<WhitelistSource, WhitelistError>(out@[j]));
                    }
                }
                Ok(r)
            },
            _ => {
                proof {
                    assert(false);
                }
                Err(WhitelistError::UnresolvedWhitelist)
            },
        }
    }
}

/// A spec read back from its flat record is the spec itself.
pub proof fn lemma_flat_round_trip(spec: WhitelistSpec)
    ensures
        spec_from_flat(spec_flat_of(spec)) == Ok::<WhitelistSpec, WhitelistError>(spec),
{
}

/// A flat record that sets two or more of a name, a translation whitelist
/// path, and a slide with its part is refused.
pub proof fn lemma_overfull_record_refused(flat: WhitelistSpecFlat)
    requires
        (flat.name is Some && flat.translation_whitelist_path is Some) || (flat.name is Some
            && flat.slide is Some && flat.part is Some) || (flat.translation_whitelist_path is Some
            && flat.slide is Some && flat.part is Some),
    ensures
        spec_from_flat(flat) == Err::<WhitelistSpec, WhitelistError>(
            WhitelistError::AmbiguousWhitelistSpec,
        ),
{
}

} // verus!
