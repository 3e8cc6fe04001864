use vstd::prelude::*;

use crate::entry::{entry_views, BarcodeId, Entry, EntryView};
use crate::sequence::BcSegSeq;
use crate::source::{spec_same_source, WhitelistError, WhitelistSource};
use crate::whitelist::pairs_map;

verus! {

/// One line of a mapped translation whitelist: a sequence, its new
/// translated sequence and its identifier.
pub type TranslatedEntry = (BcSegSeq, BcSegSeq, BarcodeId);

/// Whether two byte strings are equal.
pub fn bytes_eq(a: &[u8], b: &[u8]) -> (r: bool)
    ensures
        r == (a@ == b@),
{
    if a.len() != b.len() {
        return false;
    }
    let mut i: usize = 0;
    while i < a.len()
        invariant
            0 <= i <= a@.len(),
            a@.len() == b@.len(),
            forall|j: int| 0 <= j < i ==> a@[j] == b@[j],
        decreases a@.len() - i,
    {
        if a[i] != b[i] {
            return false;
        }
        i += 1;
    }
    assert(a@ =~= b@);
    true
}

/// Every entry has a translated sequence and an identifier.
pub open spec fn has_id_columns(v: Seq<EntryView>) -> bool {
    forall|i: int| 0 <= i < v.len() ==> (#[trigger] v[i]).1 is Some && v[i].2 is Some
}

/// Entry `i` is the first with identifier `id`.
pub open spec fn first_with_id(v: Seq<EntryView>, id: Seq<u8>, i: int) -> bool {
    &&& 0 <= i < v.len()
    &&& v[i].2 == Some(id)
    &&& forall|j: int| 0 <= j < i ==> v[j].2 != Some(id)
}

/// The translated sequence of the first entry with identifier `id`.
pub open spec fn id_translation(v: Seq<EntryView>, id: Seq<u8>) -> Option<Seq<u8>> {
    if exists|i: int| first_with_id(v, id, i) {
        v[choose|i: int| first_with_id(v, id, i)].1
    } else {
        None
    }
}

/// No identifier comes with two different translated sequences.
pub open spec fn consistent_ids(v: Seq<EntryView>) -> bool {
    forall|i: int, j: int|
        0 <= i < v.len() && 0 <= j < v.len() && (#[trigger] v[i]).2 == (#[trigger] v[j]).2
            ==> v[i].1 == v[j].1
}

/// Some identifier appears in both lists of entries.
pub open spec fn ids_overlap(v: Seq<EntryView>, w: Seq<EntryView>) -> bool {
    exists|i: int, j: int|
        0 <= i < v.len() && 0 <= j < w.len() && (#[trigger] v[i]).2 is Some && (#[trigger] w[j]).2
            == v[i].2
}

/// The identifier that `id` is mapped to, or `id` itself.
pub open spec fn effective_id(id_map: Seq<(Seq<u8>, Seq<u8>)>, id: Seq<u8>) -> Seq<u8> {
    if pairs_map(id_map).contains_key(id) {
        pairs_map(id_map)[id]
    } else {
        id
    }
}

/// The translated sequence of `id` in the combined whitelists: the
/// target's where it has the identifier, else the source's.
pub open spec fn combined_translation(v: Seq<EntryView>, w: Seq<EntryView>, id: Seq<u8>) -> Option<
    Seq<u8>,
> {
    if id_translation(w, id) is Some {
        id_translation(w, id)
    } else {
        id_translation(v, id)
    }
}

/// The mapped translation of source entries `v` into target entries `w`
/// under `id_map`: each source entry keeps its sequence and gets its mapped
/// identifier and that identifier's translated sequence in the combined
/// whitelists. `same` tells whether source and target are one whitelist.
pub open spec fn spec_mapped_translation(
    v: Seq<EntryView>,
    w: Seq<EntryView>,
    id_map: Seq<(Seq<u8>, Seq<u8>)>,
    same: bool,
) -> Result<Seq<(Seq<u8>, Seq<u8>, Seq<u8>)>, WhitelistError> {
    if !has_id_columns(v) || !has_id_columns(w) {
        Err(WhitelistError::TranslationColumnsMissing)
    } else if !consistent_ids(v) || !consistent_ids(w) {
        Err(WhitelistError::ConflictingTranslation)
    } else if !same && ids_overlap(v, w) {
        Err(WhitelistError::IdOverlapBetweenWhitelists)
    } else if exists|i: int|
        0 <= i < v.len() && combined_translation(
            v,
            w,
            effective_id(id_map, (#[trigger] v[i]).2->Some_0),
        ) is None {
        Err(WhitelistError::IdNotFoundInCombinedWhitelist)
    } else {
        Ok(
            Seq::new(
                v.len(),
                |i: int|
                    (
                        v[i].0,
                        combined_translation(v, w, effective_id(id_map, v[i].2->Some_0))->Some_0,
                        effective_id(id_map, v[i].2->Some_0),
                    ),
            ),
        )
    }
}

/// The views of the pairs of an identifier map.
pub open spec fn id_pair_views(m: Seq<(BarcodeId, BarcodeId)>) -> Seq<(Seq<u8>, Seq<u8>)> {
    m.map_values(|p: (BarcodeId, BarcodeId)| (p.0@, p.1@))
}

/// The views of mapped translation entries.
pub open spec fn translated_views(r: Seq<TranslatedEntry>) -> Seq<(Seq<u8>, Seq<u8>, Seq<u8>)> {
    r.map_values(|t: TranslatedEntry| (t.0@, t.1@, t.2@))
}

fn copy_id(v: &Vec<u8>) -> (r: Vec<u8>)
    ensures
        r@ == v@,
{
    let mut out: Vec<u8> = Vec::new();
    let mut i: usize = 0;
    while i < v.len()
        invariant
            0 <= i <= v@.len(),
            out@ =~= v@.subrange(0, i as int),
        decreases v@.len() - i,
    {
        out.push(v[i]);
        i += 1;
    }
    assert(out@ =~= v@);
    out
}

/// Whether every entry has a translated sequence and an identifier.
fn check_id_columns(entries: &Vec<Entry>) -> (r: bool)
    ensures
        r == has_id_columns(entry_views(entries@)),
{
    let mut i: usize = 0;
    while i < entries.len()
        invariant
            0 <= i <= entries@.len(),
            forall|j: int|
                0 <= j < i ==> (#[trigger] entry_views(entries@)[j]).1 is Some && entry_views(
                    entries@,
                )[j].2 is Some,
        decreases entries@.len() - i,
    {
        if entries[i].translated.is_none() || entries[i].id.is_none() {
            proof {
                assert(!((entry_views(entries@)[i as int]).1 is Some && entry_views(entries@)[i as int].2 is Some));
            }
            return false;
        }
        i += 1;
    }
    true
}

/// The index of the first entry with identifier `id`.
fn find_id(entries: &Vec<Entry>, id: &[u8]) -> (r: Option<usize>)
    ensures
        r matches Some(i) ==> first_with_id(entry_views(entries@), id@, i as int),
        r is None ==> forall|j: int|
            0 <= j < entries@.len() ==> (#[trigger] entry_views(entries@)[j]).2 != Some(id@),
{
    let ghost v = entry_views(entries@);
    let mut i: usize = 0;
    while i < entries.len()
        invariant
            0 <= i <= entries@.len(),
            v == entry_views(entries@),
            forall|j: int| 0 <= j < i ==> (#[trigger] v[j]).2 != Some(id@),
        decreases entries@.len() - i,
    {
        if let Some(x) = &entries[i].id {
            if bytes_eq(x.as_slice(), id) {
                return Some(i);
            }
        }
        i += 1;
    }
    None
}

proof fn lemma_first_with_id_unique(v: Seq<EntryView>, id: Seq<u8>, i: int)
    requires
        first_with_id(v, id, i),
    ensures
        (choose|k: int| first_with_id(v, id, k)) == i,
        id_translation(v, id) == v[i].1,
{
    let k = choose|k: int| first_with_id(v, id, k);
    assert(first_with_id(v, id, k));
    if k < i {
        assert(v[k].2 != Some(id));
    }
    if i < k {
        assert(v[i].2 != Some(id));
    }
}

/// The translated sequence of the first entry with identifier `id`.
fn lookup_translation<'a>(entries: &'a Vec<Entry>, id: &[u8]) -> (r: Option<&'a BcSegSeq>)
    requires
        has_id_columns(entry_views(entries@)),
    ensures
        r matches Some(t) ==> id_translation(entry_views(entries@), id@) == Some(t@),
        r is None ==> id_translation(entry_views(entries@), id@) is None,
{
    match find_id(entries, id) {
        Some(i) => {
            proof {
                lemma_first_with_id_unique(entry_views(entries@), id@, i as int);
                assert(entry_views(entries@)[i as int].1 is Some);
            }
            match &entries[i].translated {
                Some(t) => Some(t),
                None => None,
            }
        },
        None => {
            proof {
                assert(!exists|k: int| first_with_id(entry_views(entries@), id@, k));
            }
            None
        },
    }
}

/// Whether no identifier of the entries comes with two translated sequences.
fn check_consistent(entries: &Vec<Entry>) -> (r: bool)
    requires
        has_id_columns(entry_views(entries@)),
    ensures
        r == consistent_ids(entry_views(entries@)),
{
    let ghost v = entry_views(entries@);
    let mut i: usize = 0;
    while i < entries.len()
        invariant
            0 <= i <= entries@.len(),
            v == entry_views(entries@),
            has_id_columns(v),
            forall|j: int| 0 <= j < i ==> Some((#[trigger] v[j]).1->Some_0) == id_translation(v, v[j].2->Some_0),
        decreases entries@.len() - i,
    {
        assert(v[i as int].1 is Some && v[i as int].2 is Some);
        let id = match &entries[i].id {
            Some(x) => x,
            None => {
                return false;
            },
        };
        let t = match &entries[i].translated {
            Some(x) => x,
            None => {
                return false;
            },
        };
        match lookup_translation(entries, id.as_slice()) {
            Some(first) => {
                if !bytes_eq(first.seq(), t.seq()) {
                    proof {
                        let k = choose|k: int| first_with_id(v, id@, k);
                        assert(exists|k: int| first_with_id(v, id@, k)) by {
                            let ki = choose|k: int| first_with_id(v, id@, k);
                        }
                        assert(first_with_id(v, id@, k));
                        assert(v[k].2 == v[i as int].2);
                        assert(v[k].1 != v[i as int].1);
                    }
                    return false;
                }
            },
            None => {
                proof {
                    assert(!exists|k: int| first_with_id(v, id@, k));
                    assert(false) by {
                        let mut m: int = i as int;
                        assert(v[m].2 == Some(id@));
                        lemma_some_first(v, id@, m);
                    }
                }
                return false;
            },
        }
        i += 1;
    }
    proof {
        assert forall|a: int, b: int|
            0 <= a < v.len() && 0 <= b < v.len() && (#[trigger] v[a]).2 == (#[trigger] v[b]).2
                implies v[a].1 == v[b].1 by {
            assert(Some(v[a].1->Some_0) == id_translation(v, v[a].2->Some_0));
            assert(Some(v[b].1->Some_0) == id_translation(v, v[b].2->Some_0));
        }
    }
    true
}

/// Where some entry has identifier `id`, a first one does.
proof fn lemma_some_first(v: Seq<EntryView>, id: Seq<u8>, m: int)
    requires
        0 <= m < v.len(),
        v[m].2 == Some(id),
    ensures
        exists|k: int| first_with_id(v, id, k),
    decreases m,
{
    if exists|j: int| 0 <= j < m && v[j].2 == Some(id) {
        let j = choose|j: int| 0 <= j < m && v[j].2 == Some(id);
        lemma_some_first(v, id, j);
    } else {
        assert(first_with_id(v, id, m));
    }
}

/// Whether the two lists of entries share an identifier.
fn check_overlap(v: &Vec<Entry>, w: &Vec<Entry>) -> (r: bool)
    requires
        has_id_columns(entry_views(v@)),
        has_id_columns(entry_views(w@)),
    ensures
        r == ids_overlap(entry_views(v@), entry_views(w@)),
{
    let ghost vv = entry_views(v@);
    let ghost wv = entry_views(w@);
    let mut j: usize = 0;
    while j < w.len()
        invariant
            0 <= j <= w@.len(),
            vv == entry_views(v@),
            wv == entry_views(w@),
            has_id_columns(vv),
            has_id_columns(wv),
            forall|a: int, b: int|
                0 <= a < vv.len() && 0 <= b < j ==> (#[trigger] vv[a]).2 != (#[trigger] wv[b]).2,
        decreases w@.len() - j,
    {
        assert(wv[j as int].2 is Some);
        if let Some(id) = &w[j].id {
            match find_id(v, id.as_slice()) {
                Some(i) => {
                    proof {
                        assert(vv[i as int].2 is Some && wv[j as int].2 == vv[i as int].2);
                    }
                    return true;
                },
                None => {},
            }
        }
        j += 1;
    }
    proof {
        if ids_overlap(vv, wv) {
            let (a, b) = choose|a: int, b: int|
                0 <= a < vv.len() && 0 <= b < wv.len() && (#[trigger] vv[a]).2 is Some && (
                #[trigger] wv[b]).2 == vv[a].2;
            assert(vv[a].2 != wv[b].2);
        }
    }
    false
}

/// The identifier that `id` is mapped to, or `id` itself; of two pairs with
/// the same identifier the later one counts.
fn map_id<'a>(id_map: &'a Vec<(BarcodeId, BarcodeId)>, id: &'a Vec<u8>) -> (r: &'a Vec<u8>)
    ensures
        r@ == effective_id(id_pair_views(id_map@), id@),
{
    let ghost m = id_pair_views(id_map@);
    let mut i: usize = id_map.len();
    while i > 0
        invariant
            0 <= i <= id_map@.len(),
            m == id_pair_views(id_map@),
            forall|j: int| i <= j < id_map@.len() ==> (#[trigger] m[j]).0 != id@,
        decreases i,
    {
        if bytes_eq(id_map[i - 1].0.as_slice(), id.as_slice()) {
            proof {
                lemma_pairs_map_last(m, id@, i - 1);
            }
            return &id_map[i - 1].1;
        }
        i -= 1;
    }
    proof {
        lemma_pairs_map_absent(m, id@);
    }
    id
}

/// The last pair with key `k` gives its value.
proof fn lemma_pairs_map_last(m: Seq<(Seq<u8>, Seq<u8>)>, k: Seq<u8>, i: int)
    requires
        0 <= i < m.len(),
        m[i].0 == k,
        forall|j: int| i < j < m.len() ==> (#[trigger] m[j]).0 != k,
    ensures
        pairs_map(m).contains_key(k),
        pairs_map(m)[k] == m[i].1,
    decreases m.len(),
{
    if i < m.len() - 1 {
        assert(m.drop_last()[i] == m[i]);
        assert forall|j: int| i < j < m.drop_last().len() implies (#[trigger] m.drop_last()[j]).0 != k by {
            assert(m.drop_last()[j] == m[j]);
        }
        lemma_pairs_map_last(m.drop_last(), k, i);
    }
}

/// A key that no pair has is not in the map.
proof fn lemma_pairs_map_absent(m: Seq<(Seq<u8>, Seq<u8>)>, k: Seq<u8>)
    requires
        forall|j: int| 0 <= j < m.len() ==> (#[trigger] m[j]).0 != k,
    ensures
        !pairs_map(m).contains_key(k),
    decreases m.len(),
{
    if m.len() > 0 {
        assert forall|j: int| 0 <= j < m.drop_last().len() implies (#[trigger] m.drop_last()[j]).0 != k by {
            assert(m.drop_last()[j] == m[j]);
        }
        lemma_pairs_map_absent(m.drop_last(), k);
    }
}

impl WhitelistSource {
    /// A translation whitelist derived from this one, whose entries are
    /// `entries`: each identifier is mapped through `id_map` (identifiers it
    /// does not name stay as they are), and each sequence gets the
    /// translated sequence of its new identifier in the combined whitelists
    /// of this one and `translate_to` (whose entries are `target_entries`),
    /// the target's first where both have it. The entries keep their order.
    ///
    /// Both whitelists must be translation whitelists, and two distinct
    /// whitelists must not share an identifier.
    pub fn create_translation_from_id_map(
        &self,
        entries: &Vec<Entry>,
        id_map: &Vec<(BarcodeId, BarcodeId)>,
        translate_to: &WhitelistSource,
        target_entries: &Vec<Entry>,
    ) -> (r: Result<Vec<TranslatedEntry>, WhitelistError>)
        ensures
            !self.spec_is_translation() || !translate_to.spec_is_translation() ==> r == Err::<
                Vec<TranslatedEntry>,
                WhitelistError,
            >(WhitelistError::TranslationPreconditionViolated),
            self.spec_is_translation() && translate_to.spec_is_translation() ==> match r {
                Ok(out) => spec_mapped_translation(
                    entry_views(entries@),
                    entry_views(target_entries@),
                    id_pair_views(id_map@),
                    spec_same_source(*self, *translate_to),
                ) == Ok::<Seq<(Seq<u8>, Seq<u8>, Seq<u8>)>, WhitelistError>(translated_views(out@)),
                Err(e) => spec_mapped_translation(
                    entry_views(entries@),
                    entry_views(target_entries@),
                    id_pair_views(id_map@),
                    spec_same_source(*self, *translate_to),
                ) == Err::<Seq<(Seq<u8>, Seq<u8>, Seq<u8>)>, WhitelistError>(e),
            },
    {
        if !self.is_translation() || !translate_to.is_translation() {
            return Err(WhitelistError::TranslationPreconditionViolated);
        }
        let ghost v = entry_views(entries@);
        let ghost w = entry_views(target_entries@);
        let ghost m = id_pair_views(id_map@);
        if !check_id_columns(entries) || !check_id_columns(target_entries) {
            return Err(WhitelistError::TranslationColumnsMissing);
        }
        if !check_consistent(entries) || !check_consistent(target_entries) {
            return Err(WhitelistError::ConflictingTranslation);
        }
        let same = *self == *translate_to;
        if !same && check_overlap(entries, target_entries) {
            return Err(WhitelistError::IdOverlapBetweenWhitelists);
        }
        let mut out: Vec<TranslatedEntry> = Vec::new();
        let mut i: usize = 0;
        while i < entries.len()
            invariant
                0 <= i <= entries@.len(),
                v == entry_views(entries@),
                w == entry_views(target_entries@),
                m == id_pair_views(id_map@),
                has_id_columns(v),
                has_id_columns(w),
                consistent_ids(v),
                consistent_ids(w),
                self.spec_is_translation(),
                translate_to.spec_is_translation(),
                same == spec_same_source(*self, *translate_to),
                !same ==> !ids_overlap(v, w),
                out@.len() == i,
                forall|j: int|
                    0 <= j < i ==> combined_translation(v, w, effective_id(m, (#[trigger] v[j]).2->Some_0))
                        is Some,
                forall|j: int|
                    0 <= j < i ==> (#[trigger] translated_views(out@)[j]) == (
                        v[j].0,
                        combined_translation(v, w, effective_id(m, v[j].2->Some_0))->Some_0,
                        effective_id(m, v[j].2->Some_0),
                    ),
            decreases entries@.len() - i,
        {
            assert(v[i as int].2 is Some);
            let id = match &entries[i].id {
                Some(x) => x,
                None => {
                    return Err(WhitelistError::TranslationColumnsMissing);
                },
            };
            let eff = map_id(id_map, id);
            let t = match lookup_translation(target_entries, eff.as_slice()) {
                Some(t) => t,
                None => match lookup_translation(entries, eff.as_slice()) {
                    Some(t) => t,
                    None => {
                        proof {
                            assert(combined_translation(v, w, effective_id(m, v[i as int].2->Some_0)) is None);
                        }
                        return Err(WhitelistError::IdNotFoundInCombinedWhitelist);
                    },
                },
            };
            let item: TranslatedEntry = (entries[i].raw.duplicate(), t.duplicate(), copy_id(eff));
            let ghost old_out = out@;
            out.push(item);
            proof {
                assert(translated_views(out@)[i as int] == (item.0@, item.1@, item.2@));
                assert forall|j: int| 0 <= j < i implies #[trigger] translated_views(out@)[j]
                    == translated_views(old_out)[j] by {
                    assert(out@[j] == old_out[j]);
                }
            }
            i += 1;
        }
        proof {
            assert(translated_views(out@) =~= Seq::new(
                v.len(),
                |j: int|
                    (
                        v[j].0,
                        combined_translation(v, w, effective_id(m, v[j].2->Some_0))->Some_0,
                        effective_id(m, v[j].2->Some_0),
                    ),
            ));
        }
        Ok(out)
    }
}

/// Translating a whitelist into itself under an identifier map that leaves
/// its identifiers as they are gives back every entry unchanged, in order.
pub proof fn lemma_self_translation_unchanged(v: Seq<EntryView>, id_map: Seq<(Seq<u8>, Seq<u8>)>)
    requires
        has_id_columns(v),
        consistent_ids(v),
        forall|i: int|
            0 <= i < v.len() ==> effective_id(id_map, (#[trigger] v[i]).2->Some_0) == v[i].2->Some_0,
    ensures
        spec_mapped_translation(v, v, id_map, true) == Ok::<
            Seq<(Seq<u8>, Seq<u8>, Seq<u8>)>,
            WhitelistError,
        >(Seq::new(v.len(), |i: int| (v[i].0, v[i].1->Some_0, v[i].2->Some_0))),
{
    assert forall|i: int| 0 <= i < v.len() implies combined_translation(
        v,
        v,
        effective_id(id_map, (#[trigger] v[i]).2->Some_0),
    ) == v[i].1 by {
        let id = v[i].2->Some_0;
        lemma_some_first(v, id, i);
        let k = choose|k: int| first_with_id(v, id, k);
        lemma_first_with_id_unique(v, id, k);
        assert(v[k].2 == v[i].2);
    }
    assert(Seq::new(
        v.len(),
        |i: int|
            (
                v[i].0,
                combined_translation(v, v, effective_id(id_map, v[i].2->Some_0))->Some_0,
                effective_id(id_map, v[i].2->Some_0),
            ),
    ) =~= Seq::new(v.len(), |i: int| (v[i].0, v[i].1->Some_0, v[i].2->Some_0)));
}

} // verus!
