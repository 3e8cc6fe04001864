use itertools::Itertools;
use vstd::prelude::*;

use crate::entry::{entry_views, BarcodeId, Entry, EntryView};
use crate::sequence::BcSegSeq;
use crate::source::{WhitelistError, WhitelistSource};
use crate::translation::{bytes_eq, has_id_columns};
use crate::whitelist::{
    first_position, pair_views, pairs_map, seq_views, Whitelist, WhitelistKind,
};

verus! {

broadcast use vstd::seq_lib::group_to_multiset_ensures;

/// The sequences of a list of entries.
pub open spec fn entry_raws(v: Seq<EntryView>) -> Seq<Seq<u8>> {
    v.map_values(|e: EntryView| e.0)
}

/// Each entry has a translated sequence.
pub open spec fn has_translations(v: Seq<EntryView>) -> bool {
    forall|i: int| 0 <= i < v.len() ==> (#[trigger] v[i]).1 is Some
}

/// The pairs of sequence and translated sequence of a list of entries.
pub open spec fn entry_translation_pairs(v: Seq<EntryView>) -> Seq<(Seq<u8>, Seq<u8>)> {
    v.map_values(|e: EntryView| (e.0, e.1->Some_0))
}

/// The pairs of translated sequence and identifier of a list of entries.
pub open spec fn entry_translated_id_pairs(v: Seq<EntryView>) -> Seq<(Seq<u8>, Seq<u8>)> {
    v.map_values(|e: EntryView| (e.1->Some_0, e.2->Some_0))
}

/// The pairs of sequence and identifier of a list of entries.
pub open spec fn entry_raw_id_pairs(v: Seq<EntryView>) -> Seq<(Seq<u8>, Seq<u8>)> {
    v.map_values(|e: EntryView| (e.0, e.2->Some_0))
}

/// The views of pairs of a sequence and an identifier.
pub open spec fn seq_id_views(v: Seq<(BcSegSeq, BarcodeId)>) -> Seq<(Seq<u8>, Seq<u8>)> {
    v.map_values(|p: (BcSegSeq, BarcodeId)| (p.0@, p.1@))
}

/// `a` comes before `b`, or equals it, in the byte order of identifiers.
pub open spec fn bytes_le(a: Seq<u8>, b: Seq<u8>) -> bool
    decreases a.len(),
{
    if a.len() == 0 {
        true
    } else if b.len() == 0 {
        false
    } else if a[0] < b[0] {
        true
    } else if a[0] > b[0] {
        false
    } else {
        bytes_le(a.drop_first(), b.drop_first())
    }
}

/// Some identifier in `v` is `x`.
pub open spec fn lists_id(v: Seq<BarcodeId>, x: Seq<u8>) -> bool {
    exists|i: int| 0 <= i < v.len() && (#[trigger] v[i])@ == x
}

/// Some entry has identifier `x`.
pub open spec fn has_id(v: Seq<EntryView>, x: Seq<u8>) -> bool {
    exists|k: int| 0 <= k < v.len() && (#[trigger] v[k]).2 == Some(x)
}

/// Relies on `Itertools::sorted` of itertools: the identifiers, each as
/// given, in ascending (lexicographic byte) order.
#[verifier::external_body]
fn sorted_ids(ids: Vec<BarcodeId>) -> (r: Vec<BarcodeId>)
    ensures
        r@.to_multiset() == ids@.to_multiset(),
        forall|i: int, j: int| 0 <= i < j < r@.len() ==> bytes_le(r@[i]@, r@[j]@),
{
    ids.into_iter().sorted().collect()
}

fn copy_id(v: &Vec<u8>) -> (r: Vec<u8>)
    ensures
        r@ == v@,
{
    let mut out: Vec<u8> = Vec::new();
    let mut i: usize = 0;
    while i < v.len()
        invariant
            0 <= i <= v@.len(),
            out@ =~= v@.subrange(0, i as int),
        decreases v@.len() - i,
    {
        out.push(v[i]);
        i += 1;
    }
    assert(out@ =~= v@);
    out
}

impl WhitelistSource {
    /// The sequences of the entries read from this source, in order.
    pub fn as_vec(&self, entries: &Vec<Entry>) -> (r: Vec<BcSegSeq>)
        ensures
            seq_views(r@) == entry_raws(entry_views(entries@)),
    {
        let mut out: Vec<BcSegSeq> = Vec::new();
        let mut i: usize = 0;
        while i < entries.len()
            invariant
                0 <= i <= entries@.len(),
                seq_views(out@) =~= entry_raws(entry_views(entries@)).subrange(0, i as int),
            decreases entries@.len() - i,
        {
            let x = entries[i].raw.duplicate();
            let ghost old = out@;
            out.push(x);
            proof {
                assert(entry_views(entries@)[i as int] == entries@[i as int].view());
                assert(seq_views(out@) =~= seq_views(old).push(x@));
            }
            i += 1;
        }
        out
    }

    /// The set of the sequences of the entries read from this source, as a
    /// plain whitelist.
    pub fn as_set(&self, entries: &Vec<Entry>) -> (r: Whitelist)
        ensures
            r.spec_kind() == WhitelistKind::Plain,
            r.members() == entry_raws(entry_views(entries@)).to_set(),
    {
        let raws = self.as_vec(entries);
        Whitelist::plain(&raws)
    }

    /// The translation whitelist of the entries read from this source; an
    /// entry without a translated sequence makes it no translation
    /// whitelist.
    pub fn as_translation(&self, entries: &Vec<Entry>) -> (r: Result<Whitelist, WhitelistError>)
        ensures
            r is Ok <==> has_translations(entry_views(entries@)),
            r matches Err(e) ==> e == WhitelistError::NotATranslationWhitelist,
            r matches Ok(w) ==> w.spec_kind() == WhitelistKind::Translation && w.translation()
                == pairs_map(entry_translation_pairs(entry_views(entries@))) && w.members()
                == pairs_map(entry_translation_pairs(entry_views(entries@))).dom(),
    {
        let ghost v = entry_views(entries@);
        let mut pairs: Vec<(BcSegSeq, BcSegSeq)> = Vec::new();
        let mut i: usize = 0;
        while i < entries.len()
            invariant
                0 <= i <= entries@.len(),
                v == entry_views(entries@),
                forall|j: int| 0 <= j < i ==> (#[trigger] v[j]).1 is Some,
                pair_views(pairs@) =~= entry_translation_pairs(v).subrange(0, i as int),
            decreases entries@.len() - i,
        {
            match &entries[i].translated {
                Some(t) => {
                    let x = (entries[i].raw.duplicate(), t.duplicate());
                    let ghost old = pairs@;
                    pairs.push(x);
                    proof {
                        assert(v[i as int] == entries@[i as int].view());
                        assert(pair_views(pairs@) =~= pair_views(old).push((x.0@, x.1@)));
                    }
                },
                None => {
                    proof {
                        assert(!(v[i as int].1 is Some));
                    }
                    return Err(WhitelistError::NotATranslationWhitelist);
                },
            }
            i += 1;
        }
        proof {
            assert(entry_translation_pairs(v).subrange(0, v.len() as int) =~= entry_translation_pairs(v));
        }
        Ok(Whitelist::translation_of(&pairs))
    }

    /// The whitelist of the entries read from this source: a spatial
    /// whitelist for a slide layout, with `spot_pitch` as its pitch; a
    /// translation whitelist for a translation source; a plain one
    /// otherwise.
    pub fn as_whitelist(&self, entries: &Vec<Entry>, spot_pitch: u32) -> (r: Result<
        Whitelist,
        WhitelistError,
    >)
        ensures
            self is SlideFile ==> (r matches Ok(w) && w.spec_kind() == WhitelistKind::SpatialHd
                && w.members() == entry_raws(entry_views(entries@)).to_set() && forall|s: Seq<u8>|
                #[trigger] w.members().contains(s) ==> first_position(
                    entry_raws(entry_views(entries@)),
                    s,
                    w.spatial_index()[s].index as int,
                ) && w.spatial_index()[s].size_um == spot_pitch),
            !(self is SlideFile) && self.spec_is_translation() ==> (r is Ok <==> has_translations(
                entry_views(entries@),
            )) && (r matches Err(e) ==> e == WhitelistError::NotATranslationWhitelist) && (
            r matches Ok(w) ==> w.spec_kind() == WhitelistKind::Translation && w.translation()
                == pairs_map(entry_translation_pairs(entry_views(entries@))) && w.members()
                == pairs_map(entry_translation_pairs(entry_views(entries@))).dom()),
            !(self is SlideFile) && !self.spec_is_translation() ==> (r matches Ok(w) && w.spec_kind()
                == WhitelistKind::Plain && w.members() == entry_raws(entry_views(entries@)).to_set()),
    {
        if let WhitelistSource::SlideFile { .. } = self {
            let raws = self.as_vec(entries);
            return Ok(Whitelist::spatial(&raws, spot_pitch));
        }
        if self.is_translation() {
            self.as_translation(entries)
        } else {
            let raws = self.as_vec(entries);
            Ok(Whitelist::plain(&raws))
        }
    }

    /// Each translated sequence with its identifier, in entry order; every
    /// entry must have both columns.
    pub fn as_translation_seq_to_id(&self, entries: &Vec<Entry>) -> (r: Result<
        Vec<(BcSegSeq, BarcodeId)>,
        WhitelistError,
    >)
        ensures
            r is Ok <==> has_id_columns(entry_views(entries@)),
            r matches Err(e) ==> e == WhitelistError::TranslationColumnsMissing,
            r matches Ok(p) ==> seq_id_views(p@) == entry_translated_id_pairs(entry_views(entries@)),
    {
        let ghost v = entry_views(entries@);
        let mut out: Vec<(BcSegSeq, BarcodeId)> = Vec::new();
        let mut i: usize = 0;
        while i < entries.len()
            invariant
                0 <= i <= entries@.len(),
                v == entry_views(entries@),
                forall|j: int| 0 <= j < i ==> (#[trigger] v[j]).1 is Some && v[j].2 is Some,
                seq_id_views(out@) =~= entry_translated_id_pairs(v).subrange(0, i as int),
            decreases entries@.len() - i,
        {
            match (&entries[i].translated, &entries[i].id) {
                (Some(t), Some(id)) => {
                    let x = (t.duplicate(), copy_id(id));
                    let ghost old = out@;
                    out.push(x);
                    proof {
                        assert(v[i as int] == entries@[i as int].view());
                        assert(seq_id_views(out@) =~= seq_id_views(old).push((x.0@, x.1@)));
                    }
                },
                _ => {
                    proof {
                        assert(!(v[i as int].1 is Some && v[i as int].2 is Some));
                    }
                    return Err(WhitelistError::TranslationColumnsMissing);
                },
            }
            i += 1;
        }
        proof {
            assert(entry_translated_id_pairs(v).subrange(0, v.len() as int)
                =~= entry_translated_id_pairs(v));
        }
        Ok(out)
    }

    /// Each sequence with its identifier, in entry order; every entry must
    /// have a translated sequence and an identifier.
    pub fn as_raw_seq_to_id(&self, entries: &Vec<Entry>) -> (r: Result<
        Vec<(BcSegSeq, BarcodeId)>,
        WhitelistError,
    >)
        ensures
            r is Ok <==> has_id_columns(entry_views(entries@)),
            r matches Err(e) ==> e == WhitelistError::TranslationColumnsMissing,
            r matches Ok(p) ==> seq_id_views(p@) == entry_raw_id_pairs(entry_views(entries@)),
    {
        let ghost v = entry_views(entries@);
        let mut out: Vec<(BcSegSeq, BarcodeId)> = Vec::new();
        let mut i: usize = 0;
        while i < entries.len()
            invariant
                0 <= i <= entries@.len(),
                v == entry_views(entries@),
                forall|j: int| 0 <= j < i ==> (#[trigger] v[j]).1 is Some && v[j].2 is Some,
                seq_id_views(out@) =~= entry_raw_id_pairs(v).subrange(0, i as int),
            decreases entries@.len() - i,
        {
            match (&entries[i].translated, &entries[i].id) {
                (Some(_), Some(id)) => {
                    let x = (entries[i].raw.duplicate(), copy_id(id));
                    let ghost old = out@;
                    out.push(x);
                    proof {
                        assert(v[i as int] == entries@[i as int].view());
                        assert(seq_id_views(out@) =~= seq_id_views(old).push((x.0@, x.1@)));
                    }
                },
                _ => {
                    proof {
                        assert(!(v[i as int].1 is Some && v[i as int].2 is Some));
                    }
                    return Err(WhitelistError::TranslationColumnsMissing);
                },
            }
            i += 1;
        }
        proof {
            assert(entry_raw_id_pairs(v).subrange(0, v.len() as int) =~= entry_raw_id_pairs(v));
        }
        Ok(out)
    }

    /// The identifiers of the entries read from this source, sorted and
    /// without repeats; every entry must have an identifier.
    pub fn get_ids(&self, entries: &Vec<Entry>) -> (r: Result<Vec<BarcodeId>, WhitelistError>)
        ensures
            r is Ok <==> forall|i: int|
                0 <= i < entries@.len() ==> (#[trigger] entry_views(entries@)[i]).2 is Some,
            r matches Err(e) ==> e == WhitelistError::TranslationColumnsMissing,
            r matches Ok(v) ==> forall|i: int, j: int|
                0 <= i < j < v@.len() ==> bytes_le(v@[i]@, v@[j]@),
            r matches Ok(v) ==> forall|i: int| 0 <= i < v@.len() - 1 ==> (#[trigger] v@[i])@ != v@[i + 1]@,
            r matches Ok(v) ==> forall|x: Seq<u8>|
                #[trigger] lists_id(v@, x) <==> has_id(entry_views(entries@), x),
    {
        let ghost ev = entry_views(entries@);
        let mut ids: Vec<BarcodeId> = Vec::new();
        let mut i: usize = 0;
        while i < entries.len()
            invariant
                0 <= i <= entries@.len(),
                ev == entry_views(entries@),
                ids@.len() == i,
                forall|k: int| 0 <= k < i ==> (#[trigger] ev[k]).2 == Some(ids@[k]@),
            decreases entries@.len() - i,
        {
            match &entries[i].id {
                Some(id) => {
                    ids.push(copy_id(id));
                },
                None => {
                    proof {
                        assert(!(ev[i as int].2 is Some));
                    }
                    return Err(WhitelistError::TranslationColumnsMissing);
                },
            }
            i += 1;
        }
        let ghost unsorted = ids@;
        let sorted = sorted_ids(ids);
        let ghost sv = sorted@;
        proof {
            assert forall|x: Seq<u8>| #[trigger] lists_id(sv, x) <==> has_id(ev, x) by {
                if exists|a: int| 0 <= a < sv.len() && (#[trigger] sv[a])@ == x {
                    let a = choose|a: int| 0 <= a < sv.len() && (#[trigger] sv[a])@ == x;
                    assert(sv.to_multiset().count(sv[a]) > 0);
                    assert(unsorted.contains(sv[a]));
                    let k = choose|k: int| 0 <= k < unsorted.len() && unsorted[k] == sv[a];
                    assert(ev[k].2 == Some(x));
                }
                if exists|k: int| 0 <= k < ev.len() && (#[trigger] ev[k]).2 == Some(x) {
                    let k = choose|k: int| 0 <= k < ev.len() && (#[trigger] ev[k]).2 == Some(x);
                    assert(unsorted.to_multiset().count(unsorted[k]) > 0);
                    assert(sv.contains(unsorted[k]));
                    let a = choose|a: int| 0 <= a < sv.len() && sv[a] == unsorted[k];
                    assert(sv[a]@ == x);
                }
            }
        }
        let mut out: Vec<BarcodeId> = Vec::new();
        let ghost mut idx: Seq<int> = Seq::empty();
        let mut j: usize = 0;
        while j < sorted.len()
            invariant
                0 <= j <= sv.len(),
                sv == sorted@,
                forall|a: int, b: int| 0 <= a < b < sv.len() ==> bytes_le(sv[a]@, sv[b]@),
                idx.len() == out@.len(),
                forall|a: int| 0 <= a < idx.len() ==> 0 <= #[trigger] idx[a] < j && out@[a]@ == sv[idx[a]]@,
                forall|a: int, b: int| 0 <= a < b < idx.len() ==> idx[a] < idx[b],
                forall|a: int| 0 <= a < out@.len() - 1 ==> (#[trigger] out@[a])@ != out@[a + 1]@,
                j > 0 ==> out@.len() > 0 && out@[out@.len() - 1]@ == sv[j - 1]@,
                forall|a: int| 0 <= a < j ==> exists|b: int| 0 <= b < out@.len() && (#[trigger] out@[b])@ == (#[trigger] sv[a])@,
            decreases sv.len() - j,
        {
            let n = out.len();
            let repeat = n > 0 && bytes_eq(out[n - 1].as_slice(), sorted[j].as_slice());
            if !repeat {
                let c = copy_id(&sorted[j]);
                let ghost old_out = out@;
                out.push(c);
                proof {
                    idx = idx.push(j as int);
                    assert(out@[n as int]@ == sv[j as int]@);
                    assert forall|a: int| 0 <= a < j + 1 implies exists|b: int| 0 <= b < out@.len() && (#[trigger] out@[b])@ == (#[trigger] sv[a])@ by {
                        if a < j {
                            let b = choose|b: int|
                                0 <= b < old_out.len() && (#[trigger] old_out[b])@ == (#[trigger] sv[a])@;
                            assert(out@[b] == old_out[b]);
                            assert(out@[b]@ == sv[a]@);
                        } else {
                            assert(out@[n as int]@ == sv[a]@);
                        }
                    }
                }
            } else {
                proof {
                    assert(out@[n - 1]@ == sv[j as int]@);
                }
            }
            j += 1;
        }
        proof {
            assert forall|a: int, b: int| 0 <= a < b < out@.len() implies bytes_le(out@[a]@, out@[b]@) by {
                assert(idx[a] < idx[b]);
            }
            assert forall|x: Seq<u8>| #[trigger] lists_id(out@, x) <==> lists_id(sv, x) by {
                if exists|i: int| 0 <= i < out@.len() && (#[trigger] out@[i])@ == x {
                    let i = choose|i: int| 0 <= i < out@.len() && (#[trigger] out@[i])@ == x;
                    assert(sv[idx[i]]@ == x);
                }
                if exists|a: int| 0 <= a < sv.len() && (#[trigger] sv[a])@ == x {
                    let a = choose|a: int| 0 <= a < sv.len() && (#[trigger] sv[a])@ == x;
                    let b = choose|b: int| 0 <= b < out@.len() && (#[trigger] out@[b])@ == (#[trigger] sv[a])@;
                    assert(out@[b]@ == x);
                }
            }
        }
        Ok(out)
    }
}

} // verus!
