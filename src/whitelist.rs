use std::collections::HashMap;
use vstd::prelude::*;
use vstd::std_specs::iter::IteratorSpec;

use crate::segment::{BarcodeSegment, BarcodeSegmentContent};
use crate::sequence::{
    is_base, lemma_valid_key_fits, lemma_valid_key_injective, seq_key, valid_seq, BcSegSeq,
};

verus! {

broadcast use vstd::std_specs::hash::group_hash_axioms;

/// The row or column of a spatial array that a barcode stands for, and the
/// pitch of its spots in micrometres.
#[derive(Clone, Copy, Debug, PartialEq, Eq, Structural)]
pub struct SquareBinRowOrColumnIndex {
    pub index: usize,
    pub size_um: u32,
}

/// The three kinds of whitelist.
#[derive(Clone, Copy, Debug, PartialEq, Eq, Structural)]
pub enum WhitelistKind {
    /// A set of valid sequences.
    Plain,
    /// A map from each valid sequence to its canonical translation.
    Translation,
    /// A map from each valid sequence to a row or column of a spatial array.
    SpatialHd,
}

/// What a whitelist files under the key of one of its sequences.
#[derive(Debug)]
struct Record {
    seq: BcSegSeq,
    translated: Option<BcSegSeq>,
    spatial: Option<SquareBinRowOrColumnIndex>,
}

/// The sequences that a table holds: those whose key it files.
closed spec fn table_members(t: Map<u128, Record>) -> Set<Seq<u8>> {
    Set::new(|s: Seq<u8>| valid_seq(s) && t.contains_key(seq_key(s) as u128))
}

closed spec fn table_translation(t: Map<u128, Record>) -> Map<Seq<u8>, Seq<u8>> {
    Map::new(
        |s: Seq<u8>| table_members(t).contains(s),
        |s: Seq<u8>| t[seq_key(s) as u128].translated->Some_0@,
    )
}

closed spec fn table_spatial(t: Map<u128, Record>) -> Map<Seq<u8>, SquareBinRowOrColumnIndex> {
    Map::new(
        |s: Seq<u8>| table_members(t).contains(s),
        |s: Seq<u8>| t[seq_key(s) as u128].spatial->Some_0,
    )
}

closed spec fn table_wf(t: Map<u128, Record>, kind: WhitelistKind) -> bool {
    forall|k: u128| #[trigger]
        t.contains_key(k) ==> {
            &&& valid_seq(t[k].seq@)
            &&& seq_key(t[k].seq@) == k
            &&& (kind == WhitelistKind::Translation ==> t[k].translated is Some)
            &&& (t[k].translated matches Some(x) ==> valid_seq(x@))
            &&& (kind == WhitelistKind::SpatialHd ==> t[k].spatial is Some)
        }
}

proof fn lemma_table_insert(t: Map<u128, Record>, kind: WhitelistKind, k: u128, r: Record)
    requires
        table_wf(t, kind),
        valid_seq(r.seq@),
        seq_key(r.seq@) == k,
        kind == WhitelistKind::Translation ==> r.translated is Some,
        r.translated matches Some(x) ==> valid_seq(x@),
        kind == WhitelistKind::SpatialHd ==> r.spatial is Some,
    ensures
        table_wf(t.insert(k, r), kind),
        table_members(t.insert(k, r)) == table_members(t).insert(r.seq@),
        r.translated matches Some(x) ==> table_translation(t.insert(k, r))
            == table_translation(t).insert(r.seq@, x@),
        table_spatial(t.insert(k, r)) == table_spatial(t).insert(r.seq@, r.spatial->Some_0),
{
    let t2 = t.insert(k, r);
    assert forall|s: Seq<u8>|
        table_members(t2).contains(s) == table_members(t).insert(r.seq@).contains(s) by {
        if valid_seq(s) && seq_key(s) as u128 == k {
            lemma_valid_key_fits(r.seq@);
            lemma_valid_key_injective(s, r.seq@);
        }
        if s == r.seq@ {
            lemma_valid_key_fits(s);
        }
    }
    assert(table_members(t2) =~= table_members(t).insert(r.seq@));
    assert forall|s: Seq<u8>| #[trigger]
        table_members(t2).contains(s) && s != r.seq@ implies seq_key(s) as u128 != k by {
        if seq_key(s) as u128 == k {
            lemma_valid_key_fits(r.seq@);
            lemma_valid_key_injective(s, r.seq@);
        }
    }
    lemma_valid_key_fits(r.seq@);
    if let Some(x) = r.translated {
        assert(table_translation(t2) =~= table_translation(t).insert(r.seq@, x@));
    }
    assert(table_spatial(t2) =~= table_spatial(t).insert(r.seq@, r.spatial->Some_0));
}

proof fn lemma_push_to_set<A>(s: Seq<A>, x: A)
    ensures
        s.push(x).to_set() == s.to_set().insert(x),
{
    Seq::lemma_to_set_insert_commutes(s, x);
    assert(s.push(x) =~= s + seq![x]);
}

/// A barcode whitelist: the valid sequences, each filed under its key for
/// constant-time lookup, and for a translation or spatial whitelist what each
/// sequence maps to. It is built once and only read after that.
#[derive(Debug)]
pub struct Whitelist {
    kind: WhitelistKind,
    table: HashMap<u128, Record>,
}

/// The views of a sequence of segments.
pub open spec fn seq_views(v: Seq<BcSegSeq>) -> Seq<Seq<u8>> {
    v.map_values(|x: BcSegSeq| x@)
}

/// A map from a list of pairs, where a later pair overrides an earlier one
/// with the same first element.
pub open spec fn pairs_map(v: Seq<(Seq<u8>, Seq<u8>)>) -> Map<Seq<u8>, Seq<u8>>
    decreases v.len(),
{
    if v.len() == 0 {
        Map::empty()
    } else {
        pairs_map(v.drop_last()).insert(v.last().0, v.last().1)
    }
}

/// The views of a sequence of pairs of segments.
pub open spec fn pair_views(v: Seq<(BcSegSeq, BcSegSeq)>) -> Seq<(Seq<u8>, Seq<u8>)> {
    v.map_values(|p: (BcSegSeq, BcSegSeq)| (p.0@, p.1@))
}

/// Position `p` holds the first `N` of `s`.
pub open spec fn is_first_n(s: Seq<u8>, p: int) -> bool {
    &&& 0 <= p < s.len()
    &&& s[p] == 78u8
    &&& forall|j: int| 0 <= j < p ==> s[j] != 78u8
}

/// The first of `s` with `A`, `C`, `G` or `T` at `p` that `members` holds.
pub open spec fn substitute_at(members: Set<Seq<u8>>, s: Seq<u8>, p: int) -> Option<Seq<u8>> {
    if members.contains(s.update(p, 65u8)) {
        Some(s.update(p, 65u8))
    } else if members.contains(s.update(p, 67u8)) {
        Some(s.update(p, 67u8))
    } else if members.contains(s.update(p, 71u8)) {
        Some(s.update(p, 71u8))
    } else if members.contains(s.update(p, 84u8)) {
        Some(s.update(p, 84u8))
    } else {
        None
    }
}

/// The whitelist sequence that `s` stands for: `s` itself where it is a
/// member, else the correction of its first `N`, if any.
pub open spec fn match_in(members: Set<Seq<u8>>, s: Seq<u8>) -> Option<Seq<u8>> {
    if members.contains(s) {
        Some(s)
    } else if exists|p: int| is_first_n(s, p) {
        substitute_at(members, s, choose|p: int| is_first_n(s, p))
    } else {
        None
    }
}

/// `i` is the first position of `s` in `v`.
pub open spec fn first_position(v: Seq<Seq<u8>>, s: Seq<u8>, i: int) -> bool {
    &&& 0 <= i < v.len()
    &&& v[i] == s
    &&& forall|j: int| 0 <= j < i ==> v[j] != s
}

/// The sequences that a record holds: its own, and its translation in a
/// translation whitelist.
closed spec fn record_seqs(r: Record, kind: WhitelistKind) -> Set<Seq<u8>> {
    if kind == WhitelistKind::Translation {
        set![r.seq@, r.translated->Some_0@]
    } else {
        set![r.seq@]
    }
}

closed spec fn table_all(t: Map<u128, Record>, kind: WhitelistKind) -> Set<Seq<u8>> {
    if kind == WhitelistKind::Translation {
        table_members(t).union(table_translation(t).values())
    } else {
        table_members(t)
    }
}

proof fn lemma_records_cover(t: Map<u128, Record>, kind: WhitelistKind, v: Seq<Record>)
    requires
        table_wf(t, kind),
        v.to_set() == t.values(),
    ensures
        forall|j: int, s: Seq<u8>|
            0 <= j < v.len() && #[trigger] record_seqs(v[j], kind).contains(s) ==> table_all(
                t,
                kind,
            ).contains(s),
        forall|s: Seq<u8>| #[trigger]
            table_all(t, kind).contains(s) ==> exists|j: int|
                0 <= j < v.len() && #[trigger] record_seqs(v[j], kind).contains(s),
        forall|j: int|
            0 <= j < v.len() && kind == WhitelistKind::Translation ==> (#[trigger] v[j]).translated is Some,
{
    assert forall|j: int|
        0 <= j < v.len() && kind == WhitelistKind::Translation implies (#[trigger] v[j]).translated is Some by {
        assert(v.to_set().contains(v[j]));
        let k = choose|k: u128| #[trigger] t.contains_key(k) && t[k] == v[j];
    }
    assert forall|j: int, s: Seq<u8>|
        0 <= j < v.len() && #[trigger] record_seqs(v[j], kind).contains(s) implies table_all(
        t,
        kind,
    ).contains(s) by {
        assert(v.to_set().contains(v[j]));
        let k = choose|k: u128| #[trigger] t.contains_key(k) && t[k] == v[j];
        lemma_valid_key_fits(v[j].seq@);
        assert(table_members(t).contains(v[j].seq@));
        if kind == WhitelistKind::Translation && s != v[j].seq@ {
            assert(s == v[j].translated->Some_0@);
            assert(table_translation(t)[v[j].seq@] == s);
            assert(table_translation(t).contains_key(v[j].seq@));
            assert(table_translation(t).values().contains(s));
        }
    }
    assert forall|s: Seq<u8>| #[trigger]
        table_all(t, kind).contains(s) implies exists|j: int|
        0 <= j < v.len() && #[trigger] record_seqs(v[j], kind).contains(s) by {
        if table_members(t).contains(s) {
            let k = seq_key(s) as u128;
            assert(t.values().contains(t[k]));
            assert(v.to_set().contains(t[k]));
            let j = choose|j: int| 0 <= j < v.len() && v[j] == t[k];
            lemma_valid_key_fits(s);
            lemma_valid_key_fits(t[k].seq@);
            lemma_valid_key_injective(t[k].seq@, s);
            assert(record_seqs(v[j], kind).contains(s));
        } else {
            let m = choose|m: Seq<u8>| #[trigger]
                table_translation(t).contains_key(m) && table_translation(t)[m] == s;
            let k = seq_key(m) as u128;
            assert(t.values().contains(t[k]));
            assert(v.to_set().contains(t[k]));
            let j = choose|j: int| 0 <= j < v.len() && v[j] == t[k];
            assert(record_seqs(v[j], kind).contains(s));
        }
    }
}

impl Whitelist {
    #[verifier::type_invariant]
    closed spec fn inv(&self) -> bool {
        table_wf(self.table@, self.kind)
    }

    pub closed spec fn spec_kind(&self) -> WhitelistKind {
        self.kind
    }

    /// The sequences that this whitelist accepts.
    pub closed spec fn members(&self) -> Set<Seq<u8>> {
        table_members(self.table@)
    }

    /// For a translation whitelist, the translation of each member.
    pub closed spec fn translation(&self) -> Map<Seq<u8>, Seq<u8>> {
        table_translation(self.table@)
    }

    /// For a spatial whitelist, the row or column of each member.
    pub closed spec fn spatial_index(&self) -> Map<Seq<u8>, SquareBinRowOrColumnIndex> {
        table_spatial(self.table@)
    }

    /// Every sequence that the whitelist holds: its members and, in a
    /// translation whitelist, their translations.
    pub closed spec fn all_seqs(&self) -> Set<Seq<u8>> {
        table_all(self.table@, self.kind)
    }

    pub fn kind(&self) -> (r: WhitelistKind)
        ensures
            r == self.spec_kind(),
    {
        self.kind
    }

    /// A plain whitelist of these sequences.
    pub fn plain(seqs: &Vec<BcSegSeq>) -> (r: Whitelist)
        ensures
            r.spec_kind() == WhitelistKind::Plain,
            r.members() == seq_views(seqs@).to_set(),
    {
        let mut table: HashMap<u128, Record> = HashMap::new();
        let mut i: usize = 0;
        while i < seqs.len()
            invariant
                0 <= i <= seqs.len(),
                table_wf(table@, WhitelistKind::Plain),
                table_members(table@) == seq_views(seqs@.subrange(0, i as int)).to_set(),
            decreases seqs.len() - i,
        {
            let k = seqs[i].key();
            let r = Record { seq: seqs[i].duplicate(), translated: None, spatial: None };
            proof {
                lemma_table_insert(table@, WhitelistKind::Plain, k, r);
                assert(seq_views(seqs@.subrange(0, i + 1)) =~= seq_views(
                    seqs@.subrange(0, i as int),
                ).push(seqs@[i as int]@));
                lemma_push_to_set(seq_views(seqs@.subrange(0, i as int)), seqs@[i as int]@);
            }
            table.insert(k, r);
            i += 1;
        }
        assert(seqs@.subrange(0, seqs@.len() as int) =~= seqs@);
        Whitelist { kind: WhitelistKind::Plain, table }
    }

    /// A translation whitelist of these pairs of a sequence and its
    /// translation; of two pairs with the same sequence the later one counts.
    pub fn translation_of(pairs: &Vec<(BcSegSeq, BcSegSeq)>) -> (r: Whitelist)
        ensures
            r.spec_kind() == WhitelistKind::Translation,
            r.translation() == pairs_map(pair_views(pairs@)),
            r.members() == pairs_map(pair_views(pairs@)).dom(),
    {
        let mut table: HashMap<u128, Record> = HashMap::new();
        let mut i: usize = 0;
        proof {
            assert(table_translation(table@) =~= Map::empty());
        }
        while i < pairs.len()
            invariant
                0 <= i <= pairs.len(),
                table_wf(table@, WhitelistKind::Translation),
                table_translation(table@) == pairs_map(pair_views(pairs@.subrange(0, i as int))),
            decreases pairs.len() - i,
        {
            let k = pairs[i].0.key();
            let t = pairs[i].1.duplicate();
            let r = Record { seq: pairs[i].0.duplicate(), translated: Some(t), spatial: None };
            proof {
                lemma_table_insert(table@, WhitelistKind::Translation, k, r);
                assert(pair_views(pairs@.subrange(0, i + 1)).drop_last() =~= pair_views(
                    pairs@.subrange(0, i as int),
                ));
            }
            table.insert(k, r);
            i += 1;
        }
        assert(pairs@.subrange(0, pairs@.len() as int) =~= pairs@);
        proof {
            assert(table_members(table@) =~= table_translation(table@).dom());
        }
        Whitelist { kind: WhitelistKind::Translation, table }
    }

    /// A spatial whitelist of the oligos of a slide layout, in layout order:
    /// each is mapped to the position where it first appears, with the
    /// pitch of the slide's spots.
    pub fn spatial(seqs: &Vec<BcSegSeq>, size_um: u32) -> (r: Whitelist)
        ensures
            r.spec_kind() == WhitelistKind::SpatialHd,
            r.members() == seq_views(seqs@).to_set(),
            forall|s: Seq<u8>| #[trigger]
                r.members().contains(s) ==> first_position(
                    seq_views(seqs@),
                    s,
                    r.spatial_index()[s].index as int,
                ) && r.spatial_index()[s].size_um == size_um,
    {
        let mut table: HashMap<u128, Record> = HashMap::new();
        let mut i: usize = 0;
        while i < seqs.len()
            invariant
                0 <= i <= seqs.len(),
                table_wf(table@, WhitelistKind::SpatialHd),
                table_members(table@) == seq_views(seqs@.subrange(0, i as int)).to_set(),
                forall|s: Seq<u8>| #[trigger]
                    table_members(table@).contains(s) ==> first_position(
                        seq_views(seqs@),
                        s,
                        table_spatial(table@)[s].index as int,
                    ) && table_spatial(table@)[s].size_um == size_um && table_spatial(
                        table@,
                    )[s].index < i,
            decreases seqs.len() - i,
        {
            let k = seqs[i].key();
            let ghost prefix = seq_views(seqs@.subrange(0, i as int));
            proof {
                assert(seq_views(seqs@.subrange(0, i + 1)) =~= prefix.push(seqs@[i as int]@));
                lemma_push_to_set(prefix, seqs@[i as int]@);
                lemma_valid_key_fits(seqs@[i as int]@);
            }
            if !table.contains_key(&k) {
                let idx = SquareBinRowOrColumnIndex { index: i, size_um };
                let r = Record { seq: seqs[i].duplicate(), translated: None, spatial: Some(idx) };
                proof {
                    lemma_table_insert(table@, WhitelistKind::SpatialHd, k, r);
                    assert(!prefix.to_set().contains(seqs@[i as int]@));
                    assert forall|j: int| 0 <= j < i implies seq_views(seqs@)[j] != seqs@[
                        i as int
                    ]@ by {
                        assert(prefix[j] == seq_views(seqs@)[j]);
                    }
                }
                table.insert(k, r);
            } else {
                proof {
                    assert(table_members(table@).contains(seqs@[i as int]@));
                    assert(prefix.push(seqs@[i as int]@).to_set() =~= prefix.to_set());
                }
            }
            i += 1;
        }
        assert(seqs@.subrange(0, seqs@.len() as int) =~= seqs@);
        Whitelist { kind: WhitelistKind::SpatialHd, table }
    }

    /// The translation of `seq` where this is a translation whitelist that
    /// holds it, else `seq` itself.
    pub fn translate(&self, seq: &BcSegSeq) -> (r: BcSegSeq)
        ensures
            r@ == (if self.spec_kind() == WhitelistKind::Translation && self.translation().contains_key(seq@) {
                self.translation()[seq@]
            } else {
                seq@
            }),
    {
        proof {
            use_type_invariant(self);
        }
        let k = seq.key();
        proof {
            lemma_valid_key_fits(seq@);
        }
        if self.kind != WhitelistKind::Translation {
            return seq.duplicate();
        }
        match self.table.get(&k) {
            Some(rec) => match &rec.translated {
                Some(t) => t.duplicate(),
                None => seq.duplicate(),
            },
            None => seq.duplicate(),
        }
    }

    /// Whether the whitelist holds `seq`.
    pub fn contains(&self, seq: &BcSegSeq) -> (r: bool)
        ensures
            r == self.members().contains(seq@),
    {
        let k = seq.key();
        proof {
            lemma_valid_key_fits(seq@);
        }
        self.table.contains_key(&k)
    }

    /// Checks the sequence of a segment against the whitelist and records
    /// the outcome in the segment's state. On a hit in a translation
    /// whitelist the segment's content becomes the translated sequence; on a
    /// hit in a spatial whitelist it becomes the sequence with its spatial
    /// index. Otherwise the content stays as it was.
    pub fn check_and_update(&self, seg: &mut BarcodeSegment) -> (r: bool)
        ensures
            r == self.members().contains(old(seg).spec_sequence()),
            final(seg).state == old(seg).state.spec_changed(r),
            r && self.spec_kind() == WhitelistKind::Translation ==> final(seg).content_view() == (
                self.translation()[old(seg).spec_sequence()],
                None::<SquareBinRowOrColumnIndex>,
            ),
            r && self.spec_kind() == WhitelistKind::SpatialHd ==> final(seg).content_view() == (
                old(seg).spec_sequence(),
                Some(self.spatial_index()[old(seg).spec_sequence()]),
            ),
            !r || self.spec_kind() == WhitelistKind::Plain ==> final(seg).content_view() == old(
                seg,
            ).content_view(),
    {
        proof {
            use_type_invariant(self);
        }
        let k = seg.sequence().key();
        proof {
            lemma_valid_key_fits(seg.spec_sequence());
        }
        let found = match self.table.get(&k) {
            Some(rec) => {
                if self.kind == WhitelistKind::Translation {
                    if let Some(t) = &rec.translated {
                        seg.content = BarcodeSegmentContent::Sequence(t.duplicate());
                    }
                } else if self.kind == WhitelistKind::SpatialHd {
                    if let Some(idx) = rec.spatial {
                        let s = seg.sequence().duplicate();
                        seg.content = BarcodeSegmentContent::SpatialIndex(s, idx);
                    }
                }
                true
            },
            None => false,
        };
        seg.state.change(found);
        found
    }

    /// The range from the shortest to one past the longest sequence that
    /// the whitelist holds, counting translations too; `0..0` when empty.
    pub fn sequence_lengths(&self) -> (r: core::ops::Range<usize>)
        ensures
            !(exists|s: Seq<u8>| #[trigger] self.all_seqs().contains(s)) ==> r.start == 0 && r.end
                == 0,
            (exists|s: Seq<u8>| #[trigger] self.all_seqs().contains(s)) ==> {
                &&& exists|s: Seq<u8>| #[trigger] self.all_seqs().contains(s) && s.len() == r.start
                &&& exists|s: Seq<u8>| #[trigger] self.all_seqs().contains(s) && s.len() + 1 == r.end
                &&& forall|s: Seq<u8>| #[trigger]
                    self.all_seqs().contains(s) ==> r.start <= s.len() < r.end
            },
    {
        proof {
            use_type_invariant(self);
        }
        let mut lo: usize = 0;
        let mut hi: usize = 0;
        let mut any = false;
        let ghost lo_w: Seq<u8> = Seq::empty();
        let ghost hi_w: Seq<u8> = Seq::empty();
        let ghost vals = vstd::std_specs::hash::spec_values_iter(&self.table).remaining();
        proof {
            lemma_records_cover(self.table@, self.kind, vals.unref());
        }
        for rec in it: self.table.values()
            invariant
                table_wf(self.table@, self.kind),
                it.seq() == vals,
                forall|j: int, s: Seq<u8>|
                    0 <= j < vals.len() && #[trigger] record_seqs(vals.unref()[j], self.kind).contains(
                        s,
                    ) ==> table_all(self.table@, self.kind).contains(s),
                forall|s: Seq<u8>| #[trigger]
                    table_all(self.table@, self.kind).contains(s) ==> exists|j: int|
                        0 <= j < vals.len() && #[trigger] record_seqs(
                            vals.unref()[j],
                            self.kind,
                        ).contains(s),
                forall|j: int|
                    0 <= j < vals.len() && self.kind == WhitelistKind::Translation ==> (
                    #[trigger] vals.unref()[j]).translated is Some,
                any <==> it.index() > 0,
                any ==> exists|j: int|
                    0 <= j < it.index() && #[trigger] record_seqs(vals.unref()[j], self.kind).contains(
                        lo_w,
                    ),
                any ==> exists|j: int|
                    0 <= j < it.index() && #[trigger] record_seqs(vals.unref()[j], self.kind).contains(
                        hi_w,
                    ),
                any ==> lo_w.len() == lo && hi_w.len() == hi,
                forall|j: int, s: Seq<u8>|
                    0 <= j < it.index() && #[trigger] record_seqs(vals.unref()[j], self.kind).contains(s)
                        ==> lo <= s.len() <= hi,
                hi <= crate::sequence::MAX_SEQ_LEN,
        {
            let ghost j = it.index();
            let ghost old_lo = lo;
            let ghost old_hi = hi;
            let ghost old_any = any;
            let ghost old_lo_w = lo_w;
            let ghost old_hi_w = hi_w;
            let ghost rs = record_seqs(*rec, self.kind);
            assert(vals.unref()[j] == *rec);
            let n = rec.seq.len();
            if !any || n < lo {
                lo = n;
                proof {
                    lo_w = rec.seq@;
                }
            }
            if !any || n > hi {
                hi = n;
                proof {
                    hi_w = rec.seq@;
                }
            }
            if self.kind == WhitelistKind::Translation {
                if let Some(t) = &rec.translated {
                    let m = t.len();
                    if m < lo {
                        lo = m;
                        proof {
                            lo_w = t@;
                        }
                    }
                    if m > hi {
                        hi = m;
                        proof {
                            hi_w = t@;
                        }
                    }
                }
            }
            proof {
                assert(rs.contains(rec.seq@));
                if self.kind == WhitelistKind::Translation {
                    assert(rs.contains(rec.translated->Some_0@));
                    assert(forall|s: Seq<u8>| rs.contains(s) ==> s == rec.seq@ || s
                        == rec.translated->Some_0@);
                } else {
                    assert(forall|s: Seq<u8>| rs.contains(s) ==> s == rec.seq@);
                }
                if lo_w != old_lo_w || !any {
                    assert(record_seqs(vals.unref()[j], self.kind).contains(lo_w));
                }
                if hi_w != old_hi_w || !any {
                    assert(record_seqs(vals.unref()[j], self.kind).contains(hi_w));
                }
                assert(lo <= old_lo || !old_any);
                assert(hi >= old_hi || !old_any);
                assert forall|jj: int, s: Seq<u8>|
                    0 <= jj < j + 1 && #[trigger] record_seqs(vals.unref()[jj], self.kind).contains(
                        s,
                    ) implies lo <= s.len() <= hi by {
                    if jj < j {
                        assert(old_lo <= s.len() <= old_hi);
                    } else {
                        assert(rs.contains(s));
                    }
                }
            }
            any = true;
        }
        proof {
            if any {
                assert(record_seqs(vals.unref()[0], self.kind).contains(vals.unref()[0].seq@));
                assert(table_all(self.table@, self.kind).contains(vals.unref()[0].seq@));
                assert(self.all_seqs().contains(vals.unref()[0].seq@));
            }
        }
        if any {
            lo..hi + 1
        } else {
            0..0
        }
    }

    /// `seq` itself where the whitelist holds it; else, where `seq` has an
    /// `N`, the first of `A`, `C`, `G`, `T` put in place of its first `N`
    /// that gives a member; else `None`.
    pub fn match_to_whitelist(&self, seq: BcSegSeq) -> (r: Option<BcSegSeq>)
        ensures
            r is Some <==> match_in(self.members(), seq@) is Some,
            r matches Some(x) ==> x@ == match_in(self.members(), seq@)->Some_0,
    {
        if self.contains(&seq) {
            return Some(seq);
        }
        let bytes = seq.seq();
        let mut pos: usize = 0;
        while pos < bytes.len() && bytes[pos] != 78u8
            invariant
                0 <= pos <= bytes@.len(),
                bytes@ == seq@,
                forall|j: int| 0 <= j < pos ==> bytes@[j] != 78u8,
            decreases bytes@.len() - pos,
        {
            pos += 1;
        }
        if pos == bytes.len() {
            proof {
                assert(!exists|p: int| is_first_n(seq@, p));
            }
            return None;
        }
        proof {
            assert(is_first_n(seq@, pos as int));
            let c = choose|p: int| is_first_n(seq@, p);
            assert(c == pos as int);
        }
        let candidates: [u8; 4] = [65u8, 67u8, 71u8, 84u8];
        let mut b: usize = 0;
        while b < 4
            invariant
                0 <= b <= 4,
                pos < seq@.len(),
                is_first_n(seq@, pos as int),
                (choose|p: int| is_first_n(seq@, p)) == pos as int,
                !self.members().contains(seq@),
                candidates@ == seq![65u8, 67u8, 71u8, 84u8],
                forall|j: int| 0 <= j < b ==> !self.members().contains(
                    #[trigger] seq@.update(pos as int, candidates@[j]),
                ),
            decreases 4 - b,
        {
            let fixed = seq.with_base(pos, candidates[b]);
            if self.contains(&fixed) {
                proof {
                    if b >= 1 {
                        assert(!self.members().contains(seq@.update(pos as int, candidates@[0])));
                    }
                    if b >= 2 {
                        assert(!self.members().contains(seq@.update(pos as int, candidates@[1])));
                    }
                    if b >= 3 {
                        assert(!self.members().contains(seq@.update(pos as int, candidates@[2])));
                    }
                }
                return Some(fixed);
            }
            b += 1;
        }
        proof {
            assert(!self.members().contains(seq@.update(pos as int, candidates@[0])));
            assert(!self.members().contains(seq@.update(pos as int, candidates@[1])));
            assert(!self.members().contains(seq@.update(pos as int, candidates@[2])));
            assert(!self.members().contains(seq@.update(pos as int, candidates@[3])));
        }
        None
    }
}

/// A member of a whitelist is matched to itself.
pub proof fn lemma_member_matches_itself(w: &Whitelist, s: Seq<u8>)
    requires
        w.members().contains(s),
    ensures
        match_in(w.members(), s) == Some(s),
{
}

/// A sequence outside the whitelist whose only `N` stands where a member `t`
/// has another base, such that no other base there gives a member, is
/// matched to `t`.
pub proof fn lemma_single_n_corrected(w: &Whitelist, s: Seq<u8>, t: Seq<u8>, p: int)
    requires
        !w.members().contains(s),
        w.members().contains(t),
        0 <= p < t.len(),
        is_base(t[p]) && t[p] != 78u8,
        s == t.update(p, 78u8),
        forall|j: int| 0 <= j < s.len() && j != p ==> s[j] != 78u8,
        forall|b: u8|
            is_base(b) && b != 78u8 && #[trigger] w.members().contains(s.update(p, b)) ==> s.update(
                p,
                b,
            ) == t,
    ensures
        match_in(w.members(), s) == Some(t),
{
    assert(is_first_n(s, p));
    let c = choose|q: int| is_first_n(s, q);
    assert(c == p);
    assert(s.update(p, t[p]) =~= t);
}

/// A sequence outside the whitelist with no `N`, or whose first `N` no base
/// corrects to a member, is matched to nothing.
pub proof fn lemma_uncorrectable_unmatched(w: &Whitelist, s: Seq<u8>)
    requires
        !w.members().contains(s),
        forall|q: int, b: u8|
            is_first_n(s, q) && is_base(b) && b != 78u8 ==> !#[trigger] w.members().contains(
                s.update(q, b),
            ),
    ensures
        match_in(w.members(), s) is None,
{
    if exists|q: int| is_first_n(s, q) {
        let c = choose|q: int| is_first_n(s, q);
        assert(!w.members().contains(s.update(c, 65u8)));
        assert(!w.members().contains(s.update(c, 67u8)));
        assert(!w.members().contains(s.update(c, 71u8)));
        assert(!w.members().contains(s.update(c, 84u8)));
    }
}

} // verus!
