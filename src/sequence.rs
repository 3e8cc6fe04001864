use vstd::prelude::*;

verus! {

/// Longest barcode segment that a `BcSegSeq` can hold.
pub const MAX_SEQ_LEN: usize = 42;

/// A nucleotide of a barcode: one of `A`, `C`, `G`, `T` or the no-call `N`.
pub open spec fn is_base(b: u8) -> bool {
    b == 65u8 || b == 67u8 || b == 71u8 || b == 84u8 || b == 78u8
}

/// A well-formed barcode segment: bases only, and at most `MAX_SEQ_LEN` of them.
pub open spec fn valid_seq(s: Seq<u8>) -> bool {
    &&& s.len() <= MAX_SEQ_LEN
    &&& forall|i: int| 0 <= i < s.len() ==> is_base(#[trigger] s[i])
}

/// The digit, 1 to 5, that stands for a base in a sequence key.
pub open spec fn base_digit(b: u8) -> int {
    if b == 65u8 {
        1
    } else if b == 67u8 {
        2
    } else if b == 71u8 {
        3
    } else if b == 84u8 {
        4
    } else {
        5
    }
}

/// The key of a sequence: its bases as octal digits, none of them zero, the
/// last base least significant. Distinct sequences have distinct keys.
pub open spec fn seq_key(s: Seq<u8>) -> int
    decreases s.len(),
{
    if s.len() == 0 {
        0
    } else {
        seq_key(s.drop_last()) * 8 + base_digit(s.last())
    }
}

pub open spec fn pow8(n: nat) -> int
    decreases n,
{
    if n == 0 {
        1
    } else {
        8 * pow8((n - 1) as nat)
    }
}

proof fn lemma_pow8_monotonic(a: nat, b: nat)
    requires
        a <= b,
    ensures
        1 <= pow8(a) <= pow8(b),
    decreases b,
{
    if b > a {
        lemma_pow8_monotonic(a, (b - 1) as nat);
    } else if a > 0 {
        lemma_pow8_monotonic((a - 1) as nat, (a - 1) as nat);
    }
}

proof fn lemma_pow8_fits()
    ensures
        pow8(MAX_SEQ_LEN as nat) <= u128::MAX + 1,
{
    reveal_with_fuel(pow8, 43);
}

/// A key lies between 0 and `8^len`; it is positive for a non-empty sequence.
pub proof fn lemma_seq_key_bounds(s: Seq<u8>)
    ensures
        0 <= seq_key(s) < pow8(s.len()),
        s.len() > 0 ==> seq_key(s) >= 1,
    decreases s.len(),
{
    if s.len() > 0 {
        lemma_seq_key_bounds(s.drop_last());
    }
}

/// The key of a well-formed sequence fits in a `u128`.
pub proof fn lemma_valid_key_fits(s: Seq<u8>)
    requires
        valid_seq(s),
    ensures
        0 <= seq_key(s) <= u128::MAX,
{
    lemma_seq_key_bounds(s);
    lemma_pow8_monotonic(s.len(), MAX_SEQ_LEN as nat);
    lemma_pow8_fits();
}

/// Two well-formed sequences whose keys agree as `u128` are the same sequence.
pub proof fn lemma_valid_key_injective(s: Seq<u8>, t: Seq<u8>)
    requires
        valid_seq(s),
        valid_seq(t),
        seq_key(s) as u128 == seq_key(t) as u128,
    ensures
        s == t,
{
    lemma_valid_key_fits(s);
    lemma_valid_key_fits(t);
    lemma_seq_key_injective(s, t);
}

/// Two sequences of bases with the same key are the same sequence.
pub proof fn lemma_seq_key_injective(s: Seq<u8>, t: Seq<u8>)
    requires
        forall|i: int| 0 <= i < s.len() ==> is_base(#[trigger] s[i]),
        forall|i: int| 0 <= i < t.len() ==> is_base(#[trigger] t[i]),
        seq_key(s) == seq_key(t),
    ensures
        s == t,
    decreases s.len(),
{
    lemma_seq_key_bounds(s);
    lemma_seq_key_bounds(t);
    if s.len() == 0 || t.len() == 0 {
        assert(s =~= t);
    } else {
        let a = seq_key(s.drop_last());
        let b = seq_key(t.drop_last());
        assert(is_base(s[s.len() - 1]));
        assert(is_base(t[t.len() - 1]));
        assert(a == b && base_digit(s.last()) == base_digit(t.last()));
        lemma_seq_key_injective(s.drop_last(), t.drop_last());
        assert(s =~= s.drop_last().push(s.last()));
        assert(t =~= t.drop_last().push(t.last()));
    }
}

/// Whether a byte is a base.
pub fn is_base_byte(b: u8) -> (r: bool)
    ensures
        r == is_base(b),
{
    b == 65u8 || b == 67u8 || b == 71u8 || b == 84u8 || b == 78u8
}

fn digit_of(b: u8) -> (r: u128)
    ensures
        r == base_digit(b),
{
    if b == 65u8 {
        1
    } else if b == 67u8 {
        2
    } else if b == 71u8 {
        3
    } else if b == 84u8 {
        4
    } else {
        5
    }
}

/// Whether the bytes form a well-formed barcode segment.
pub fn is_valid_seq(s: &[u8]) -> (r: bool)
    ensures
        r == valid_seq(s@),
{
    if s.len() > MAX_SEQ_LEN {
        return false;
    }
    let mut i: usize = 0;
    while i < s.len()
        invariant
            0 <= i <= s.len(),
            forall|j: int| 0 <= j < i ==> is_base(#[trigger] s@[j]),
        decreases s.len() - i,
    {
        if !is_base_byte(s[i]) {
            return false;
        }
        i += 1;
    }
    true
}

/// The key of a well-formed sequence.
pub fn key_of(s: &[u8]) -> (r: u128)
    requires
        valid_seq(s@),
    ensures
        r == seq_key(s@),
{
    let mut code: u128 = 0;
    let mut i: usize = 0;
    while i < s.len()
        invariant
            0 <= i <= s.len(),
            valid_seq(s@),
            code == seq_key(s@.subrange(0, i as int)),
            code < pow8(i as nat),
        decreases s.len() - i,
    {
        proof {
            lemma_pow8_monotonic((i + 1) as nat, MAX_SEQ_LEN as nat);
            lemma_pow8_fits();
            assert(s@.subrange(0, i + 1).drop_last() =~= s@.subrange(0, i as int));
            assert(pow8((i + 1) as nat) == 8 * pow8(i as nat));
        }
        let d = digit_of(s[i]);
        code = code * 8 + d;
        i += 1;
    }
    assert(s@.subrange(0, s@.len() as int) =~= s@);
    code
}

/// A barcode segment: a sequence of bases, compared by value.
#[derive(Debug)]
pub struct BcSegSeq {
    bytes: Vec<u8>,
}

impl View for BcSegSeq {
    type V = Seq<u8>;

    closed spec fn view(&self) -> Seq<u8> {
        self.bytes@
    }
}

impl BcSegSeq {
    #[verifier::type_invariant]
    closed spec fn inv(&self) -> bool {
        valid_seq(self.bytes@)
    }

    /// The segment with these bytes, or `None` where they are not a
    /// well-formed barcode segment.
    pub fn from_bytes(b: &[u8]) -> (r: Option<BcSegSeq>)
        ensures
            r matches Some(s) <==> valid_seq(b@),
            r matches Some(s) ==> s@ == b@,
    {
        if is_valid_seq(b) {
            let mut bytes: Vec<u8> = Vec::new();
            let mut i: usize = 0;
            while i < b.len()
                invariant
                    0 <= i <= b.len(),
                    bytes@ =~= b@.subrange(0, i as int),
                decreases b.len() - i,
            {
                bytes.push(b[i]);
                i += 1;
            }
            assert(bytes@ =~= b@);
            Some(BcSegSeq { bytes })
        } else {
            None
        }
    }

    pub fn len(&self) -> (r: usize)
        ensures
            r == self@.len(),
            valid_seq(self@),
    {
        proof {
            use_type_invariant(self);
        }
        self.bytes.len()
    }

    pub fn seq(&self) -> (r: &[u8])
        ensures
            r@ == self@,
            valid_seq(self@),
    {
        proof {
            use_type_invariant(self);
        }
        self.bytes.as_slice()
    }

    /// The key of this segment, under which whitelists file it.
    pub fn key(&self) -> (r: u128)
        ensures
            r == seq_key(self@),
            valid_seq(self@),
    {
        proof {
            use_type_invariant(self);
        }
        key_of(self.bytes.as_slice())
    }

    /// A copy of this segment.
    pub fn duplicate(&self) -> (r: BcSegSeq)
        ensures
            r@ == self@,
            valid_seq(self@),
    {
        proof {
            use_type_invariant(self);
        }
        let mut bytes: Vec<u8> = Vec::new();
        let mut i: usize = 0;
        while i < self.bytes.len()
            invariant
                0 <= i <= self.bytes@.len(),
                bytes@ =~= self.bytes@.subrange(0, i as int),
            decreases self.bytes@.len() - i,
        {
            bytes.push(self.bytes[i]);
            i += 1;
        }
        assert(bytes@ =~= self.bytes@);
        BcSegSeq { bytes }
    }

    /// This segment with the base at `pos` replaced by `base`.
    pub fn with_base(&self, pos: usize, base: u8) -> (r: BcSegSeq)
        requires
            pos < self@.len(),
            is_base(base),
        ensures
            r@ == self@.update(pos as int, base),
    {
        proof {
            use_type_invariant(self);
        }
        let mut bytes: Vec<u8> = Vec::new();
        let mut i: usize = 0;
        while i < self.bytes.len()
            invariant
                0 <= i <= self.bytes@.len(),
                pos < self.bytes@.len(),
                bytes@ =~= self.bytes@.update(pos as int, base).subrange(0, i as int),
            decreases self.bytes@.len() - i,
        {
            if i == pos {
                bytes.push(base);
            } else {
                bytes.push(self.bytes[i]);
            }
            i += 1;
        }
        assert(bytes@ =~= self.bytes@.update(pos as int, base));
        BcSegSeq { bytes }
    }
}

impl PartialEq for BcSegSeq {
    fn eq(&self, other: &BcSegSeq) -> (r: bool) {
        if self.bytes.len() != other.bytes.len() {
            return false;
        }
        let mut i: usize = 0;
        while i < self.bytes.len()
            invariant
                0 <= i <= self.bytes@.len(),
                self.bytes@.len() == other.bytes@.len(),
                forall|j: int| 0 <= j < i ==> self.bytes@[j] == other.bytes@[j],
            decreases self.bytes@.len() - i,
        {
            if self.bytes[i] != other.bytes[i] {
                return false;
            }
            i += 1;
        }
        assert(self.bytes@ =~= other.bytes@);
        true
    }
}

impl vstd::std_specs::cmp::PartialEqSpecImpl for BcSegSeq {
    open spec fn obeys_eq_spec() -> bool {
        true
    }

    open spec fn eq_spec(&self, other: &BcSegSeq) -> bool {
        self@ == other@
    }
}

impl Eq for BcSegSeq {
}

} // verus!
