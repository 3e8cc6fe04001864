use vstd::prelude::*;
use vstd::string::StrSliceExecFns;

verus! {

/// The known types of multiplexing barcode identifiers.
#[derive(Clone, Copy, Debug, PartialEq, Eq, Structural)]
pub enum MultiplexingBarcodeType {
    CMO,
    RTL,
    Antibody,
    Crispr,
    Overhang,
}

impl MultiplexingBarcodeType {
    /// The name of the type as users see it.
    pub fn name(&self) -> (r: &'static str)
        ensures
            r@ == match *self {
                MultiplexingBarcodeType::CMO => "CMO"@,
                MultiplexingBarcodeType::RTL => "Gene Expression (BC)"@,
                MultiplexingBarcodeType::Antibody => "Antibody Capture (AB)"@,
                MultiplexingBarcodeType::Crispr => "CRISPR Guide Capture (CR)"@,
                MultiplexingBarcodeType::Overhang => "Overhang"@,
            },
    {
        match self {
            MultiplexingBarcodeType::CMO => "CMO",
            MultiplexingBarcodeType::RTL => "Gene Expression (BC)",
            MultiplexingBarcodeType::Antibody => "Antibody Capture (AB)",
            MultiplexingBarcodeType::Crispr => "CRISPR Guide Capture (CR)",
            MultiplexingBarcodeType::Overhang => "Overhang",
        }
    }
}

pub open spec fn is_digit(c: char) -> bool {
    '0' <= c <= '9'
}

/// The value of a string of decimal digits.
pub open spec fn digits_value(s: Seq<char>) -> int
    decreases s.len(),
{
    if s.len() == 0 {
        0
    } else {
        digits_value(s.drop_last()) * 10 + (s.last() as int - '0' as int)
    }
}

/// An unsigned decimal number as `usize` reads it: an optional `+` and at
/// least one digit, with a value that fits in a `usize`.
pub open spec fn parse_usize(s: Seq<char>) -> Option<int> {
    let d = unsigned_part(s);
    if d.len() > 0 && all_digits(d) && digits_value(d) <= usize::MAX {
        Some(digits_value(d))
    } else {
        None
    }
}

/// The text after an optional leading `+`.
pub open spec fn unsigned_part(s: Seq<char>) -> Seq<char> {
    if s.len() > 0 && s[0] == '+' {
        s.drop_first()
    } else {
        s
    }
}

pub open spec fn all_digits(d: Seq<char>) -> bool {
    forall|i: int| 0 <= i < d.len() ==> is_digit(#[trigger] d[i])
}

/// The type of a multiplexing barcode identifier: `BC` with a number up
/// to 24, or with a last character from `A` to `D`, is RTL; `BC` with a
/// larger number, or `AB` with a number, is an antibody barcode; `CR` with a
/// number a CRISPR one; `OH` with a number an overhang; anything else,
/// identifiers shorter than two characters included, a CMO.
pub open spec fn spec_categorize(s: Seq<char>) -> MultiplexingBarcodeType {
    if s.len() < 2 {
        MultiplexingBarcodeType::CMO
    } else {
        let p = s.subrange(0, 2);
        let n = parse_usize(s.subrange(2, s.len() as int));
        if p == seq!['B', 'C'] {
            match n {
                Some(v) => if v <= 24 {
                    MultiplexingBarcodeType::RTL
                } else {
                    MultiplexingBarcodeType::Antibody
                },
                None => if 'A' <= s.last() <= 'D' {
                    MultiplexingBarcodeType::RTL
                } else {
                    MultiplexingBarcodeType::CMO
                },
            }
        } else if p == seq!['A', 'B'] && n is Some {
            MultiplexingBarcodeType::Antibody
        } else if p == seq!['C', 'R'] && n is Some {
            MultiplexingBarcodeType::Crispr
        } else if p == seq!['O', 'H'] && n is Some {
            MultiplexingBarcodeType::Overhang
        } else {
            MultiplexingBarcodeType::CMO
        }
    }
}

proof fn lemma_digits_monotonic(s: Seq<char>, i: int)
    requires
        0 <= i <= s.len(),
        forall|j: int| 0 <= j < s.len() ==> is_digit(#[trigger] s[j]),
    ensures
        digits_value(s.subrange(0, i)) <= digits_value(s),
        digits_value(s) >= 0,
    decreases s.len() - i,
{
    if i < s.len() {
        lemma_digits_monotonic(s, i + 1);
        assert(s.subrange(0, i + 1).drop_last() =~= s.subrange(0, i));
        lemma_digits_nonneg(s.subrange(0, i));
    } else {
        assert(s.subrange(0, i) =~= s);
        lemma_digits_nonneg(s);
    }
}

proof fn lemma_digits_nonneg(s: Seq<char>)
    requires
        forall|j: int| 0 <= j < s.len() ==> is_digit(#[trigger] s[j]),
    ensures
        digits_value(s) >= 0,
    decreases s.len(),
{
    if s.len() > 0 {
        lemma_digits_nonneg(s.drop_last());
    }
}

/// Reads characters `from..` of `s` as a `usize`.
fn parse_number(s: &str, from: usize) -> (r: Option<usize>)
    requires
        from <= s@.len(),
    ensures
        r matches Some(v) ==> parse_usize(s@.subrange(from as int, s@.len() as int)) == Some(v as int),
        r is None ==> parse_usize(s@.subrange(from as int, s@.len() as int)) is None,
{
    let n = s.unicode_len();
    let ghost t = s@.subrange(from as int, n as int);
    let mut start = from;
    if start < n && s.get_char(start) == '+' {
        start = start + 1;
    }
    let ghost d = s@.subrange(start as int, n as int);
    proof {
        if t.len() > 0 && t[0] == '+' {
            assert(t.drop_first() =~= d);
        } else {
            assert(t =~= d);
        }
    }
    if start == n {
        return None;
    }
    let mut acc: u128 = 0;
    let mut i: usize = start;
    while i < n
        invariant
            start <= i <= n,
            n == s@.len(),
            d == s@.subrange(start as int, n as int),
            d.len() > 0,
            t == s@.subrange(from as int, n as int),
            unsigned_part(t) == d,
            forall|j: int| start <= j < i ==> is_digit(#[trigger] s@[j]),
            acc == digits_value(s@.subrange(start as int, i as int)),
            acc <= usize::MAX,
        decreases n - i,
    {
        let c = s.get_char(i);
        if !('0' <= c && c <= '9') {
            proof {
                assert(d[i - start] == c);
                assert(!is_digit(d[i - start]));
                assert(!all_digits(d));
            }
            return None;
        }
        proof {
            assert(s@.subrange(start as int, i + 1).drop_last() =~= s@.subrange(start as int, i as int));
        }
        acc = acc * 10 + (c as u128 - '0' as u128);
        if acc > usize::MAX as u128 {
            proof {
                if all_digits(d) {
                    assert(d.subrange(0, i + 1 - start) =~= s@.subrange(start as int, i + 1));
                    lemma_digits_monotonic(d, i + 1 - start);
                }
                assert(parse_usize(t) is None);
            }
            return None;
        }
        i += 1;
    }
    proof {
        assert(s@.subrange(start as int, n as int) =~= d);
        assert forall|j: int| 0 <= j < d.len() implies is_digit(#[trigger] d[j]) by {
            assert(d[j] == s@[start + j]);
        }
        assert(all_digits(d));
    }
    Some(acc as usize)
}

/// Categorizes a multiplexing barcode identifier by type. An identifier
/// that no rule recognizes is taken for a (possibly user-provided) CMO.
pub fn categorize_multiplexing_barcode_id(bc_id: &str) -> (r: MultiplexingBarcodeType)
    ensures
        r == spec_categorize(bc_id@),
{
    let n = bc_id.unicode_len();
    if n < 2 {
        return MultiplexingBarcodeType::CMO;
    }
    let c0 = bc_id.get_char(0);
    let c1 = bc_id.get_char(1);
    let num = parse_number(bc_id, 2);
    let ghost p = bc_id@.subrange(0, 2);
    proof {
        assert(p[0] == c0 && p[1] == c1);
        assert(p == seq!['B', 'C'] <==> (c0 == 'B' && c1 == 'C')) by {
            if c0 == 'B' && c1 == 'C' {
                assert(p =~= seq!['B', 'C']);
            }
        }
        assert(p == seq!['A', 'B'] <==> (c0 == 'A' && c1 == 'B')) by {
            if c0 == 'A' && c1 == 'B' {
                assert(p =~= seq!['A', 'B']);
            }
        }
        assert(p == seq!['C', 'R'] <==> (c0 == 'C' && c1 == 'R')) by {
            if c0 == 'C' && c1 == 'R' {
                assert(p =~= seq!['C', 'R']);
            }
        }
        assert(p == seq!['O', 'H'] <==> (c0 == 'O' && c1 == 'H')) by {
            if c0 == 'O' && c1 == 'H' {
                assert(p =~= seq!['O', 'H']);
            }
        }
    }
    if c0 == 'B' && c1 == 'C' {
        match num {
            Some(v) => {
                if v <= 24 {
                    MultiplexingBarcodeType::RTL
                } else {
                    MultiplexingBarcodeType::Antibody
                }
            },
            None => {
                let last = bc_id.get_char(n - 1);
                if 'A' <= last && last <= 'D' {
                    MultiplexingBarcodeType::RTL
                } else {
                    MultiplexingBarcodeType::CMO
                }
            },
        }
    } else if c0 == 'A' && c1 == 'B' && num.is_some() {
        MultiplexingBarcodeType::Antibody
    } else if c0 == 'C' && c1 == 'R' && num.is_some() {
        MultiplexingBarcodeType::Crispr
    } else if c0 == 'O' && c1 == 'H' && num.is_some() {
        MultiplexingBarcodeType::Overhang
    } else {
        MultiplexingBarcodeType::CMO
    }
}

} // verus!
