use vstd::prelude::*;

use crate::sequence::{valid_seq, BcSegSeq};
use crate::source::WhitelistError;

verus! {

/// The identifier of a barcode or of a family of related barcodes, such as
/// `BC001`: at most `MAX_ID_LEN` bytes.
pub type BarcodeId = Vec<u8>;

/// Longest barcode identifier.
pub const MAX_ID_LEN: usize = 7;

/// One line of a whitelist file: a sequence, and optionally its translated
/// sequence and its identifier.
#[derive(Debug)]
pub struct Entry {
    pub raw: BcSegSeq,
    pub translated: Option<BcSegSeq>,
    pub id: Option<BarcodeId>,
}

/// The view of an entry: its sequence, translated sequence and identifier.
pub type EntryView = (Seq<u8>, Option<Seq<u8>>, Option<Seq<u8>>);

impl Entry {
    pub open spec fn view(&self) -> EntryView {
        (
            self.raw@,
            match self.translated {
                Some(t) => Some(t@),
                None => None,
            },
            match self.id {
                Some(i) => Some(i@),
                None => None,
            },
        )
    }
}

/// The views of a list of entries.
pub open spec fn entry_views(v: Seq<Entry>) -> Seq<EntryView> {
    v.map_values(|e: Entry| e.view())
}

/// A byte that separates the columns of a whitelist line.
pub open spec fn is_space(b: u8) -> bool {
    b == 32u8 || b == 9u8 || b == 10u8 || b == 11u8 || b == 12u8 || b == 13u8
}

/// The runs of non-space bytes of `s`, in order.
pub open spec fn split_ws(s: Seq<u8>) -> Seq<Seq<u8>>
    decreases s.len(),
{
    if s.len() == 0 {
        seq![]
    } else {
        let toks = split_ws(s.drop_last());
        if is_space(s.last()) {
            toks
        } else if s.len() == 1 || is_space(s[s.len() - 2]) {
            toks.push(seq![s.last()])
        } else {
            toks.update(toks.len() - 1, toks.last().push(s.last()))
        }
    }
}

/// What a line holds: its first column as the sequence, its second as the
/// translated sequence and its third as the identifier; further columns are
/// ignored. `None` for a line without columns, with a column that is not a
/// barcode sequence where one is due, or with an identifier that is too long.
pub open spec fn spec_parse_line(line: Seq<u8>) -> Option<EntryView> {
    let t = split_ws(line);
    if t.len() == 0 || !valid_seq(t[0]) || (t.len() >= 2 && !valid_seq(t[1])) || (t.len() >= 3
        && t[2].len() > MAX_ID_LEN) {
        None
    } else {
        Some(
            (
                t[0],
                if t.len() >= 2 {
                    Some(t[1])
                } else {
                    None
                },
                if t.len() >= 3 {
                    Some(t[2])
                } else {
                    None
                },
            ),
        )
    }
}

pub fn is_space_byte(b: u8) -> (r: bool)
    ensures
        r == is_space(b),
{
    b == 32u8 || b == 9u8 || b == 10u8 || b == 11u8 || b == 12u8 || b == 13u8
}

/// The views of a list of columns.
pub open spec fn tok_views(v: Seq<Vec<u8>>) -> Seq<Seq<u8>> {
    v.map_values(|t: Vec<u8>| t@)
}

/// The whitespace-separated columns of a line.
pub fn split_columns(line: &[u8]) -> (r: Vec<Vec<u8>>)
    ensures
        tok_views(r@) == split_ws(line@),
{
    let mut toks: Vec<Vec<u8>> = Vec::new();
    let mut i: usize = 0;
    while i < line.len()
        invariant
            0 <= i <= line@.len(),
            tok_views(toks@) == split_ws(line@.subrange(0, i as int)),
        decreases line@.len() - i,
    {
        let b = line[i];
        let ghost pre = line@.subrange(0, i as int);
        proof {
            assert(line@.subrange(0, i + 1).drop_last() =~= pre);
        }
        if is_space_byte(b) {
        } else if i == 0 || is_space_byte(line[i - 1]) {
            let mut t: Vec<u8> = Vec::new();
            t.push(b);
            proof {
                assert(t@ =~= seq![b]);
                assert(tok_views(toks@.push(t)) =~= tok_views(toks@).push(seq![b]));
            }
            toks.push(t);
        } else {
            proof {
                assert(split_ws(pre).len() > 0) by {
                    lemma_split_ends_in_token(pre);
                }
            }
            let mut t = toks.pop().unwrap();
            t.push(b);
            proof {
                assert(tok_views(toks@.push(t)) =~= split_ws(pre).update(
                    split_ws(pre).len() - 1,
                    split_ws(pre).last().push(b),
                ));
            }
            toks.push(t);
        }
        i += 1;
    }
    assert(line@.subrange(0, line@.len() as int) =~= line@);
    toks
}

/// A sequence that ends in a non-space byte has a column.
proof fn lemma_split_ends_in_token(s: Seq<u8>)
    requires
        s.len() > 0,
        !is_space(s.last()),
    ensures
        split_ws(s).len() > 0,
    decreases s.len(),
{
    if s.len() > 1 && !is_space(s[s.len() - 2]) {
        lemma_split_ends_in_token(s.drop_last());
    }
}

fn copy_bytes(v: &Vec<u8>) -> (r: Vec<u8>)
    ensures
        r@ == v@,
{
    let mut out: Vec<u8> = Vec::new();
    let mut i: usize = 0;
    while i < v.len()
        invariant
            0 <= i <= v@.len(),
            out@ =~= v@.subrange(0, i as int),
        decreases v@.len() - i,
    {
        out.push(v[i]);
        i += 1;
    }
    assert(out@ =~= v@);
    out
}

/// Parses one line of a whitelist file.
pub fn parse_entry(line: &[u8]) -> (r: Result<Entry, WhitelistError>)
    ensures
        r matches Ok(e) ==> spec_parse_line(line@) == Some(e.view()),
        r matches Err(x) ==> x == WhitelistError::MalformedEntry && spec_parse_line(line@) is None,
{
    let toks = split_columns(line);
    proof {
        assert(forall|j: int| 0 <= j < toks@.len() ==> tok_views(toks@)[j] == toks@[j]@);
    }
    if toks.len() == 0 {
        return Err(WhitelistError::MalformedEntry);
    }
    let raw = match BcSegSeq::from_bytes(toks[0].as_slice()) {
        Some(s) => s,
        None => {
            return Err(WhitelistError::MalformedEntry);
        },
    };
    let translated = if toks.len() >= 2 {
        match BcSegSeq::from_bytes(toks[1].as_slice()) {
            Some(s) => Some(s),
            None => {
                return Err(WhitelistError::MalformedEntry);
            },
        }
    } else {
        None
    };
    let id = if toks.len() >= 3 {
        if toks[2].len() > MAX_ID_LEN {
            return Err(WhitelistError::MalformedEntry);
        }
        Some(copy_bytes(&toks[2]))
    } else {
        None
    };
    Ok(Entry { raw, translated, id })
}

} // verus!
