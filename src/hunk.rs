//! A contiguous, inclusive range of lines of one file, with an optional
//! fingerprint of its content.
use vstd::prelude::*;
use crate::decimal::{dec, read_dec, parse_dec, write_dec, lemma_dec_read, lemma_digits_lack};
use crate::text::{split, join, has_char, split_chars, lemma_split_join, lemma_join_lacks};

verus! {

#[derive(Clone, Copy, Debug, PartialEq, Eq, Structural)]
pub struct Hunk {
    pub start: usize,
    pub end: usize,
    pub hash: Option<u128>,
}

/// Why a hunk could not be made.
#[derive(Clone, Copy, Debug, PartialEq, Eq, Structural)]
pub enum HunkError {
    /// The last line comes before the first.
    InvalidRange,
}

impl Hunk {
    /// A well-formed range: the last line is not before the first.
    pub open spec fn wf(&self) -> bool {
        self.start <= self.end
    }

    /// Whether the two ranges share a line.
    pub open spec fn overlaps(&self, o: Hunk) -> bool {
        self.start <= o.end && o.start <= self.end
    }

    /// A hunk over lines `start..=end`.
    pub fn new(start: usize, end: usize, hash: Option<u128>) -> (r: Result<Hunk, HunkError>)
        ensures
            end < start ==> r == Err::<Hunk, HunkError>(HunkError::InvalidRange),
            start <= end ==> r == Ok::<Hunk, HunkError>(Hunk { start, end, hash }),
    {
        if end < start {
            Err(HunkError::InvalidRange)
        } else {
            Ok(Hunk { start, end, hash })
        }
    }

    /// Whether the two ranges share a line.
    pub fn intersects(&self, o: &Hunk) -> (r: bool)
        ensures
            r == self.overlaps(*o),
    {
        self.start <= o.end && o.start <= self.end
    }
}

/// The fields of a hunk's text: first line, last line, then the fingerprint if any.
pub open spec fn hunk_fields(h: Hunk) -> Seq<Seq<char>> {
    match h.hash {
        Some(x) => seq![dec(h.start as nat), dec(h.end as nat), dec(x as nat)],
        None => seq![dec(h.start as nat), dec(h.end as nat)],
    }
}

/// The text of a hunk: `start-end` or `start-end-hash`, in decimal.
pub open spec fn hunk_text(h: Hunk) -> Seq<char> {
    join(hunk_fields(h), '-')
}

/// The hunk that a text denotes, if it is one.
pub open spec fn parse_hunk_spec(s: Seq<char>) -> Option<Hunk> {
    let f = split(s, '-');
    if (f.len() == 2 || f.len() == 3) && read_dec(f[0]).is_some() && read_dec(f[1]).is_some() {
        let a = read_dec(f[0]).unwrap();
        let b = read_dec(f[1]).unwrap();
        if a <= b && b <= usize::MAX {
            if f.len() == 2 {
                Some(Hunk { start: a as usize, end: b as usize, hash: None })
            } else if read_dec(f[2]).is_some() && read_dec(f[2]).unwrap() <= u128::MAX {
                Some(Hunk { start: a as usize, end: b as usize, hash: Some(read_dec(f[2]).unwrap() as u128) })
            } else {
                None
            }
        } else {
            None
        }
    } else {
        None
    }
}

/// A hunk's text is non-empty and uses only digits and `-`.
pub proof fn lemma_hunk_text_lacks(h: Hunk, c: char)
    requires
        c != '-',
        !crate::decimal::is_digit(c),
    ensures
        !has_char(hunk_text(h), c),
        hunk_text(h).len() > 0,
{
    let f = hunk_fields(h);
    assert forall|i: int| 0 <= i < f.len() implies !has_char(#[trigger] f[i], c) by {
        if i == 0 { lemma_dec_read(h.start as nat); lemma_digits_lack(f[i], c); }
        else if i == 1 { lemma_dec_read(h.end as nat); lemma_digits_lack(f[i], c); }
        else { lemma_dec_read(h.hash.unwrap() as nat); lemma_digits_lack(f[i], c); }
    }
    lemma_join_lacks(f, '-', c);
    lemma_dec_read(h.start as nat);
    lemma_dec_read(h.end as nat);
    if h.hash.is_some() {
        lemma_dec_read(h.hash.unwrap() as nat);
    }
    assert(f.last().len() > 0);
    assert(hunk_text(h) == join(f.drop_last(), '-').push('-') + f.last());
}

/// A well-formed hunk reads back from its text.
pub proof fn lemma_hunk_round_trip(h: Hunk)
    requires
        h.wf(),
    ensures
        parse_hunk_spec(hunk_text(h)) == Some(h),
{
    let f = hunk_fields(h);
    lemma_dec_read(h.start as nat);
    lemma_dec_read(h.end as nat);
    if h.hash.is_some() {
        lemma_dec_read(h.hash.unwrap() as nat);
    }
    assert forall|i: int| 0 <= i < f.len() implies !has_char(#[trigger] f[i], '-') by {
        if i == 0 { lemma_digits_lack(f[i], '-'); }
        else if i == 1 { lemma_digits_lack(f[i], '-'); }
        else { lemma_digits_lack(f[i], '-'); }
    }
    lemma_split_join(f, '-');
}

/// Appends the text of `h` to `out`.
pub fn write_hunk(h: &Hunk, out: &mut Vec<char>)
    ensures
        final(out)@ == old(out)@ + hunk_text(*h),
{
    let ghost o = out@;
    write_dec(h.start as u128, out);
    out.push('-');
    write_dec(h.end as u128, out);
    let ghost f = hunk_fields(*h);
    proof {
        assert(seq![f[0]][0] == f[0]);
        assert(join(seq![f[0]], '-') == f[0]);
        assert(seq![f[0], f[1]].drop_last() =~= seq![f[0]]);
    }
    match h.hash {
        Some(x) => {
            out.push('-');
            write_dec(x, out);
            proof {
                assert(f.drop_last() =~= seq![f[0], f[1]]);
                assert(join(seq![f[0], f[1]], '-') == f[0].push('-') + f[1]);
                assert(hunk_text(*h) == (f[0].push('-') + f[1]).push('-') + f[2]);
                assert(out@ =~= o + hunk_text(*h));
            }
        },
        None => {
            proof {
                assert(out@ =~= o + hunk_text(*h));
            }
        },
    }
}

fn read_usize(s: &Vec<char>) -> (r: Option<usize>)
    ensures
        r == (match read_dec(s@) {
            Some(v) => if v <= usize::MAX { Some(v as usize) } else { None },
            None => None,
        }),
{
    match parse_dec(s) {
        Some(v) => if v <= usize::MAX as u128 { Some(v as usize) } else { None },
        None => None,
    }
}

/// Reads a hunk from its text.
pub fn parse_hunk(s: &Vec<char>) -> (r: Option<Hunk>)
    ensures
        r == parse_hunk_spec(s@),
        r matches Some(h) ==> h.wf(),
{
    let f = split_chars(s, '-');
    if f.len() != 2 && f.len() != 3 {
        return None;
    }
    let a = match read_usize(&f[0]) {
        Some(a) => a,
        None => return None,
    };
    let b = match read_usize(&f[1]) {
        Some(b) => b,
        None => {
            proof {
                if read_dec(f@[1]@).is_some() {
                    assert(read_dec(f@[0]@).unwrap() <= usize::MAX);
                }
            }
            return None;
        },
    };
    if a > b {
        return None;
    }
    if f.len() == 2 {
        return Some(Hunk { start: a, end: b, hash: None });
    }
    match parse_dec(&f[2]) {
        Some(x) => Some(Hunk { start: a, end: b, hash: Some(x) }),
        None => None,
    }
}

} // verus!
