//! Branch identifiers: sixteen bytes, written in the hyphenated
//! 8-4-4-4-12 hex form.
use vstd::prelude::*;
use crate::hex::{hex_text, hex_bytes, all_hex, write_hex, read_hex, lemma_hex_round_trip};
use crate::text::{to_chars, from_chars, push_range};

verus! {

/// Length in bytes of a branch identifier.
pub const ID_LEN: usize = 16;

/// Hex digits `t` with hyphens after the 8th, 12th, 16th and 20th.
pub open spec fn dashed(t: Seq<char>) -> Seq<char> {
    t.subrange(0, 8).push('-') + t.subrange(8, 12).push('-') + t.subrange(12, 16).push('-')
        + t.subrange(16, 20).push('-') + t.subrange(20, 32)
}

/// The text of an identifier.
pub open spec fn id_text(b: Seq<u8>) -> Seq<char> {
    dashed(hex_text(b))
}

/// Whether `s` has the hyphenated shape: 36 characters, hyphens in their four places.
pub open spec fn id_shape(s: Seq<char>) -> bool {
    s.len() == 36 && s[8] == '-' && s[13] == '-' && s[18] == '-' && s[23] == '-'
}

/// The 32 digits of a hyphenated text.
pub open spec fn id_digits(s: Seq<char>) -> Seq<char> {
    s.subrange(0, 8) + s.subrange(9, 13) + s.subrange(14, 18) + s.subrange(19, 23) + s.subrange(24, 36)
}

/// The identifier that a text denotes, if it is one (hex digits of either case).
pub open spec fn parse_id_spec(s: Seq<char>) -> Option<Seq<u8>> {
    if id_shape(s) && all_hex(id_digits(s)) {
        Some(hex_bytes(id_digits(s)))
    } else {
        None
    }
}

/// An identifier's text reads back as it.
pub proof fn lemma_id_round_trip(b: Seq<u8>)
    requires
        b.len() == ID_LEN,
    ensures
        parse_id_spec(id_text(b)) == Some(b),
{
    lemma_hex_round_trip(b);
    lemma_dashed(hex_text(b));
}

proof fn lemma_dashed(t: Seq<char>)
    requires
        t.len() == 32,
    ensures
        id_shape(dashed(t)),
        id_digits(dashed(t)) == t,
{
    let d = dashed(t);
    let a = t.subrange(0, 8).push('-');
    let b = t.subrange(8, 12).push('-');
    let c = t.subrange(12, 16).push('-');
    let e = t.subrange(16, 20).push('-');
    let f = t.subrange(20, 32);
    assert(d.len() == 36);
    assert forall|k: int| 0 <= k < 36 implies #[trigger] d[k] == (
        if k < 8 { t[k] } else if k == 8 { '-' } else if k < 13 { t[k - 1] } else if k == 13 { '-' }
        else if k < 18 { t[k - 2] } else if k == 18 { '-' } else if k < 23 { t[k - 3] }
        else if k == 23 { '-' } else { t[k - 4] }) by {
        assert(d == (((a + b) + c) + e) + f);
    }
    let g = id_digits(d);
    assert(g.len() == 32);
    assert forall|k: int| 0 <= k < 32 implies #[trigger] g[k] == t[k] by {
        if k < 8 { assert(g[k] == d[k]); }
        else if k < 12 { assert(g[k] == d[k + 1]); }
        else if k < 16 { assert(g[k] == d[k + 2]); }
        else if k < 20 { assert(g[k] == d[k + 3]); }
        else { assert(g[k] == d[k + 4]); }
    }
    assert(g =~= t);
}

/// Why an identifier text was refused.
#[derive(Clone, Copy, Debug, PartialEq, Eq, Structural)]
pub enum IdError {
    /// The text is not 32 hex digits in the 8-4-4-4-12 hyphenated form.
    MalformedIdentifier,
}

#[derive(Debug)]
pub struct BranchId {
    pub bytes: Vec<u8>,
}

impl View for BranchId {
    type V = Seq<u8>;

    open spec fn view(&self) -> Seq<u8> {
        self.bytes@
    }
}

impl BranchId {
    pub open spec fn wf(&self) -> bool {
        self.bytes@.len() == ID_LEN
    }

    /// The identifier with the given bytes, if there are sixteen.
    pub fn from_bytes(bytes: Vec<u8>) -> (r: Option<BranchId>)
        ensures
            r.is_some() == (bytes@.len() == ID_LEN),
            r matches Some(i) ==> i@ == bytes@,
    {
        if bytes.len() == ID_LEN { Some(BranchId { bytes }) } else { None }
    }

    /// The hyphenated lower-case form.
    pub fn to_text(&self) -> (r: String)
        requires
            self.wf(),
        ensures
            r@ == id_text(self@),
    {
        let mut t: Vec<char> = Vec::new();
        write_hex(&self.bytes, &mut t);
        let mut out: Vec<char> = Vec::new();
        push_range(&t, 0, 8, &mut out);
        out.push('-');
        push_range(&t, 8, 12, &mut out);
        out.push('-');
        push_range(&t, 12, 16, &mut out);
        out.push('-');
        push_range(&t, 16, 20, &mut out);
        out.push('-');
        push_range(&t, 20, 32, &mut out);
        proof {
            assert(out@ =~= dashed(t@));
        }
        from_chars(&out)
    }

    /// Reads the hyphenated form.
    pub fn parse(s: &str) -> (r: Result<BranchId, IdError>)
        ensures
            r.is_ok() == parse_id_spec(s@).is_some(),
            r matches Ok(i) ==> i.wf() && i@ == parse_id_spec(s@).unwrap(),
    {
        let cs = to_chars(s);
        if cs.len() != 36 || cs[8] != '-' || cs[13] != '-' || cs[18] != '-' || cs[23] != '-' {
            return Err(IdError::MalformedIdentifier);
        }
        let mut d: Vec<char> = Vec::new();
        push_range(&cs, 0, 8, &mut d);
        push_range(&cs, 9, 13, &mut d);
        push_range(&cs, 14, 18, &mut d);
        push_range(&cs, 19, 23, &mut d);
        push_range(&cs, 24, 36, &mut d);
        proof {
            assert(d@ =~= id_digits(s@));
            assert(d@.subrange(0, 32) =~= d@);
        }
        match read_hex(&d, 0, ID_LEN) {
            Some(b) => Ok(BranchId { bytes: b }),
            None => Err(IdError::MalformedIdentifier),
        }
    }
}

} // verus!
