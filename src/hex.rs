//! Bytes as hexadecimal text, two digits per byte, and the object
//! identifiers written that way.
use vstd::prelude::*;

verus! {

/// The lower-case character of the hex digit `d` (below sixteen).
pub open spec fn hex_char(d: nat) -> char {
    if d < 10 {
        crate::decimal::digit_char(d)
    } else if d == 10 { 'a' } else if d == 11 { 'b' } else if d == 12 { 'c' }
    else if d == 13 { 'd' } else if d == 14 { 'e' } else { 'f' }
}

pub open spec fn is_hex(c: char) -> bool {
    ('0' <= c <= '9') || ('a' <= c <= 'f') || ('A' <= c <= 'F')
}

/// The value of a hex digit of either case.
pub open spec fn hex_value(c: char) -> nat {
    if '0' <= c <= '9' {
        ((c as u32) - ('0' as u32)) as nat
    } else if 'a' <= c <= 'f' {
        ((c as u32) - ('a' as u32) + 10) as nat
    } else {
        ((c as u32) - ('A' as u32) + 10) as nat
    }
}

pub open spec fn all_hex(s: Seq<char>) -> bool {
    forall|i: int| 0 <= i < s.len() ==> is_hex(#[trigger] s[i])
}

/// The lower-case hex text of `b`, high digit first.
pub open spec fn hex_text(b: Seq<u8>) -> Seq<char> {
    Seq::new(2 * b.len(), |i: int| if i % 2 == 0 { hex_char((b[i / 2] / 16) as nat) } else { hex_char((b[i / 2] % 16) as nat) })
}

/// The bytes that a text of hex digit pairs denotes.
pub open spec fn hex_bytes(s: Seq<char>) -> Seq<u8> {
    Seq::new(s.len() / 2, |i: int| (hex_value(s[2 * i]) * 16 + hex_value(s[2 * i + 1])) as u8)
}

proof fn lemma_hex_digit(d: nat)
    requires
        d < 16,
    ensures
        is_hex(hex_char(d)),
        hex_value(hex_char(d)) == d,
{
}

/// Hex text reads back as the bytes it was written from.
pub proof fn lemma_hex_round_trip(b: Seq<u8>)
    ensures
        all_hex(hex_text(b)),
        hex_bytes(hex_text(b)) == b,
        hex_text(b).len() == 2 * b.len(),
{
    let t = hex_text(b);
    assert forall|i: int| 0 <= i < t.len() implies is_hex(#[trigger] t[i]) by {
        lemma_hex_digit((b[i / 2] / 16) as nat);
        lemma_hex_digit((b[i / 2] % 16) as nat);
    }
    assert forall|i: int| 0 <= i < b.len() implies #[trigger] hex_bytes(t)[i] == b[i] by {
        assert((2 * i) / 2 == i);
        assert((2 * i + 1) / 2 == i);
        assert((2 * i) % 2 == 0);
        assert((2 * i + 1) % 2 == 1);
        lemma_hex_digit((b[i] / 16) as nat);
        lemma_hex_digit((b[i] % 16) as nat);
        assert(b[i] == (b[i] / 16) * 16 + b[i] % 16);
    }
    assert(hex_bytes(t) =~= b);
}

fn hex_digit_char(d: u8) -> (c: char)
    requires
        d < 16,
    ensures
        c == hex_char(d as nat),
{
    if d == 0 { '0' } else if d == 1 { '1' } else if d == 2 { '2' } else if d == 3 { '3' }
    else if d == 4 { '4' } else if d == 5 { '5' } else if d == 6 { '6' } else if d == 7 { '7' }
    else if d == 8 { '8' } else if d == 9 { '9' } else if d == 10 { 'a' } else if d == 11 { 'b' }
    else if d == 12 { 'c' } else if d == 13 { 'd' } else if d == 14 { 'e' } else { 'f' }
}

fn hex_digit_value(c: char) -> (r: Option<u8>)
    ensures
        r.is_some() == is_hex(c),
        r matches Some(v) ==> v as nat == hex_value(c) && v < 16,
{
    if '0' <= c && c <= '9' {
        Some(((c as u32) - ('0' as u32)) as u8)
    } else if 'a' <= c && c <= 'f' {
        Some(((c as u32) - ('a' as u32) + 10) as u8)
    } else if 'A' <= c && c <= 'F' {
        Some(((c as u32) - ('A' as u32) + 10) as u8)
    } else {
        None
    }
}

/// Appends the hex text of `b` to `out`.
pub fn write_hex(b: &Vec<u8>, out: &mut Vec<char>)
    ensures
        final(out)@ == old(out)@ + hex_text(b@),
{
    let mut i: usize = 0;
    while i < b.len()
        invariant
            i <= b@.len(),
            out@ == old(out)@ + hex_text(b@.subrange(0, i as int)),
        decreases b@.len() - i,
    {
        let x = b[i];
        out.push(hex_digit_char(x / 16));
        out.push(hex_digit_char(x % 16));
        proof {
            let t = hex_text(b@.subrange(0, i + 1));
            let t0 = hex_text(b@.subrange(0, i as int));
            assert forall|k: int| 0 <= k < t.len() implies #[trigger] t[k] == (if k < 2 * i { t0[k] } else if k == 2 * i { hex_char((x / 16) as nat) } else { hex_char((x % 16) as nat) }) by {
                if k == 2 * i {
                    assert(k / 2 == i);
                } else if k == 2 * i + 1 {
                    assert(k / 2 == i);
                }
            }
            assert(out@ =~= old(out)@ + t);
        }
        i = i + 1;
    }
    proof {
        assert(b@.subrange(0, b@.len() as int) =~= b@);
    }
}

/// Reads `2 * n` hex digits of `s`, from position `from`, as `n` bytes.
pub fn read_hex(s: &Vec<char>, from: usize, n: usize) -> (r: Option<Vec<u8>>)
    requires
        from + 2 * n <= s@.len(),
    ensures
        r.is_some() == all_hex(s@.subrange(from as int, from + 2 * n)),
        r matches Some(b) ==> b@ == hex_bytes(s@.subrange(from as int, from + 2 * n)),
{
    let ghost t = s@.subrange(from as int, from + 2 * n);
    let len = s.len();
    let mut out: Vec<u8> = Vec::new();
    let mut i: usize = 0;
    while i < n
        invariant
            i <= n,
            len == s@.len(),
            from + 2 * n <= len,
            t == s@.subrange(from as int, from + 2 * n),
            out@.len() == i,
            forall|k: int| 0 <= k < 2 * i ==> is_hex(#[trigger] t[k]),
            forall|k: int| 0 <= k < i ==> #[trigger] out@[k] == (hex_value(t[2 * k]) * 16 + hex_value(t[2 * k + 1])) as u8,
        decreases n - i,
    {
        let hi = match hex_digit_value(s[from + 2 * i]) {
            Some(v) => v,
            None => {
                proof { assert(!is_hex(t[2 * i as int])); }
                return None;
            },
        };
        let lo = match hex_digit_value(s[from + 2 * i + 1]) {
            Some(v) => v,
            None => {
                proof { assert(!is_hex(t[2 * i + 1])); }
                return None;
            },
        };
        proof {
            assert(t[2 * i as int] == s@[from + 2 * i]);
            assert(t[2 * i + 1] == s@[from + 2 * i + 1]);
        }
        out.push(hi * 16 + lo);
        i = i + 1;
    }
    proof {
        assert(hex_bytes(t) =~= out@);
    }
    Some(out)
}

/// A version-control object identifier: twenty bytes.
#[derive(Debug)]
pub struct Oid {
    pub bytes: Vec<u8>,
}

/// Length in bytes of an object identifier.
pub const OID_LEN: usize = 20;

/// The object identifier that a text denotes: forty hex digits of either case.
pub open spec fn parse_oid_spec(s: Seq<char>) -> Option<Seq<u8>> {
    if s.len() == 2 * OID_LEN && all_hex(s) {
        Some(hex_bytes(s))
    } else {
        None
    }
}

impl View for Oid {
    type V = Seq<u8>;

    open spec fn view(&self) -> Seq<u8> {
        self.bytes@
    }
}

impl Oid {
    pub open spec fn wf(&self) -> bool {
        self.bytes@.len() == OID_LEN
    }

    /// The identifier with the given bytes, if there are twenty.
    pub fn from_bytes(bytes: Vec<u8>) -> (r: Option<Oid>)
        ensures
            r.is_some() == (bytes@.len() == OID_LEN),
            r matches Some(o) ==> o@ == bytes@,
    {
        if bytes.len() == OID_LEN { Some(Oid { bytes }) } else { None }
    }

    /// Forty lower-case hex digits.
    pub fn to_text(&self) -> (r: String)
        ensures
            r@ == hex_text(self@),
    {
        let mut out: Vec<char> = Vec::new();
        write_hex(&self.bytes, &mut out);
        crate::text::from_chars(&out)
    }

    /// Reads forty hex digits of either case.
    pub fn parse(s: &str) -> (r: Option<Oid>)
        ensures
            r.is_some() == parse_oid_spec(s@).is_some(),
            r matches Some(o) ==> o.wf() && o@ == parse_oid_spec(s@).unwrap(),
    {
        let cs = crate::text::to_chars(s);
        if cs.len() != 2 * OID_LEN {
            return None;
        }
        proof {
            assert(cs@.subrange(0, 2 * OID_LEN as int) =~= cs@);
        }
        match read_hex(&cs, 0, OID_LEN) {
            Some(b) => Some(Oid { bytes: b }),
            None => None,
        }
    }
}

/// An object identifier's text reads back as it.
pub proof fn lemma_oid_round_trip(o: Seq<u8>)
    requires
        o.len() == OID_LEN,
    ensures
        parse_oid_spec(hex_text(o)) == Some(o),
{
    lemma_hex_round_trip(o);
}

} // verus!
