//! Wire format of the table cells: `interruption:length:count` triples
//! joined by commas, and `sample:count` pairs.  Encoding and parsing are
//! exact inverses as long as the free-text component contains neither
//! separator, which is the documented invariant of the format.

use vstd::prelude::*;
use crate::StrifError;
use crate::bytesutil::{
    split_on,
    join_with,
    is_digits,
    dec_val,
    dec_of,
    lemma_dec_of_digits,
    lemma_split_join,
    split_bytes,
    parse_u64_dec,
    push_dec_u64,
};

verus! {

pub const COLON: u8 = 58;

pub const COMMA: u8 = 44;

pub const TAB: u8 = 9;

pub const NEWLINE: u8 = 10;

/// One parsed interruption-cell entry: the interruption bytes, the observed
/// read length it was seen at, and its occurrence count.
pub struct CellTriple {
    pub interruption: Vec<u8>,
    pub repeat_len: u32,
    pub count: u64,
}

/// `s:n:c` for one triple.
pub open spec fn encode_triple_spec(s: Seq<u8>, n: u32, c: u64) -> Seq<u8> {
    s + seq![COLON] + dec_of(n as nat) + seq![COLON] + dec_of(c as nat)
}

/// `s:c` for one pair.
pub open spec fn encode_pair_spec(s: Seq<u8>, c: u64) -> Seq<u8> {
    s + seq![COLON] + dec_of(c as nat)
}

/// The triple a colon-separated cell entry denotes, if it is well-formed:
/// exactly three fields, the last two decimal numbers in range.
pub open spec fn parse_triple_spec(part: Seq<u8>) -> Option<(Seq<u8>, u32, u64)> {
    let ps = split_on(part, COLON);
    if ps.len() == 3 && is_digits(ps[1]) && dec_val(ps[1]) <= u32::MAX && is_digits(ps[2])
        && dec_val(ps[2]) <= u64::MAX {
        Some((ps[0], dec_val(ps[1]) as u32, dec_val(ps[2]) as u64))
    } else {
        None
    }
}

/// The triples a comma-separated cell denotes, if every entry is
/// well-formed.
pub open spec fn parse_cell_spec(cell: Seq<u8>) -> Option<Seq<(Seq<u8>, u32, u64)>> {
    let parts = split_on(cell, COMMA);
    if forall|j: int| 0 <= j < parts.len() ==> #[trigger] parse_triple_spec(parts[j]) is Some {
        Some(Seq::new(parts.len(), |j: int| parse_triple_spec(parts[j])->0))
    } else {
        None
    }
}

/// A comma-joined cell of encoded triples.
pub open spec fn encode_cell_spec(triples: Seq<(Seq<u8>, u32, u64)>) -> Seq<u8> {
    join_with(
        triples.map_values(|t: (Seq<u8>, u32, u64)| encode_triple_spec(t.0, t.1, t.2)),
        COMMA,
    )
}

/// Decimal digits are neither the colon nor the comma.
pub proof fn lemma_dec_of_no_seps(n: nat)
    ensures
        !dec_of(n).contains(COLON),
        !dec_of(n).contains(COMMA),
{
    lemma_dec_of_digits(n);
    if dec_of(n).contains(COLON) {
        let w = choose|w: int| 0 <= w < dec_of(n).len() && dec_of(n)[w] == COLON;
        assert(48 <= dec_of(n)[w] <= 57);
    }
    if dec_of(n).contains(COMMA) {
        let w = choose|w: int| 0 <= w < dec_of(n).len() && dec_of(n)[w] == COMMA;
        assert(48 <= dec_of(n)[w] <= 57);
    }
}

/// Round trip for one triple: parsing `s:n:c` recovers `(s, n, c)` exactly,
/// provided `s` contains no separator; and the encoding contains no comma.
pub proof fn lemma_triple_roundtrip(s: Seq<u8>, n: u32, c: u64)
    requires
        !s.contains(COLON),
        !s.contains(COMMA),
    ensures
        parse_triple_spec(encode_triple_spec(s, n, c)) == Some((s, n, c)),
        !encode_triple_spec(s, n, c).contains(COMMA),
{
    let dn = dec_of(n as nat);
    let dc = dec_of(c as nat);
    lemma_dec_of_digits(n as nat);
    lemma_dec_of_digits(c as nat);
    lemma_dec_of_no_seps(n as nat);
    lemma_dec_of_no_seps(c as nat);
    let parts = seq![s, dn, dc];
    assert forall|j: int| 0 <= j < parts.len() implies !(#[trigger] parts[j]).contains(COLON) by {
        assert(parts[0] == s && parts[1] == dn && parts[2] == dc);
    }
    lemma_split_join(parts, COLON);
    assert(parts.drop_first() =~= seq![dn, dc]);
    assert(seq![dn, dc].drop_first() =~= seq![dc]);
    assert(join_with(seq![dc], COLON) == dc);
    assert(join_with(seq![dn, dc], COLON) == dn + seq![COLON] + dc);
    assert(join_with(parts, COLON) == s + seq![COLON] + (dn + seq![COLON] + dc));
    assert(s + seq![COLON] + (dn + seq![COLON] + dc) =~= encode_triple_spec(s, n, c));
    assert(split_on(encode_triple_spec(s, n, c), COLON) == parts);
    assert(parse_triple_spec(encode_triple_spec(s, n, c)) == Some((s, n, c)));
    let e = encode_triple_spec(s, n, c);
    if e.contains(COMMA) {
        let w = choose|w: int| 0 <= w < e.len() && e[w] == COMMA;
        if w < s.len() {
            assert(s[w] == COMMA);
        } else if w == s.len() {
        } else if w < s.len() + 1 + dn.len() {
            assert(dn[w - s.len() - 1] == COMMA);
        } else if w == s.len() + 1 + dn.len() {
        } else {
            assert(dc[w - s.len() - dn.len() - 2] == COMMA);
        }
    }
}

/// Round trip for a whole cell: encoding a non-empty list of triples as a
/// comma-joined cell and re-parsing it recovers exactly the original
/// triples, provided no interruption contains a colon or a comma.
pub proof fn lemma_cell_roundtrip(triples: Seq<(Seq<u8>, u32, u64)>)
    requires
        triples.len() > 0,
        forall|j: int|
            0 <= j < triples.len() ==> !(#[trigger] triples[j]).0.contains(COLON) && !triples[j].0.contains(
                COMMA,
            ),
    ensures
        parse_cell_spec(encode_cell_spec(triples)) == Some(triples),
{
    let encs = triples.map_values(|t: (Seq<u8>, u32, u64)| encode_triple_spec(t.0, t.1, t.2));
    assert forall|j: int| 0 <= j < encs.len() implies !(#[trigger] encs[j]).contains(COMMA) by {
        assert(encs[j] == encode_triple_spec(triples[j].0, triples[j].1, triples[j].2));
        lemma_triple_roundtrip(triples[j].0, triples[j].1, triples[j].2);
    }
    lemma_split_join(encs, COMMA);
    let cell = encode_cell_spec(triples);
    assert(split_on(cell, COMMA) == encs);
    assert forall|j: int| 0 <= j < encs.len() implies #[trigger] parse_triple_spec(encs[j])
        == Some(triples[j]) by {
        lemma_triple_roundtrip(triples[j].0, triples[j].1, triples[j].2);
        assert(triples[j] == (triples[j].0, triples[j].1, triples[j].2));
    }
    assert(parse_cell_spec(cell) is Some);
    assert(parse_cell_spec(cell)->0 =~= triples);
}

/// Append `s:n:c` to `out`.
pub fn encode_triple_into(out: &mut Vec<u8>, s: &Vec<u8>, n: u32, c: u64)
    ensures
        final(out)@ == old(out)@ + encode_triple_spec(s@, n, c),
{
    crate::utils::append_bytes(out, s);
    out.push(COLON);
    push_dec_u64(out, n as u64);
    out.push(COLON);
    push_dec_u64(out, c);
    proof {
        assert(dec_of(n as nat) == dec_of((n as u64) as nat));
        assert(final(out)@ =~= old(out)@ + encode_triple_spec(s@, n, c));
    }
}

/// Append `s:c` to `out`.
pub fn encode_pair_into(out: &mut Vec<u8>, s: &Vec<u8>, c: u64)
    ensures
        final(out)@ == old(out)@ + encode_pair_spec(s@, c),
{
    crate::utils::append_bytes(out, s);
    out.push(COLON);
    push_dec_u64(out, c);
    proof {
        assert(final(out)@ =~= old(out)@ + encode_pair_spec(s@, c));
    }
}

/// Parse one comma-separated interruption cell into its triples.  Succeeds
/// exactly when every entry has the `interruption:length:count` shape with
/// in-range numbers; a malformed entry shape yields `MalformedCell`, an
/// out-of-range or non-numeric field `MalformedNumber`.
pub fn parse_interruption_cell(cell: &Vec<u8>) -> (r: Result<Vec<CellTriple>, StrifError>)
    ensures
        r is Ok <==> parse_cell_spec(cell@) is Some,
        r matches Ok(v) ==> {
            let ts = parse_cell_spec(cell@)->0;
            v@.len() == ts.len() && forall|j: int|
                0 <= j < v@.len() ==> (#[trigger] v@[j]).interruption@ == ts[j].0
                    && v@[j].repeat_len == ts[j].1 && v@[j].count == ts[j].2
        },
        r matches Err(e) ==> (e == StrifError::MalformedCell || e == StrifError::MalformedNumber),
{
    let parts = split_bytes(cell, COMMA);
    let ghost pspec = split_on(cell@, COMMA);
    let mut out: Vec<CellTriple> = Vec::new();
    let mut i: usize = 0;
    while i < parts.len()
        invariant
            i <= parts@.len(),
            parts@.len() == pspec.len(),
            forall|j: int| 0 <= j < pspec.len() ==> parts@[j]@ == pspec[j],
            pspec == split_on(cell@, COMMA),
            out@.len() == i,
            forall|j: int| 0 <= j < i ==> #[trigger] parse_triple_spec(pspec[j]) is Some,
            forall|j: int|
                0 <= j < i ==> (#[trigger] out@[j]).interruption@ == (parse_triple_spec(
                    pspec[j],
                )->0).0 && out@[j].repeat_len == (parse_triple_spec(pspec[j])->0).1
                    && out@[j].count == (parse_triple_spec(pspec[j])->0).2,
        decreases parts@.len() - i,
    {
        let mut fields = split_bytes(&parts[i], COLON);
        if fields.len() != 3 {
            assert(parse_triple_spec(pspec[i as int]) is None);
            return Err(StrifError::MalformedCell);
        }
        let interruption = fields.remove(0);
        let nbytes = fields.remove(0);
        let cbytes = fields.remove(0);
        proof {
            let fs = split_on(pspec[i as int], COLON);
            assert(interruption@ == fs[0]);
            assert(nbytes@ == fs[1]);
            assert(cbytes@ == fs[2]);
        }
        let n = match parse_u64_dec(&nbytes) {
            Some(n) => n,
            None => {
                assert(parse_triple_spec(pspec[i as int]) is None);
                return Err(StrifError::MalformedNumber);
            },
        };
        if n > u32::MAX as u64 {
            assert(parse_triple_spec(pspec[i as int]) is None);
            return Err(StrifError::MalformedNumber);
        }
        let c = match parse_u64_dec(&cbytes) {
            Some(c) => c,
            None => {
                assert(parse_triple_spec(pspec[i as int]) is None);
                return Err(StrifError::MalformedNumber);
            },
        };
        out.push(
            CellTriple { interruption, repeat_len: n as u32, count: c },
        );
        i += 1;
    }
    Ok(out)
}

} // verus!
