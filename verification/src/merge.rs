//! Cohort merger: streaming many per-sample profile tables into one merged,
//! depth-normalized profile.
//!
//! Normalized counts are kept as exact rationals: for a raw count `c`, read
//! length `L`, repeat length `l` and average depth `dn/dd`, the normalized
//! count `c / ((L - l + 1) * (dn/dd))` is the rational
//! `(c * dd) / ((L - l + 1) * dn)`.  Rendering that rational as a decimal
//! is left to the caller; a non-positive denominator marks the value
//! invalid (negative, infinite or not a number), which is advisory only.

use vstd::prelude::*;
use vstd::string::StringSliceAdditionalSpecFns;
use crate::StrifError;
use crate::bytesutil::{split_on, is_digits, dec_val, split_bytes, parse_u64_dec, bytes_eq};
use crate::codec::{parse_cell_spec, TAB, NEWLINE, COMMA, COLON};

verus! {

/// One data row of a per-sample profile table, as read back from disk.
pub struct ProfileRowIn {
    pub locus_id: Vec<u8>,
    pub reference_region: Vec<u8>,
    pub motif: Vec<u8>,
    pub read_count_text: Vec<u8>,
    pub interruption_cell: Vec<u8>,
}

/// One manifest row: a sample, its case/control label, and the path of its
/// profile table.
pub struct ManifestRow {
    pub sample_id: Vec<u8>,
    pub label: Vec<u8>,
    pub profile_path: Vec<u8>,
}

/// One sample's average read depth as an exact decimal rational
/// `num / den`, with `den` a power of ten.
pub struct DepthEntry {
    pub sample_id: Vec<u8>,
    pub num: u64,
    pub den: u64,
}

/// The fields of the data lines of a profile table (header line dropped,
/// empty lines skipped), or nothing if some line does not have exactly
/// five fields.
pub open spec fn profile_lines_ok(lines: Seq<Seq<u8>>) -> bool
    decreases lines.len(),
{
    if lines.len() == 0 {
        true
    } else {
        (lines[0].len() == 0 || split_on(lines[0], TAB).len() == 5) && profile_lines_ok(
            lines.drop_first(),
        )
    }
}

/// The rows denoted by the data lines, assuming `profile_lines_ok`.
pub open spec fn profile_rows_of(lines: Seq<Seq<u8>>) -> Seq<Seq<Seq<u8>>>
    decreases lines.len(),
{
    if lines.len() == 0 {
        Seq::empty()
    } else {
        let rest = profile_rows_of(lines.drop_first());
        if lines[0].len() == 0 {
            rest
        } else {
            seq![split_on(lines[0], TAB)] + rest
        }
    }
}

/// Parse a persisted profile table: drop the header line, skip empty
/// lines, and require exactly five tab-separated fields per data line.
pub fn parse_profile_table(bytes: &Vec<u8>) -> (r: Result<Vec<ProfileRowIn>, StrifError>)
    ensures
        ({
            let lines = split_on(bytes@, NEWLINE).drop_first();
            &&& r is Ok <==> profile_lines_ok(lines)
            &&& r matches Err(e) ==> e == StrifError::MalformedRow
            &&& r matches Ok(v) ==> {
                let rows = profile_rows_of(lines);
                v@.len() == rows.len() && forall|j: int|
                    0 <= j < v@.len() ==> (#[trigger] v@[j]).locus_id@ == rows[j][0]
                        && v@[j].reference_region@ == rows[j][1] && v@[j].motif@ == rows[j][2]
                        && v@[j].read_count_text@ == rows[j][3] && v@[j].interruption_cell@
                        == rows[j][4]
            }
        }),
{
    let all_lines = split_bytes(bytes, NEWLINE);
    let ghost lines = split_on(bytes@, NEWLINE).drop_first();
    let mut out: Vec<ProfileRowIn> = Vec::new();
    let mut i: usize = 1;
    proof {
        assert(lines.skip(0) =~= lines);
    }
    while i < all_lines.len()
        invariant
            1 <= i <= all_lines@.len(),
            all_lines@.len() == split_on(bytes@, NEWLINE).len(),
            forall|j: int|
                0 <= j < all_lines@.len() ==> (#[trigger] all_lines@[j])@ == split_on(
                    bytes@,
                    NEWLINE,
                )[j],
            lines == split_on(bytes@, NEWLINE).drop_first(),
            lines.len() == all_lines@.len() - 1,
            profile_lines_ok(lines.take(i - 1)),
            out@.len() == profile_rows_of(lines.take(i - 1)).len(),
            forall|j: int|
                0 <= j < out@.len() ==> {
                    let rows = profile_rows_of(lines.take(i - 1));
                    (#[trigger] out@[j]).locus_id@ == rows[j][0] && out@[j].reference_region@
                        == rows[j][1] && out@[j].motif@ == rows[j][2] && out@[j].read_count_text@
                        == rows[j][3] && out@[j].interruption_cell@ == rows[j][4]
                },
        decreases all_lines@.len() - i,
    {
        proof {
            assert(lines[i - 1] == all_lines@[i as int]@);
            assert(lines.skip(i - 1)[0] == lines[i - 1]);
            assert(lines.skip(i - 1).drop_first() =~= lines.skip(i as int));
            assert(lines.take(i as int).drop_last() =~= lines.take(i - 1));
            assert(lines.take(i as int).last() == lines[i - 1]);
        }
        if all_lines[i].len() == 0 {
            proof {
                lemma_rows_take_step(lines, i - 1);
            }
            i += 1;
            continue ;
        }
        let mut fields = split_bytes(&all_lines[i], TAB);
        if fields.len() != 5 {
            proof {
                lemma_rows_concat(lines, i - 1);
                assert(lines.skip(i - 1)[0] == lines[i - 1]);
                assert(!profile_lines_ok(lines.skip(i - 1)));
                assert(!profile_lines_ok(lines));
            }
            return Err(StrifError::MalformedRow);
        }
        let locus_id = fields.remove(0);
        let reference_region = fields.remove(0);
        let motif = fields.remove(0);
        let read_count_text = fields.remove(0);
        let interruption_cell = fields.remove(0);
        proof {
            let fs = split_on(lines[i - 1], TAB);
            assert(locus_id@ == fs[0]);
            assert(reference_region@ == fs[1]);
            assert(motif@ == fs[2]);
            assert(read_count_text@ == fs[3]);
            assert(interruption_cell@ == fs[4]);
            lemma_rows_take_step(lines, i - 1);
        }
        out.push(
            ProfileRowIn { locus_id, reference_region, motif, read_count_text, interruption_cell },
        );
        i += 1;
    }
    proof {
        assert(lines.take(all_lines@.len() - 1) =~= lines);
    }
    Ok(out)
}

/// Appending one line to a prefix extends the decoded rows by that line's
/// fields (or not at all, for an empty line), and keeps well-formedness.
pub proof fn lemma_rows_take_step(lines: Seq<Seq<u8>>, k: int)
    requires
        0 <= k < lines.len(),
    ensures
        profile_rows_of(lines.take(k + 1)) == if lines[k].len() == 0 {
            profile_rows_of(lines.take(k))
        } else {
            profile_rows_of(lines.take(k)) + seq![split_on(lines[k], TAB)]
        },
        profile_lines_ok(lines.take(k + 1)) == (profile_lines_ok(lines.take(k)) && (lines[k].len()
            == 0 || split_on(lines[k], TAB).len() == 5)),
    decreases k,
{
    if k == 0 {
        assert(lines.take(1).len() == 1);
        assert(lines.take(1)[0] == lines[0]);
        assert(lines.take(1).drop_first() =~= Seq::<Seq<u8>>::empty());
        assert(lines.take(0) =~= Seq::<Seq<u8>>::empty());
        if lines[0].len() != 0 {
            assert(profile_rows_of(lines.take(1)) == seq![split_on(lines.take(1)[0], TAB)]
                + profile_rows_of(lines.take(1).drop_first()));
            assert(profile_rows_of(lines.take(1).drop_first()).len() == 0);
            assert(profile_rows_of(lines.take(1).drop_first())
                =~= Seq::<Seq<Seq<u8>>>::empty());
            assert(profile_rows_of(lines.take(1)) =~= Seq::<Seq<Seq<u8>>>::empty() + seq![
                split_on(lines[0], TAB),
            ]);
        }
    } else {
        assert(lines.take(k + 1)[0] == lines[0]);
        assert(lines.take(k + 1).drop_first() =~= lines.drop_first().take(k));
        assert(lines.take(k)[0] == lines[0]);
        assert(lines.take(k).drop_first() =~= lines.drop_first().take(k - 1));
        assert(lines.drop_first()[k - 1] == lines[k]);
        lemma_rows_take_step(lines.drop_first(), k - 1);
        if lines[k].len() != 0 {
            if lines[0].len() == 0 {
            } else {
                assert((seq![split_on(lines[0], TAB)] + profile_rows_of(
                    lines.drop_first().take(k - 1),
                )) + seq![split_on(lines[k], TAB)] =~= seq![split_on(lines[0], TAB)] + (
                profile_rows_of(lines.drop_first().take(k - 1)) + seq![split_on(lines[k], TAB)]));
            }
        }
    }
}

/// Prefix-suffix split of the decoded rows.
pub proof fn lemma_rows_concat(lines: Seq<Seq<u8>>, k: int)
    requires
        0 <= k <= lines.len(),
    ensures
        profile_rows_of(lines) == profile_rows_of(lines.take(k)) + profile_rows_of(lines.skip(k)),
        profile_lines_ok(lines) == (profile_lines_ok(lines.take(k)) && profile_lines_ok(
            lines.skip(k),
        )),
    decreases k,
{
    if k == 0 {
        assert(lines.take(0) =~= Seq::<Seq<u8>>::empty());
        assert(lines.skip(0) =~= lines);
        assert(profile_rows_of(Seq::<Seq<u8>>::empty()) + profile_rows_of(lines) =~= profile_rows_of(
            lines,
        ));
    } else {
        assert(lines.take(k)[0] == lines[0]);
        assert(lines.take(k).drop_first() =~= lines.drop_first().take(k - 1));
        assert(lines.drop_first().skip(k - 1) =~= lines.skip(k));
        lemma_rows_concat(lines.drop_first(), k - 1);
        if lines[0].len() != 0 {
            assert((seq![split_on(lines[0], TAB)] + profile_rows_of(lines.drop_first().take(k - 1)))
                + profile_rows_of(lines.skip(k)) =~= seq![split_on(lines[0], TAB)] + (
            profile_rows_of(lines.drop_first().take(k - 1)) + profile_rows_of(lines.skip(k))));
        }
    }
}

/// Every non-empty line splits into at least `k` tab-separated fields.
pub open spec fn lines_ok_min(lines: Seq<Seq<u8>>, k: int) -> bool
    decreases lines.len(),
{
    if lines.len() == 0 {
        true
    } else {
        (lines[0].len() == 0 || split_on(lines[0], TAB).len() >= k) && lines_ok_min(
            lines.drop_first(),
            k,
        )
    }
}

/// Take-step form of `lines_ok_min`, for loops that scan forward.
pub proof fn lemma_lines_min_take_step(lines: Seq<Seq<u8>>, j: int, k: int)
    requires
        0 <= j < lines.len(),
    ensures
        lines_ok_min(lines.take(j + 1), k) == (lines_ok_min(lines.take(j), k) && (lines[j].len()
            == 0 || split_on(lines[j], TAB).len() >= k)),
    decreases j,
{
    if j == 0 {
        assert(lines.take(1).len() == 1);
        assert(lines.take(1)[0] == lines[0]);
        assert(lines.take(1).drop_first() =~= Seq::<Seq<u8>>::empty());
        assert(lines.take(0) =~= Seq::<Seq<u8>>::empty());
    } else {
        assert(lines.take(j + 1)[0] == lines[0]);
        assert(lines.take(j + 1).drop_first() =~= lines.drop_first().take(j));
        assert(lines.take(j)[0] == lines[0]);
        assert(lines.take(j).drop_first() =~= lines.drop_first().take(j - 1));
        assert(lines.drop_first()[j - 1] == lines[j]);
        lemma_lines_min_take_step(lines.drop_first(), j - 1, k);
    }
}

/// Prefix-suffix split of `lines_ok_min`.
pub proof fn lemma_lines_min_concat(lines: Seq<Seq<u8>>, j: int, k: int)
    requires
        0 <= j <= lines.len(),
    ensures
        lines_ok_min(lines, k) == (lines_ok_min(lines.take(j), k) && lines_ok_min(
            lines.skip(j),
            k,
        )),
    decreases j,
{
    if j == 0 {
        assert(lines.take(0) =~= Seq::<Seq<u8>>::empty());
        assert(lines.skip(0) =~= lines);
    } else {
        assert(lines.take(j)[0] == lines[0]);
        assert(lines.take(j).drop_first() =~= lines.drop_first().take(j - 1));
        assert(lines.drop_first().skip(j - 1) =~= lines.skip(j));
        lemma_lines_min_concat(lines.drop_first(), j - 1, k);
    }
}

/// Parse the manifest: no header; each non-empty line holds at least three
/// tab-separated fields — sample, case/control label, profile path.
pub fn parse_manifest(bytes: &Vec<u8>) -> (r: Result<Vec<ManifestRow>, StrifError>)
    ensures
        ({
            let lines = split_on(bytes@, NEWLINE);
            &&& r is Ok <==> lines_ok_min(lines, 3)
            &&& r matches Err(e) ==> e == StrifError::MalformedRow
            &&& r matches Ok(v) ==> {
                let rows = profile_rows_of(lines);
                v@.len() == rows.len() && forall|j: int|
                    0 <= j < v@.len() ==> (#[trigger] v@[j]).sample_id@ == rows[j][0]
                        && v@[j].label@ == rows[j][1] && v@[j].profile_path@ == rows[j][2]
            }
        }),
{
    let all_lines = split_bytes(bytes, NEWLINE);
    let ghost lines = split_on(bytes@, NEWLINE);
    let mut out: Vec<ManifestRow> = Vec::new();
    let mut i: usize = 0;
    while i < all_lines.len()
        invariant
            i <= all_lines@.len(),
            all_lines@.len() == lines.len(),
            forall|j: int| 0 <= j < all_lines@.len() ==> (#[trigger] all_lines@[j])@ == lines[j],
            lines == split_on(bytes@, NEWLINE),
            lines_ok_min(lines.take(i as int), 3),
            out@.len() == profile_rows_of(lines.take(i as int)).len(),
            forall|j: int|
                0 <= j < out@.len() ==> {
                    let rows = profile_rows_of(lines.take(i as int));
                    (#[trigger] out@[j]).sample_id@ == rows[j][0] && out@[j].label@ == rows[j][1]
                        && out@[j].profile_path@ == rows[j][2]
                },
        decreases all_lines@.len() - i,
    {
        proof {
            lemma_rows_take_step(lines, i as int);
            lemma_lines_min_take_step(lines, i as int, 3);
        }
        if all_lines[i].len() > 0 {
            let mut fields = split_bytes(&all_lines[i], TAB);
            if fields.len() < 3 {
                proof {
                    lemma_lines_min_concat(lines, i as int, 3);
                    assert(lines.skip(i as int)[0] == lines[i as int]);
                    assert(!lines_ok_min(lines.skip(i as int), 3));
                }
                return Err(StrifError::MalformedRow);
            }
            let sample_id = fields.remove(0);
            let label = fields.remove(0);
            let profile_path = fields.remove(0);
            proof {
                let fs = split_on(lines[i as int], TAB);
                assert(sample_id@ == fs[0] && label@ == fs[1] && profile_path@ == fs[2]);
            }
            out.push(ManifestRow { sample_id, label, profile_path });
        }
        i += 1;
    }
    proof {
        assert(lines.take(all_lines@.len() as int) =~= lines);
    }
    Ok(out)
}

/// The decimal rational a depth field denotes: integer digits, optionally a
/// point and fraction digits; the denominator is ten to the number of
/// fraction digits.
pub open spec fn depth_value_of(text: Seq<u8>) -> Option<(nat, nat)> {
    let parts = split_on(text, 46);
    if parts.len() == 1 && is_digits(parts[0]) {
        Some((dec_val(parts[0]), 1nat))
    } else if parts.len() == 2 && is_digits(parts[0] + parts[1]) {
        Some((dec_val(parts[0] + parts[1]), pow10(parts[1].len())))
    } else {
        None
    }
}

pub open spec fn pow10(k: nat) -> nat
    decreases k,
{
    if k == 0 {
        1
    } else {
        10 * pow10((k - 1) as nat)
    }
}

/// Parse one depth value: `digits` or `digits.digits`.  Fails on any other
/// shape and on values too large to represent.  This is a deliberate
/// restriction to plain decimal notation: exponent, sign, infinity and
/// not-a-number forms have no exact rational reading and are rejected as
/// malformed rather than carried as floating point.
pub fn parse_depth(text: &Vec<u8>) -> (r: Result<(u64, u64), StrifError>)
    ensures
        r matches Ok(p) ==> depth_value_of(text@) == Some((p.0 as nat, p.1 as nat)) && p.1 >= 1,
        r matches Err(e) ==> e == StrifError::MalformedDepth,
        r is Err ==> (depth_value_of(text@) is None || (depth_value_of(text@)->0).0 > u64::MAX
            || (depth_value_of(text@)->0).1 > u64::MAX),
{
    let parts = split_bytes(text, 46);
    let ghost pspec = split_on(text@, 46);
    if parts.len() == 1 {
        match parse_u64_dec(&parts[0]) {
            Some(v) => {
                proof {
                    assert(parts@[0]@ == pspec[0]);
                }
                Ok((v, 1))
            },
            None => Err(StrifError::MalformedDepth),
        }
    } else if parts.len() == 2 {
        let mut joined: Vec<u8> = Vec::new();
        crate::utils::append_bytes(&mut joined, &parts[0]);
        crate::utils::append_bytes(&mut joined, &parts[1]);
        proof {
            assert(joined@ == pspec[0] + pspec[1]);
        }
        let num = match parse_u64_dec(&joined) {
            Some(v) => v,
            None => {
                return Err(StrifError::MalformedDepth);
            },
        };
        let fl = parts[1].len();
        let mut den: u64 = 1;
        let mut k: usize = 0;
        while k < fl
            invariant
                k <= fl,
                fl == pspec[1].len(),
                pspec == split_on(text@, 46),
                pspec.len() == 2,
                is_digits(pspec[0] + pspec[1]),
                num == dec_val(pspec[0] + pspec[1]),
                den == pow10(k as nat),
            decreases fl - k,
        {
            if den > u64::MAX / 10 {
                proof {
                    assert(10 * den > u64::MAX) by (nonlinear_arith)
                        requires
                            den > u64::MAX / 10,
                    ;
                    assert(pow10((k + 1) as nat) == 10 * pow10(k as nat));
                    lemma_pow10_mono((k + 1) as nat, fl as nat);
                }
                return Err(StrifError::MalformedDepth);
            }
            proof {
                assert(den * 10 <= u64::MAX) by (nonlinear_arith)
                    requires
                        den <= u64::MAX / 10,
                ;
            }
            den = den * 10;
            k += 1;
        }
        proof {
            lemma_pow10_mono(fl as nat, fl as nat);
        }
        Ok((num, den))
    } else {
        Err(StrifError::MalformedDepth)
    }
}

proof fn lemma_pow10_mono(a: nat, b: nat)
    requires
        a <= b,
    ensures
        pow10(a) <= pow10(b),
        pow10(a) >= 1,
    decreases b,
{
    if a < b {
        lemma_pow10_mono(a, (b - 1) as nat);
        assert(pow10(b) == 10 * pow10((b - 1) as nat));
    } else if b == 0 {
    } else {
        lemma_pow10_mono((a - 1) as nat, (b - 1) as nat);
    }
}

/// A depth field that denotes a representable decimal rational.
pub open spec fn depth_ok(t: Seq<u8>) -> bool {
    &&& depth_value_of(t) is Some
    &&& (depth_value_of(t)->0).0 <= u64::MAX
    &&& (depth_value_of(t)->0).1 <= u64::MAX
}

/// Parse the read-depth table: no header; each non-empty line holds at
/// least two tab-separated fields — sample and average depth.
pub fn parse_depth_table(bytes: &Vec<u8>) -> (r: Result<Vec<DepthEntry>, StrifError>)
    ensures
        ({
            let lines = split_on(bytes@, NEWLINE);
            let rows = profile_rows_of(lines);
            &&& r is Ok <==> (lines_ok_min(lines, 2) && forall|j: int|
                0 <= j < rows.len() ==> depth_ok(#[trigger] rows[j][1]))
            &&& r matches Err(e) ==> (e == StrifError::MalformedRow || e
                == StrifError::MalformedDepth)
            &&& r matches Ok(v) ==> v@.len() == rows.len() && forall|j: int|
                0 <= j < v@.len() ==> (#[trigger] v@[j]).sample_id@ == rows[j][0] && v@[j].num
                    == (depth_value_of(rows[j][1])->0).0 && v@[j].den == (depth_value_of(
                    rows[j][1],
                )->0).1 && v@[j].den >= 1
        }),
{
    let all_lines = split_bytes(bytes, NEWLINE);
    let ghost lines = split_on(bytes@, NEWLINE);
    let ghost rows = profile_rows_of(lines);
    let mut out: Vec<DepthEntry> = Vec::new();
    let mut i: usize = 0;
    while i < all_lines.len()
        invariant
            i <= all_lines@.len(),
            all_lines@.len() == lines.len(),
            forall|j: int| 0 <= j < all_lines@.len() ==> (#[trigger] all_lines@[j])@ == lines[j],
            lines == split_on(bytes@, NEWLINE),
            rows == profile_rows_of(lines),
            lines_ok_min(lines.take(i as int), 2),
            out@.len() == profile_rows_of(lines.take(i as int)).len(),
            forall|j: int|
                0 <= j < out@.len() ==> depth_ok(
                    #[trigger] profile_rows_of(lines.take(i as int))[j][1],
                ),
            forall|j: int|
                0 <= j < out@.len() ==> {
                    let prows = profile_rows_of(lines.take(i as int));
                    (#[trigger] out@[j]).sample_id@ == prows[j][0] && out@[j].num == (
                    depth_value_of(prows[j][1])->0).0 && out@[j].den == (depth_value_of(
                        prows[j][1],
                    )->0).1 && out@[j].den >= 1
                },
        decreases all_lines@.len() - i,
    {
        proof {
            lemma_rows_take_step(lines, i as int);
            lemma_lines_min_take_step(lines, i as int, 2);
        }
        if all_lines[i].len() > 0 {
            let mut fields = split_bytes(&all_lines[i], TAB);
            if fields.len() < 2 {
                proof {
                    lemma_lines_min_concat(lines, i as int, 2);
                    assert(lines.skip(i as int)[0] == lines[i as int]);
                    assert(!lines_ok_min(lines.skip(i as int), 2));
                }
                return Err(StrifError::MalformedRow);
            }
            let sample_id = fields.remove(0);
            let depth_text = fields.remove(0);
            proof {
                let fs = split_on(lines[i as int], TAB);
                assert(sample_id@ == fs[0] && depth_text@ == fs[1]);
            }
            let (num, den) = match parse_depth(&depth_text) {
                Ok(p) => p,
                Err(e) => {
                    proof {
                        assert(!depth_ok(depth_text@));
                        lemma_rows_concat(lines, i as int + 1);
                        let bad = profile_rows_of(lines.take(i as int)).len() as int;
                        assert(profile_rows_of(lines.take(i as int + 1))[bad] == split_on(
                            lines[i as int],
                            TAB,
                        ));
                        assert(rows[bad] == profile_rows_of(lines.take(i as int + 1))[bad]);
                        assert(!depth_ok(rows[bad][1]));
                    }
                    return Err(e);
                },
            };
            out.push(DepthEntry { sample_id, num, den });
        }
        i += 1;
    }
    proof {
        assert(lines.take(all_lines@.len() as int) =~= lines);
    }
    Ok(out)
}

/// Depth of `sample`, by first matching entry.
pub open spec fn depth_lookup(s: Seq<DepthEntry>, sample: Seq<u8>) -> Option<(u64, u64)>
    decreases s.len(),
{
    if s.len() == 0 {
        None
    } else if s[0].sample_id@ == sample {
        Some((s[0].num, s[0].den))
    } else {
        depth_lookup(s.drop_first(), sample)
    }
}

/// Find a sample's depth entry.
pub fn find_depth(depths: &Vec<DepthEntry>, sample: &Vec<u8>) -> (r: Option<(u64, u64)>)
    ensures
        r == depth_lookup(depths@, sample@),
{
    let n = depths.len();
    let mut i: usize = 0;
    proof {
        assert(depths@.skip(0) =~= depths@);
    }
    while i < n
        invariant
            i <= n == depths@.len(),
            depth_lookup(depths@, sample@) == depth_lookup(depths@.skip(i as int), sample@),
        decreases n - i,
    {
        proof {
            assert(depths@.skip(i as int)[0] == depths@[i as int]);
            assert(depths@.skip(i as int).drop_first() =~= depths@.skip(i as int + 1));
        }
        if bytes_eq(&depths[i].sample_id, sample) {
            return Some((depths[i].num, depths[i].den));
        }
        i += 1;
    }
    None
}

/// The exact normalized count as a rational: `count / ((read_len −
/// repeat_len + 1) × depth)` with depth `depth_num / depth_den` is
/// `(count × depth_den) / ((read_len − repeat_len + 1) × depth_num)`.  The
/// denominator may be zero or negative; such a value is invalid (the float
/// counterpart is negative, infinite or not a number) but still recorded.
pub fn norm_interruption_count(count: u64, read_len: u32, repeat_len: u32, depth_num: u64, depth_den: u64)
    -> (r: (u128, i128))
    ensures
        r.0 == count as nat * depth_den as nat,
        r.1 == (read_len as int - repeat_len as int + 1) * depth_num as int,
{
    proof {
        assert((count as int) * (depth_den as int) <= u128::MAX) by (nonlinear_arith)
            requires
                0 <= count <= u64::MAX && 0 <= depth_den <= u64::MAX,
        ;
    }
    let num: u128 = (count as u128) * (depth_den as u128);
    let nps: i64 = (read_len as i64) - (repeat_len as i64) + 1;
    proof {
        assert((nps as int) * (depth_num as int) <= i128::MAX && (nps as int) * (depth_num as int)
            >= i128::MIN) by (nonlinear_arith)
            requires
                -0x1_0000_0000i128 <= nps as int <= 0x1_0000_0001i128,
                0 <= depth_num as int <= 0xffff_ffff_ffff_ffffi128,
        ;
    }
    let den: i128 = (nps as i128) * (depth_num as i128);
    (num, den)
}

/// One (locus, sample, count) read-count contribution, in manifest order.
pub struct MergedReadCount {
    pub locus_id: Vec<u8>,
    pub sample_id: Vec<u8>,
    pub count: u64,
}

/// One exact normalized-count contribution: the raw count and repeat
/// length from a profile row, the sample depth it was normalized with, and
/// the resulting rational.
#[derive(Clone, Copy)]
pub struct Contribution {
    pub count: u64,
    pub repeat_len: u32,
    pub depth_num: u64,
    pub depth_den: u64,
    pub norm_num: u128,
    pub norm_den: i128,
}

/// The accumulated contributions for one (locus, sample, interruption) key.
pub struct MergedInterruption {
    pub locus_id: Vec<u8>,
    pub sample_id: Vec<u8>,
    pub interruption: Vec<u8>,
    pub contributions: Vec<Contribution>,
}

/// A first-wins locus attribute (motif or reference region).
pub struct LocusAttr {
    pub locus_id: Vec<u8>,
    pub value: Vec<u8>,
}

/// An advisory data-quality warning: the value it concerns is still
/// recorded.
pub struct MergeWarning {
    pub sample_id: Vec<u8>,
    pub locus_id: Vec<u8>,
    pub interruption: Vec<u8>,
    pub repeat_len: u32,
    pub invalid_norm: bool,
}

/// One sample's parsed profile table, in manifest order.
pub struct SampleTable {
    pub sample_id: Vec<u8>,
    pub rows: Vec<ProfileRowIn>,
}

pub open spec fn attr_lookup(s: Seq<LocusAttr>, id: Seq<u8>) -> Option<Seq<u8>>
    decreases s.len(),
{
    if s.len() == 0 {
        None
    } else if s[0].locus_id@ == id {
        Some(s[0].value@)
    } else {
        attr_lookup(s.drop_first(), id)
    }
}

/// No two attribute entries share a locus identifier.
pub open spec fn attr_unique(s: Seq<LocusAttr>) -> bool {
    forall|i: int, j: int|
        0 <= i < j < s.len() ==> (#[trigger] s[i]).locus_id@ != (#[trigger] s[j]).locus_id@
}

pub proof fn lemma_attr_lookup_push(s: Seq<LocusAttr>, e: LocusAttr, id: Seq<u8>)
    ensures
        attr_lookup(s.push(e), id) == if attr_lookup(s, id) is Some {
            attr_lookup(s, id)
        } else if e.locus_id@ == id {
            Some(e.value@)
        } else {
            None
        },
    decreases s.len(),
{
    if s.len() == 0 {
        assert(s.push(e)[0] == e);
        assert(s.push(e).drop_first() =~= Seq::<LocusAttr>::empty());
        assert(attr_lookup(Seq::<LocusAttr>::empty(), id) is None);
        assert(attr_lookup(s, id) is None);
        assert(s.push(e).len() == 1);
    } else {
        assert(s.push(e)[0] == s[0]);
        assert(s.push(e).drop_first() =~= s.drop_first().push(e));
        lemma_attr_lookup_push(s.drop_first(), e, id);
    }
}

/// No two merged-interruption entries share a (locus, sample,
/// interruption) key.
pub open spec fn mi_unique(s: Seq<MergedInterruption>) -> bool {
    forall|i: int, j: int|
        0 <= i < j < s.len() ==> !((#[trigger] s[i]).locus_id@ == (
        #[trigger] s[j]).locus_id@ && s[i].sample_id@ == s[j].sample_id@ && s[i].interruption@
            == s[j].interruption@)
}

/// Contributions of the first entry of `s` with the given key, empty when
/// the key is absent.
pub open spec fn mi_contribs(s: Seq<MergedInterruption>, l: Seq<u8>, smp: Seq<u8>, intr: Seq<u8>)
    -> Seq<(u64, u32)>
    decreases s.len(),
{
    if s.len() == 0 {
        Seq::empty()
    } else if s[0].locus_id@ == l && s[0].sample_id@ == smp && s[0].interruption@ == intr {
        s[0].contributions@.map_values(|c: Contribution| (c.count, c.repeat_len))
    } else {
        mi_contribs(s.drop_first(), l, smp, intr)
    }
}

pub proof fn lemma_mi_push(
    s: Seq<MergedInterruption>,
    e: MergedInterruption,
    l: Seq<u8>,
    smp: Seq<u8>,
    intr: Seq<u8>,
)
    requires
        forall|j: int|
            0 <= j < s.len() ==> !((#[trigger] s[j]).locus_id@ == e.locus_id@ && s[j].sample_id@
                == e.sample_id@ && s[j].interruption@ == e.interruption@),
    ensures
        mi_contribs(s.push(e), e.locus_id@, e.sample_id@, e.interruption@)
            == e.contributions@.map_values(|c: Contribution| (c.count, c.repeat_len)),
        !(e.locus_id@ == l && e.sample_id@ == smp && e.interruption@ == intr) ==> mi_contribs(
            s.push(e),
            l,
            smp,
            intr,
        ) == mi_contribs(s, l, smp, intr),
    decreases s.len(),
{
    if s.len() == 0 {
        assert(s.push(e)[0] == e);
        assert(s.push(e).drop_first() =~= Seq::<MergedInterruption>::empty());
        assert(s.push(e).len() == 1);
        assert(mi_contribs(Seq::<MergedInterruption>::empty(), l, smp, intr) =~= Seq::<
            (u64, u32),
        >::empty());
        assert(mi_contribs(s, l, smp, intr) =~= Seq::<(u64, u32)>::empty());
    } else {
        assert(s.push(e)[0] == s[0]);
        assert(s.push(e).drop_first() =~= s.drop_first().push(e));
        assert forall|j: int|
            0 <= j < s.drop_first().len() implies !((#[trigger] s.drop_first()[j]).locus_id@
                == e.locus_id@ && s.drop_first()[j].sample_id@ == e.sample_id@
                && s.drop_first()[j].interruption@ == e.interruption@) by {
            assert(s.drop_first()[j] == s[j + 1]);
        }
        lemma_mi_push(s.drop_first(), e, l, smp, intr);
    }
}

pub proof fn lemma_mi_update(
    s: Seq<MergedInterruption>,
    k: int,
    e: MergedInterruption,
    l: Seq<u8>,
    smp: Seq<u8>,
    intr: Seq<u8>,
)
    requires
        0 <= k < s.len(),
        s[k].locus_id@ == e.locus_id@ && s[k].sample_id@ == e.sample_id@ && s[k].interruption@
            == e.interruption@,
        forall|j: int|
            0 <= j < k ==> !((#[trigger] s[j]).locus_id@ == e.locus_id@ && s[j].sample_id@
                == e.sample_id@ && s[j].interruption@ == e.interruption@),
    ensures
        mi_contribs(s.update(k, e), e.locus_id@, e.sample_id@, e.interruption@)
            == e.contributions@.map_values(|c: Contribution| (c.count, c.repeat_len)),
        !(e.locus_id@ == l && e.sample_id@ == smp && e.interruption@ == intr) ==> mi_contribs(
            s.update(k, e),
            l,
            smp,
            intr,
        ) == mi_contribs(s, l, smp, intr),
    decreases k,
{
    let t = s.update(k, e);
    if k == 0 {
        assert(t[0] == e);
        assert(t.drop_first() =~= s.drop_first());
    } else {
        assert(t[0] == s[0]);
        assert(t.drop_first() =~= s.drop_first().update(k - 1, e));
        assert forall|j: int|
            0 <= j < k - 1 implies !((#[trigger] s.drop_first()[j]).locus_id@ == e.locus_id@
                && s.drop_first()[j].sample_id@ == e.sample_id@ && s.drop_first()[j].interruption@
                == e.interruption@) by {
            assert(s.drop_first()[j] == s[j + 1]);
        }
        lemma_mi_update(s.drop_first(), k - 1, e, l, smp, intr);
    }
}

/// The merged cohort profile under construction: read counts in manifest
/// order, accumulated normalized-interruption contributions keyed by
/// (locus, sample, interruption), first-wins motifs and reference regions,
/// and advisory warnings.
pub struct MergedProfile {
    pub read_counts: Vec<MergedReadCount>,
    pub interruption_counts: Vec<MergedInterruption>,
    pub motifs: Vec<LocusAttr>,
    pub reference_regions: Vec<LocusAttr>,
    pub warnings: Vec<MergeWarning>,
}

impl MergedProfile {
    pub fn new() -> (r: MergedProfile)
        ensures
            r.read_counts@.len() == 0,
            r.interruption_counts@.len() == 0,
            r.motifs@.len() == 0,
            r.reference_regions@.len() == 0,
            r.warnings@.len() == 0,
    {
        MergedProfile {
            read_counts: Vec::new(),
            interruption_counts: Vec::new(),
            motifs: Vec::new(),
            reference_regions: Vec::new(),
            warnings: Vec::new(),
        }
    }

    /// Record one sample's read count for a locus, in processing order.
    pub fn add_read_count(&mut self, locus_id: &Vec<u8>, sample_id: &Vec<u8>, count: u64)
        ensures
            final(self).read_counts@.len() == old(self).read_counts@.len() + 1,
            final(self).read_counts@.drop_last() == old(self).read_counts@,
            final(self).read_counts@.last().locus_id@ == locus_id@,
            final(self).read_counts@.last().sample_id@ == sample_id@,
            final(self).read_counts@.last().count == count,
            final(self).interruption_counts@ == old(self).interruption_counts@,
            final(self).motifs@ == old(self).motifs@,
            final(self).reference_regions@ == old(self).reference_regions@,
            final(self).warnings@ == old(self).warnings@,
    {
        self.read_counts.push(
            MergedReadCount {
                locus_id: locus_id.clone(),
                sample_id: sample_id.clone(),
                count,
            },
        );
        proof {
            assert(self.read_counts@.drop_last() =~= old(self).read_counts@);
        }
    }

    /// Record a locus's reference region; the first recorded value wins.
    pub fn add_reference_region(&mut self, locus_id: &Vec<u8>, value: &Vec<u8>)
        ensures
            attr_lookup(final(self).reference_regions@, locus_id@) == if attr_lookup(
                old(self).reference_regions@,
                locus_id@,
            ) is Some {
                attr_lookup(old(self).reference_regions@, locus_id@)
            } else {
                Some(value@)
            },
            forall|id: Seq<u8>|
                id != locus_id@ ==> attr_lookup(final(self).reference_regions@, id) == attr_lookup(
                    old(self).reference_regions@,
                    id,
                ),
            final(self).read_counts@ == old(self).read_counts@,
            final(self).interruption_counts@ == old(self).interruption_counts@,
            final(self).motifs@ == old(self).motifs@,
            final(self).warnings@ == old(self).warnings@,
            attr_lookup(old(self).reference_regions@, locus_id@) is Some ==> final(self).reference_regions@ == old(self).reference_regions@,
            attr_lookup(old(self).reference_regions@, locus_id@) is None ==> (final(self).reference_regions@.len() == old(self).reference_regions@.len() + 1 && final(self).reference_regions@.drop_last() == old(self).reference_regions@ && final(self).reference_regions@.last().locus_id@ == locus_id@ && final(self).reference_regions@.last().value@ == value@),
            attr_unique(old(self).reference_regions@) ==> attr_unique(
                final(self).reference_regions@,
            ),
    {
        attr_insert(&mut self.reference_regions, locus_id, value);
    }

    /// Record a locus's motif; the first recorded value wins.
    pub fn add_motif(&mut self, locus_id: &Vec<u8>, value: &Vec<u8>)
        ensures
            attr_lookup(final(self).motifs@, locus_id@) == if attr_lookup(
                old(self).motifs@,
                locus_id@,
            ) is Some {
                attr_lookup(old(self).motifs@, locus_id@)
            } else {
                Some(value@)
            },
            forall|id: Seq<u8>|
                id != locus_id@ ==> attr_lookup(final(self).motifs@, id) == attr_lookup(
                    old(self).motifs@,
                    id,
                ),
            final(self).read_counts@ == old(self).read_counts@,
            final(self).interruption_counts@ == old(self).interruption_counts@,
            final(self).reference_regions@ == old(self).reference_regions@,
            final(self).warnings@ == old(self).warnings@,
            attr_lookup(old(self).motifs@, locus_id@) is Some ==> final(self).motifs@ == old(self).motifs@,
            attr_lookup(old(self).motifs@, locus_id@) is None ==> (final(self).motifs@.len()
                == old(self).motifs@.len() + 1 && final(self).motifs@.drop_last() == old(self).motifs@ && final(self).motifs@.last().locus_id@ == locus_id@ && final(self).motifs@.last().value@ == value@),
            attr_unique(old(self).motifs@) ==> attr_unique(final(self).motifs@),
    {
        attr_insert(&mut self.motifs, locus_id, value);
    }
}

/// First-wins insertion into an attribute list: a no-op when the key is
/// already present, else an append.
fn attr_insert(attrs: &mut Vec<LocusAttr>, locus_id: &Vec<u8>, value: &Vec<u8>)
    ensures
        attr_lookup(final(attrs)@, locus_id@) == if attr_lookup(old(attrs)@, locus_id@) is Some {
            attr_lookup(old(attrs)@, locus_id@)
        } else {
            Some(value@)
        },
        forall|id: Seq<u8>|
            id != locus_id@ ==> attr_lookup(final(attrs)@, id) == attr_lookup(old(attrs)@, id),
        attr_lookup(old(attrs)@, locus_id@) is Some ==> final(attrs)@ == old(attrs)@,
        attr_lookup(old(attrs)@, locus_id@) is None ==> (final(attrs)@.len() == old(attrs)@.len() + 1 && final(attrs)@.drop_last() == old(attrs)@ && final(attrs)@.last().locus_id@ == locus_id@ && final(attrs)@.last().value@ == value@),
        attr_unique(old(attrs)@) ==> attr_unique(final(attrs)@),
{
    let ghost olds = attrs@;
    let n = attrs.len();
    let mut i: usize = 0;
    proof {
        assert(olds.skip(0) =~= olds);
    }
    while i < n
        invariant
            i <= n == attrs@.len(),
            attrs@ == olds,
            forall|j: int| 0 <= j < i ==> (#[trigger] olds[j]).locus_id@ != locus_id@,
            attr_lookup(olds, locus_id@) == attr_lookup(olds.skip(i as int), locus_id@),
        decreases n - i,
    {
        proof {
            assert(olds.skip(i as int)[0] == olds[i as int]);
            assert(olds.skip(i as int).drop_first() =~= olds.skip(i as int + 1));
        }
        if bytes_eq(&attrs[i].locus_id, locus_id) {
            proof {
                assert(attr_lookup(olds.skip(i as int), locus_id@) is Some);
            }
            return ;
        }
        i += 1;
    }
    let e = LocusAttr { locus_id: locus_id.clone(), value: value.clone() };
    proof {
        assert(attr_lookup(olds, locus_id@) is None);
        lemma_attr_lookup_push(olds, e, locus_id@);
        assert forall|id: Seq<u8>| id != locus_id@ implies attr_lookup(olds.push(e), id)
            == attr_lookup(olds, id) by {
            lemma_attr_lookup_push(olds, e, id);
        }
    }
    attrs.push(e);
    proof {
        assert(attrs@.drop_last() =~= olds);
        if attr_unique(olds) {
            assert forall|a: int, b: int|
                0 <= a < b < attrs@.len() implies (#[trigger] attrs@[a]).locus_id@ != (
            #[trigger] attrs@[b]).locus_id@ by {
                if b < olds.len() {
                    assert(attrs@[a] == olds[a] && attrs@[b] == olds[b]);
                } else {
                    assert(attrs@[a] == olds[a]);
                    assert(attrs@[b].locus_id@ == locus_id@);
                    assert(olds[a].locus_id@ != locus_id@);
                }
            }
        }
    }
}

impl MergedProfile {
    /// Add one normalized contribution under (locus, sample, interruption),
    /// appending to the key's accumulator or creating it.
    pub fn increment_interruption(
        &mut self,
        locus_id: &Vec<u8>,
        sample_id: &Vec<u8>,
        interruption: &Vec<u8>,
        c: Contribution,
    )
        requires
            mi_unique(old(self).interruption_counts@),
        ensures
            mi_unique(final(self).interruption_counts@),
            mi_contribs(final(self).interruption_counts@, locus_id@, sample_id@, interruption@)
                == mi_contribs(
                old(self).interruption_counts@,
                locus_id@,
                sample_id@,
                interruption@,
            ).push((c.count, c.repeat_len)),
            forall|l: Seq<u8>, smp: Seq<u8>, intr: Seq<u8>|
                !(l == locus_id@ && smp == sample_id@ && intr == interruption@)
                    ==> #[trigger] mi_contribs(final(self).interruption_counts@, l, smp, intr)
                    == mi_contribs(old(self).interruption_counts@, l, smp, intr),
            forall|j: int|
                0 <= j < final(self).interruption_counts@.len() ==> (((
                #[trigger] final(self).interruption_counts@[j]).locus_id@ == locus_id@ && final(self).interruption_counts@[j].sample_id@ == sample_id@ && final(self).interruption_counts@[j].interruption@ == interruption@) || exists|j2: int|
                    0 <= j2 < old(self).interruption_counts@.len() && ((
                    #[trigger] old(self).interruption_counts@[j2]).locus_id@ == final(self).interruption_counts@[j].locus_id@ && old(self).interruption_counts@[j2].sample_id@ == final(self).interruption_counts@[j].sample_id@ && old(self).interruption_counts@[j2].interruption@ == final(self).interruption_counts@[j].interruption@)),
            forall|j: int, t: int|
                0 <= j < final(self).interruption_counts@.len() && 0 <= t < (
                #[trigger] final(self).interruption_counts@[j]).contributions@.len() ==> (((
                #[trigger] final(self).interruption_counts@[j].contributions@[t]) == c && final(self).interruption_counts@[j].sample_id@ == sample_id@) || exists|j2: int, t2: int|
                    0 <= j2 < old(self).interruption_counts@.len() && 0 <= t2 < old(self).interruption_counts@[j2].contributions@.len() && old(self).interruption_counts@[j2].sample_id@ == final(self).interruption_counts@[j].sample_id@ && (#[trigger] old(self).interruption_counts@[j2].contributions@[t2]) == final(self).interruption_counts@[j].contributions@[t]),
            final(self).read_counts@ == old(self).read_counts@,
            final(self).motifs@ == old(self).motifs@,
            final(self).reference_regions@ == old(self).reference_regions@,
            final(self).warnings@ == old(self).warnings@,
    {
        let ghost olds = self.interruption_counts@;
        let n = self.interruption_counts.len();
        let mut i: usize = 0;
        proof {
            assert(olds.skip(0) =~= olds);
        }
        while i < n
            invariant
                i <= n == self.interruption_counts@.len(),
                self.interruption_counts@ == olds,
                olds == old(self).interruption_counts@,
                mi_unique(olds),
                self.read_counts@ == old(self).read_counts@,
                self.motifs@ == old(self).motifs@,
                self.reference_regions@ == old(self).reference_regions@,
                self.warnings@ == old(self).warnings@,
                forall|j: int|
                    0 <= j < i ==> !((#[trigger] olds[j]).locus_id@ == locus_id@
                        && olds[j].sample_id@ == sample_id@ && olds[j].interruption@
                        == interruption@),
                mi_contribs(olds, locus_id@, sample_id@, interruption@) == mi_contribs(
                    olds.skip(i as int),
                    locus_id@,
                    sample_id@,
                    interruption@,
                ),
            decreases n - i,
        {
            proof {
                assert(olds.skip(i as int)[0] == olds[i as int]);
                assert(olds.skip(i as int).drop_first() =~= olds.skip(i as int + 1));
            }
            if bytes_eq(&self.interruption_counts[i].locus_id, locus_id) && bytes_eq(
                &self.interruption_counts[i].sample_id,
                sample_id,
            ) && bytes_eq(&self.interruption_counts[i].interruption, interruption) {
                let mut entry = self.interruption_counts.remove(i);
                let ghost old_contribs = entry.contributions@;
                entry.contributions.push(c);
                proof {
                    assert(mi_contribs(olds, locus_id@, sample_id@, interruption@)
                        == olds[i as int].contributions@.map_values(
                        |cc: Contribution| (cc.count, cc.repeat_len),
                    ));
                }
                self.interruption_counts.insert(i, entry);
                proof {
                    let e = self.interruption_counts@[i as int];
                    assert(self.interruption_counts@ =~= olds.update(i as int, e));
                    assert(e.locus_id@ == olds[i as int].locus_id@ && e.sample_id@ == olds[
                        i as int
                    ].sample_id@ && e.interruption@ == olds[i as int].interruption@);
                    assert forall|a: int, b: int|
                        0 <= a < b < self.interruption_counts@.len() implies !((
                    #[trigger] self.interruption_counts@[a]).locus_id@ == (
                    #[trigger] self.interruption_counts@[b]).locus_id@
                        && self.interruption_counts@[a].sample_id@
                        == self.interruption_counts@[b].sample_id@
                        && self.interruption_counts@[a].interruption@
                        == self.interruption_counts@[b].interruption@) by {
                        assert(!(olds[a].locus_id@ == olds[b].locus_id@ && olds[a].sample_id@
                            == olds[b].sample_id@ && olds[a].interruption@
                            == olds[b].interruption@));
                        if a != i {
                            assert(self.interruption_counts@[a] == olds[a]);
                        }
                        if b != i {
                            assert(self.interruption_counts@[b] == olds[b]);
                        }
                    }
                    assert(e.contributions@ == old_contribs.push(c));
                    assert(e.contributions@.map_values(|cc: Contribution| (cc.count, cc.repeat_len))
                        =~= old_contribs.map_values(
                        |cc: Contribution| (cc.count, cc.repeat_len),
                    ).push((c.count, c.repeat_len)));
                    lemma_mi_update(olds, i as int, e, locus_id@, sample_id@, interruption@);
                    assert forall|l: Seq<u8>, smp: Seq<u8>, intr: Seq<u8>|
                        !(l == locus_id@ && smp == sample_id@ && intr
                            == interruption@) implies #[trigger] mi_contribs(
                        self.interruption_counts@,
                        l,
                        smp,
                        intr,
                    ) == mi_contribs(olds, l, smp, intr) by {
                        lemma_mi_update(olds, i as int, e, l, smp, intr);
                    }
                    assert forall|j: int|
                        0 <= j < self.interruption_counts@.len() && j != i implies (
                    #[trigger] self.interruption_counts@[j]) == olds[j] by {}
                    assert forall|j: int|
                        0 <= j < self.interruption_counts@.len() implies (((
                    #[trigger] self.interruption_counts@[j]).locus_id@ == locus_id@
                        && self.interruption_counts@[j].sample_id@ == sample_id@
                        && self.interruption_counts@[j].interruption@ == interruption@)
                        || exists|j2: int|
                        0 <= j2 < olds.len() && ((#[trigger] olds[j2]).locus_id@
                            == self.interruption_counts@[j].locus_id@ && olds[j2].sample_id@
                            == self.interruption_counts@[j].sample_id@ && olds[j2].interruption@
                            == self.interruption_counts@[j].interruption@)) by {
                        if j != i {
                            assert(self.interruption_counts@[j] == olds[j]);
                            assert(0 <= j < olds.len() && olds[j].locus_id@
                                == self.interruption_counts@[j].locus_id@ && olds[j].sample_id@
                                == self.interruption_counts@[j].sample_id@ && olds[j].interruption@
                                == self.interruption_counts@[j].interruption@);
                        } else {
                            assert(self.interruption_counts@[j] == e);
                        }
                    }
                    assert forall|j: int, t: int|
                        0 <= j < self.interruption_counts@.len() && 0 <= t < (
                    #[trigger] self.interruption_counts@[j]).contributions@.len() implies (((
                    #[trigger] self.interruption_counts@[j].contributions@[t]) == c
                        && self.interruption_counts@[j].sample_id@ == sample_id@)
                        || exists|j2: int, t2: int|
                        0 <= j2 < olds.len() && 0 <= t2 < olds[j2].contributions@.len()
                            && olds[j2].sample_id@ == self.interruption_counts@[j].sample_id@ && (
                        #[trigger] olds[j2].contributions@[t2])
                            == self.interruption_counts@[j].contributions@[t]) by {
                        if j != i {
                            assert(self.interruption_counts@[j] == olds[j]);
                            assert(0 <= j < olds.len() && 0 <= t
                                < olds[j].contributions@.len() && olds[j].sample_id@
                                == self.interruption_counts@[j].sample_id@
                                && olds[j].contributions@[t]
                                == self.interruption_counts@[j].contributions@[t]);
                        } else {
                            assert(self.interruption_counts@[j] == e);
                            if t < e.contributions@.len() - 1 {
                                assert(e.contributions@[t] == old_contribs[t]);
                                assert(0 <= i < olds.len() && 0 <= t < olds[
                                    i as int
                                ].contributions@.len() && olds[i as int].sample_id@
                                    == self.interruption_counts@[j].sample_id@ && olds[
                                    i as int
                                ].contributions@[t]
                                    == self.interruption_counts@[j].contributions@[t]);
                            } else {
                                assert(e.contributions@[t] == c);
                            }
                        }
                    }
                }
                return ;
            }
            i += 1;
        }
        let mut contributions: Vec<Contribution> = Vec::new();
        contributions.push(c);
        let e = MergedInterruption {
            locus_id: locus_id.clone(),
            sample_id: sample_id.clone(),
            interruption: interruption.clone(),
            contributions,
        };
        proof {
            assert(mi_contribs(olds, locus_id@, sample_id@, interruption@) =~= Seq::<
                (u64, u32),
            >::empty());
            lemma_mi_push(olds, e, locus_id@, sample_id@, interruption@);
            assert forall|l: Seq<u8>, smp: Seq<u8>, intr: Seq<u8>|
                !(l == locus_id@ && smp == sample_id@ && intr
                    == interruption@) implies #[trigger] mi_contribs(olds.push(e), l, smp, intr)
                == mi_contribs(olds, l, smp, intr) by {
                lemma_mi_push(olds, e, l, smp, intr);
            }
            assert(e.contributions@.map_values(|cc: Contribution| (cc.count, cc.repeat_len)) =~= Seq::<
                (u64, u32),
            >::empty().push((c.count, c.repeat_len)));
        }
        self.interruption_counts.push(e);
        proof {
            assert(self.interruption_counts@.drop_last() =~= olds);
            assert forall|a: int, b: int|
                0 <= a < b < self.interruption_counts@.len() implies !((
            #[trigger] self.interruption_counts@[a]).locus_id@ == (
            #[trigger] self.interruption_counts@[b]).locus_id@
                && self.interruption_counts@[a].sample_id@
                == self.interruption_counts@[b].sample_id@
                && self.interruption_counts@[a].interruption@
                == self.interruption_counts@[b].interruption@) by {
                if b < olds.len() {
                    assert(self.interruption_counts@[a] == olds[a]);
                    assert(self.interruption_counts@[b] == olds[b]);
                } else {
                    assert(self.interruption_counts@[a] == olds[a]);
                    assert(self.interruption_counts@[b].locus_id@ == locus_id@
                        && self.interruption_counts@[b].sample_id@ == sample_id@
                        && self.interruption_counts@[b].interruption@ == interruption@);
                }
            }
        }
    }
}

/// Whether the row's locus passes the optional filter.
pub open spec fn row_selected(pat: Option<Seq<char>>, row: ProfileRowIn) -> bool {
    crate::catalog::filter_passes(pat, row.locus_id@)
}

/// Whether the row's read-count field is a representable decimal.
pub open spec fn row_count_ok(row: ProfileRowIn) -> bool {
    is_digits(row.read_count_text@) && dec_val(row.read_count_text@) <= u64::MAX
}

/// Whether the row is retained: selected by the filter and at or above the
/// minimum read count.
pub open spec fn row_passes(pat: Option<Seq<char>>, min: u64, row: ProfileRowIn) -> bool {
    row_selected(pat, row) && row_count_ok(row) && dec_val(row.read_count_text@) >= min
}

/// What a successful merge demands of its inputs: every selected row has a
/// parseable read count, and every retained row with a non-empty
/// interruption cell has a parseable cell and a known sample depth.
pub open spec fn merge_inputs_ok(
    samples: Seq<SampleTable>,
    depths: Seq<DepthEntry>,
    pat: Option<Seq<char>>,
    min: u64,
) -> bool {
    forall|si: int, ri: int|
        0 <= si < samples.len() && 0 <= ri < samples[si].rows@.len() ==> {
            let row = #[trigger] samples[si].rows@[ri];
            &&& (row_selected(pat, row) ==> row_count_ok(row))
            &&& (row_passes(pat, min, row) && row.interruption_cell@.len() > 0 ==> parse_cell_spec(
                row.interruption_cell@,
            ) is Some && depth_lookup(depths, samples[si].sample_id@) is Some)
        }
}

/// The (locus, sample, count) entries contributed by one sample's rows, in
/// row order.
pub open spec fn rows_rc(rows: Seq<ProfileRowIn>, sid: Seq<u8>, pat: Option<Seq<char>>, min: u64)
    -> Seq<(Seq<u8>, Seq<u8>, u64)>
    decreases rows.len(),
{
    if rows.len() == 0 {
        Seq::empty()
    } else {
        rows_rc(rows.drop_last(), sid, pat, min) + if row_passes(pat, min, rows.last()) {
            seq![(rows.last().locus_id@, sid, dec_val(rows.last().read_count_text@) as u64)]
        } else {
            Seq::empty()
        }
    }
}

/// The read-count entries of the whole cohort, in manifest order.
pub open spec fn tables_rc(samples: Seq<SampleTable>, pat: Option<Seq<char>>, min: u64) -> Seq<
    (Seq<u8>, Seq<u8>, u64),
>
    decreases samples.len(),
{
    if samples.len() == 0 {
        Seq::empty()
    } else {
        tables_rc(samples.drop_last(), pat, min) + rows_rc(
            samples.last().rows@,
            samples.last().sample_id@,
            pat,
            min,
        )
    }
}

/// The read-count view of the merged profile.
pub open spec fn mrc_view(s: Seq<MergedReadCount>) -> Seq<(Seq<u8>, Seq<u8>, u64)> {
    s.map_values(|e: MergedReadCount| (e.locus_id@, e.sample_id@, e.count))
}

/// The (count, repeat length) pairs of a parsed cell that belong to one
/// interruption, in cell order.
pub open spec fn cell_contribs(ts: Seq<(Seq<u8>, u32, u64)>, intr: Seq<u8>) -> Seq<(u64, u32)>
    decreases ts.len(),
{
    if ts.len() == 0 {
        Seq::empty()
    } else {
        cell_contribs(ts.drop_last(), intr) + if ts.last().0 == intr {
            seq![(ts.last().2, ts.last().1)]
        } else {
            Seq::empty()
        }
    }
}

/// The contributions one row makes under locus `l` and interruption `intr`.
pub open spec fn row_contribs(
    row: ProfileRowIn,
    pat: Option<Seq<char>>,
    min: u64,
    l: Seq<u8>,
    intr: Seq<u8>,
) -> Seq<(u64, u32)> {
    if row_passes(pat, min, row) && row.locus_id@ == l && row.interruption_cell@.len() > 0
        && parse_cell_spec(row.interruption_cell@) is Some {
        cell_contribs(parse_cell_spec(row.interruption_cell@)->0, intr)
    } else {
        Seq::empty()
    }
}

/// The contributions of one sample's rows, in row order.
pub open spec fn rows_contribs(
    rows: Seq<ProfileRowIn>,
    pat: Option<Seq<char>>,
    min: u64,
    l: Seq<u8>,
    intr: Seq<u8>,
) -> Seq<(u64, u32)>
    decreases rows.len(),
{
    if rows.len() == 0 {
        Seq::empty()
    } else {
        rows_contribs(rows.drop_last(), pat, min, l, intr) + row_contribs(
            rows.last(),
            pat,
            min,
            l,
            intr,
        )
    }
}

/// The contributions of the whole cohort under key (locus, sample,
/// interruption), in manifest order.
pub open spec fn tables_contribs(
    samples: Seq<SampleTable>,
    pat: Option<Seq<char>>,
    min: u64,
    l: Seq<u8>,
    s: Seq<u8>,
    intr: Seq<u8>,
) -> Seq<(u64, u32)>
    decreases samples.len(),
{
    if samples.len() == 0 {
        Seq::empty()
    } else {
        tables_contribs(samples.drop_last(), pat, min, l, s, intr) + if samples.last().sample_id@
            == s {
            rows_contribs(samples.last().rows@, pat, min, l, intr)
        } else {
            Seq::empty()
        }
    }
}

/// The (reference region, motif) of the first filter- and
/// threshold-passing row for locus `id` among one sample's rows, if any.
pub open spec fn rows_first_attrs(
    rows: Seq<ProfileRowIn>,
    pat: Option<Seq<char>>,
    min: u64,
    id: Seq<u8>,
) -> Option<(Seq<u8>, Seq<u8>)>
    decreases rows.len(),
{
    if rows.len() == 0 {
        None
    } else {
        let f = rows_first_attrs(rows.drop_last(), pat, min, id);
        if f is Some {
            f
        } else if row_passes(pat, min, rows.last()) && rows.last().locus_id@ == id {
            Some((rows.last().reference_region@, rows.last().motif@))
        } else {
            None
        }
    }
}

/// The first qualifying sample's claim, in manifest order.
pub open spec fn tables_first_attrs(
    samples: Seq<SampleTable>,
    pat: Option<Seq<char>>,
    min: u64,
    id: Seq<u8>,
) -> Option<(Seq<u8>, Seq<u8>)>
    decreases samples.len(),
{
    if samples.len() == 0 {
        None
    } else {
        let f = tables_first_attrs(samples.drop_last(), pat, min, id);
        if f is Some {
            f
        } else {
            rows_first_attrs(samples.last().rows@, pat, min, id)
        }
    }
}

/// The earlier claim wins.
pub open spec fn or_attrs(a: Option<(Seq<u8>, Seq<u8>)>, b: Option<(Seq<u8>, Seq<u8>)>) -> Option<
    (Seq<u8>, Seq<u8>),
> {
    if a is Some {
        a
    } else {
        b
    }
}

/// The region component of an optional claim.
pub open spec fn attrs_region(o: Option<(Seq<u8>, Seq<u8>)>) -> Option<Seq<u8>> {
    match o {
        Some(p) => Some(p.0),
        None => None,
    }
}

/// The motif component of an optional claim.
pub open spec fn attrs_motif(o: Option<(Seq<u8>, Seq<u8>)>) -> Option<Seq<u8>> {
    match o {
        Some(p) => Some(p.1),
        None => None,
    }
}

/// The view of one advisory warning.
pub open spec fn warning_view(w: MergeWarning) -> (Seq<u8>, Seq<u8>, Seq<u8>, u32, bool) {
    (w.sample_id@, w.locus_id@, w.interruption@, w.repeat_len, w.invalid_norm)
}

/// The advisory warnings one cell entry raises, in emission order: one for
/// a repeat length outside `(0, read_len]`, then one for a non-positive
/// normalized-count denominator.  The value is recorded either way.
pub open spec fn triple_warns(
    t: (Seq<u8>, u32, u64),
    sid: Seq<u8>,
    locus: Seq<u8>,
    read_len: u32,
    dnum: u64,
) -> Seq<(Seq<u8>, Seq<u8>, Seq<u8>, u32, bool)> {
    (if t.1 == 0 || t.1 > read_len {
        seq![(sid, locus, t.0, t.1, false)]
    } else {
        Seq::empty()
    }) + (if (read_len as int - t.1 as int + 1) * (dnum as int) <= 0 {
        seq![(sid, locus, t.0, t.1, true)]
    } else {
        Seq::empty()
    })
}

/// The warnings of one parsed cell, in entry order.
pub open spec fn cell_warns(
    ts: Seq<(Seq<u8>, u32, u64)>,
    sid: Seq<u8>,
    locus: Seq<u8>,
    read_len: u32,
    dnum: u64,
) -> Seq<(Seq<u8>, Seq<u8>, Seq<u8>, u32, bool)>
    decreases ts.len(),
{
    if ts.len() == 0 {
        Seq::empty()
    } else {
        cell_warns(ts.drop_last(), sid, locus, read_len, dnum) + triple_warns(
            ts.last(),
            sid,
            locus,
            read_len,
            dnum,
        )
    }
}

/// The warnings one row raises: only a retained row with a non-empty,
/// parseable cell raises any.
pub open spec fn row_warns(
    row: ProfileRowIn,
    depths: Seq<DepthEntry>,
    sid: Seq<u8>,
    pat: Option<Seq<char>>,
    min: u64,
    read_len: u32,
) -> Seq<(Seq<u8>, Seq<u8>, Seq<u8>, u32, bool)> {
    if row_passes(pat, min, row) && row.interruption_cell@.len() > 0 && parse_cell_spec(
        row.interruption_cell@,
    ) is Some {
        cell_warns(
            parse_cell_spec(row.interruption_cell@)->0,
            sid,
            row.locus_id@,
            read_len,
            (depth_lookup(depths, sid)->0).0,
        )
    } else {
        Seq::empty()
    }
}

/// The warnings of one sample's rows, in row order.
pub open spec fn rows_warns(
    rows: Seq<ProfileRowIn>,
    depths: Seq<DepthEntry>,
    sid: Seq<u8>,
    pat: Option<Seq<char>>,
    min: u64,
    read_len: u32,
) -> Seq<(Seq<u8>, Seq<u8>, Seq<u8>, u32, bool)>
    decreases rows.len(),
{
    if rows.len() == 0 {
        Seq::empty()
    } else {
        rows_warns(rows.drop_last(), depths, sid, pat, min, read_len) + row_warns(
            rows.last(),
            depths,
            sid,
            pat,
            min,
            read_len,
        )
    }
}

/// The warnings of the whole cohort, in manifest order.
pub open spec fn tables_warns(
    samples: Seq<SampleTable>,
    depths: Seq<DepthEntry>,
    pat: Option<Seq<char>>,
    min: u64,
    read_len: u32,
) -> Seq<(Seq<u8>, Seq<u8>, Seq<u8>, u32, bool)>
    decreases samples.len(),
{
    if samples.len() == 0 {
        Seq::empty()
    } else {
        tables_warns(samples.drop_last(), depths, pat, min, read_len) + rows_warns(
            samples.last().rows@,
            depths,
            samples.last().sample_id@,
            pat,
            min,
            read_len,
        )
    }
}

/// The contribution fields tie together exactly as the normalization
/// formula demands.
pub open spec fn contrib_ok(c: Contribution, read_len: u32) -> bool {
    &&& c.norm_num == c.count as nat * c.depth_den as nat
    &&& c.norm_den == (read_len as int - c.repeat_len as int + 1) * c.depth_num as int
}

/// The per-row obligations a successful merge discharges.
pub open spec fn row_conds(
    row: ProfileRowIn,
    depths: Seq<DepthEntry>,
    sid: Seq<u8>,
    pat: Option<Seq<char>>,
    min: u64,
) -> bool {
    &&& (row_selected(pat, row) ==> row_count_ok(row))
    &&& (row_passes(pat, min, row) && row.interruption_cell@.len() > 0 ==> parse_cell_spec(
        row.interruption_cell@,
    ) is Some && depth_lookup(depths, sid) is Some)
}

/// Merge many per-sample profile tables, in manifest order, into one
/// cohort profile: rows are dropped by the locus filter and the minimum
/// read count; retained rows contribute their read count, a first-wins
/// motif and reference region, and one exact normalized contribution per
/// interruption-cell entry.  Fails exactly when a selected row's read
/// count does not parse, a retained row's cell does not parse, or a
/// contributing sample has no read depth.
#[verifier::rlimit(100)]
#[verifier::spinoff_prover]
pub fn merge(
    samples: &Vec<SampleTable>,
    depths: &Vec<DepthEntry>,
    filter: Option<&crate::catalog::LocusFilter>,
    min_read_count: u64,
    read_len: u32,
) -> (r: Result<MergedProfile, StrifError>)
    ensures
        r is Ok <==> merge_inputs_ok(
            samples@,
            depths@,
            crate::catalog::filter_pattern(filter),
            min_read_count,
        ),
        r matches Err(e) ==> (e == StrifError::MalformedNumber || e == StrifError::MalformedCell
            || e == StrifError::MissingDepth),
        r matches Ok(m) ==> mrc_view(m.read_counts@) == tables_rc(
            samples@,
            crate::catalog::filter_pattern(filter),
            min_read_count,
        ),
        r matches Ok(m) ==> forall|l: Seq<u8>, s: Seq<u8>, intr: Seq<u8>|
            #[trigger] mi_contribs(m.interruption_counts@, l, s, intr) == tables_contribs(
                samples@,
                crate::catalog::filter_pattern(filter),
                min_read_count,
                l,
                s,
                intr,
            ),
        r matches Ok(m) ==> forall|id: Seq<u8>|
            {
                let fa = tables_first_attrs(
                    samples@,
                    crate::catalog::filter_pattern(filter),
                    min_read_count,
                    id,
                );
                &&& #[trigger] attr_lookup(m.reference_regions@, id) == attrs_region(fa)
                &&& attr_lookup(m.motifs@, id) == attrs_motif(fa)
            },
        r matches Ok(m) ==> mi_unique(m.interruption_counts@) && attr_unique(m.motifs@)
            && attr_unique(m.reference_regions@),
        r matches Ok(m) ==> m.warnings@.map_values(|w: MergeWarning| warning_view(w))
            == tables_warns(
            samples@,
            depths@,
            crate::catalog::filter_pattern(filter),
            min_read_count,
            read_len,
        ),
        r matches Ok(m) ==> forall|j: int|
            0 <= j < m.interruption_counts@.len() ==> crate::catalog::filter_passes(
                crate::catalog::filter_pattern(filter),
                (#[trigger] m.interruption_counts@[j]).locus_id@,
            ),
        r matches Ok(m) ==> forall|j: int|
            0 <= j < m.motifs@.len() ==> crate::catalog::filter_passes(
                crate::catalog::filter_pattern(filter),
                (#[trigger] m.motifs@[j]).locus_id@,
            ),
        r matches Ok(m) ==> forall|j: int|
            0 <= j < m.reference_regions@.len() ==> crate::catalog::filter_passes(
                crate::catalog::filter_pattern(filter),
                (#[trigger] m.reference_regions@[j]).locus_id@,
            ),
        r matches Ok(m) ==> forall|j: int, t: int|
            0 <= j < m.interruption_counts@.len() && 0 <= t < (
            #[trigger] m.interruption_counts@[j]).contributions@.len() ==> {
                let c = #[trigger] m.interruption_counts@[j].contributions@[t];
                contrib_ok(c, read_len) && depth_lookup(
                    depths@,
                    m.interruption_counts@[j].sample_id@,
                ) == Some((c.depth_num, c.depth_den))
            },
{
    let ghost pat = crate::catalog::filter_pattern(filter);
    let mut m = MergedProfile::new();
    let ns = samples.len();
    let mut si: usize = 0;
    proof {
        assert(samples@.take(0) =~= Seq::<SampleTable>::empty());
        assert(mrc_view(m.read_counts@) =~= tables_rc(samples@.take(0), pat, min_read_count));
        assert forall|l: Seq<u8>, s: Seq<u8>, intr: Seq<u8>| #[trigger] mi_contribs(
            m.interruption_counts@,
            l,
            s,
            intr,
        ) == tables_contribs(samples@.take(0), pat, min_read_count, l, s, intr) by {
            assert(mi_contribs(m.interruption_counts@, l, s, intr) =~= Seq::<(u64, u32)>::empty());
        }
        assert forall|id: Seq<u8>|
            {
                &&& #[trigger] attr_lookup(m.reference_regions@, id) == attrs_region(
                    tables_first_attrs(samples@.take(0), pat, min_read_count, id),
                )
                &&& attr_lookup(m.motifs@, id) == attrs_motif(
                    tables_first_attrs(samples@.take(0), pat, min_read_count, id),
                )
            } by {
            assert(attr_lookup(m.reference_regions@, id) is None);
            assert(attr_lookup(m.motifs@, id) is None);
        }
        assert(m.warnings@.map_values(|w: MergeWarning| warning_view(w)) =~= tables_warns(
            samples@.take(0),
            depths@,
            pat,
            min_read_count,
            read_len,
        ));
    }
    while si < ns
        invariant
            si <= ns == samples@.len(),
            pat == crate::catalog::filter_pattern(filter),
            mrc_view(m.read_counts@) == tables_rc(samples@.take(si as int), pat, min_read_count),
            forall|l: Seq<u8>, s: Seq<u8>, intr: Seq<u8>|
                #[trigger] mi_contribs(m.interruption_counts@, l, s, intr) == tables_contribs(
                    samples@.take(si as int),
                    pat,
                    min_read_count,
                    l,
                    s,
                    intr,
                ),
            forall|id: Seq<u8>|
                {
                    &&& #[trigger] attr_lookup(m.reference_regions@, id) == attrs_region(
                        tables_first_attrs(samples@.take(si as int), pat, min_read_count, id),
                    )
                    &&& attr_lookup(m.motifs@, id) == attrs_motif(
                        tables_first_attrs(samples@.take(si as int), pat, min_read_count, id),
                    )
                },
            mi_unique(m.interruption_counts@),
            attr_unique(m.motifs@),
            attr_unique(m.reference_regions@),
            m.warnings@.map_values(|w: MergeWarning| warning_view(w)) == tables_warns(
                samples@.take(si as int),
                depths@,
                pat,
                min_read_count,
                read_len,
            ),
            merge_inputs_ok(samples@.take(si as int), depths@, pat, min_read_count),
            forall|j: int|
                0 <= j < m.interruption_counts@.len() ==> crate::catalog::filter_passes(
                    pat,
                    (#[trigger] m.interruption_counts@[j]).locus_id@,
                ),
            forall|j: int|
                0 <= j < m.motifs@.len() ==> crate::catalog::filter_passes(
                    pat,
                    (#[trigger] m.motifs@[j]).locus_id@,
                ),
            forall|j: int|
                0 <= j < m.reference_regions@.len() ==> crate::catalog::filter_passes(
                    pat,
                    (#[trigger] m.reference_regions@[j]).locus_id@,
                ),
            forall|j: int, t: int|
                0 <= j < m.interruption_counts@.len() && 0 <= t < (
                #[trigger] m.interruption_counts@[j]).contributions@.len() ==> {
                    let c = #[trigger] m.interruption_counts@[j].contributions@[t];
                    contrib_ok(c, read_len) && depth_lookup(
                        depths@,
                        m.interruption_counts@[j].sample_id@,
                    ) == Some((c.depth_num, c.depth_den))
                },
        decreases ns - si,
    {
        let sample = &samples[si];
        let nr = sample.rows.len();
        let mut ri: usize = 0;
        proof {
            assert(sample.rows@.take(0) =~= Seq::<ProfileRowIn>::empty());
            assert(rows_rc(sample.rows@.take(0), sample.sample_id@, pat, min_read_count) =~= Seq::<
                (Seq<u8>, Seq<u8>, u64),
            >::empty());
            assert(mrc_view(m.read_counts@) =~= tables_rc(samples@.take(si as int), pat, min_read_count)
                + rows_rc(sample.rows@.take(0), sample.sample_id@, pat, min_read_count));
            assert forall|id: Seq<u8>|
                {
                    &&& #[trigger] attr_lookup(m.reference_regions@, id) == attrs_region(
                        or_attrs(
                            tables_first_attrs(samples@.take(si as int), pat, min_read_count, id),
                            rows_first_attrs(sample.rows@.take(0), pat, min_read_count, id),
                        ),
                    )
                    &&& attr_lookup(m.motifs@, id) == attrs_motif(
                        or_attrs(
                            tables_first_attrs(samples@.take(si as int), pat, min_read_count, id),
                            rows_first_attrs(sample.rows@.take(0), pat, min_read_count, id),
                        ),
                    )
                } by {
                assert(rows_first_attrs(sample.rows@.take(0), pat, min_read_count, id) is None);
            }
            assert(rows_warns(
                sample.rows@.take(0),
                depths@,
                sample.sample_id@,
                pat,
                min_read_count,
                read_len,
            ) =~= Seq::<(Seq<u8>, Seq<u8>, Seq<u8>, u32, bool)>::empty());
            assert(m.warnings@.map_values(|w: MergeWarning| warning_view(w)) =~= tables_warns(
                samples@.take(si as int),
                depths@,
                pat,
                min_read_count,
                read_len,
            ) + rows_warns(
                sample.rows@.take(0),
                depths@,
                sample.sample_id@,
                pat,
                min_read_count,
                read_len,
            ));
            assert forall|l: Seq<u8>, s: Seq<u8>, intr: Seq<u8>| #[trigger] mi_contribs(
                m.interruption_counts@,
                l,
                s,
                intr,
            ) == tables_contribs(samples@.take(si as int), pat, min_read_count, l, s, intr) + (
            if s == sample.sample_id@ {
                rows_contribs(sample.rows@.take(0), pat, min_read_count, l, intr)
            } else {
                Seq::empty()
            }) by {
                assert(rows_contribs(sample.rows@.take(0), pat, min_read_count, l, intr) =~= Seq::<
                    (u64, u32),
                >::empty());
                assert(tables_contribs(samples@.take(si as int), pat, min_read_count, l, s, intr)
                    + Seq::<(u64, u32)>::empty() =~= tables_contribs(
                    samples@.take(si as int),
                    pat,
                    min_read_count,
                    l,
                    s,
                    intr,
                ));
            }
        }
        while ri < nr
            invariant
                ri <= nr == sample.rows@.len(),
                si < samples@.len(),
                *sample == samples@[si as int],
                pat == crate::catalog::filter_pattern(filter),
                mrc_view(m.read_counts@) == tables_rc(
                    samples@.take(si as int),
                    pat,
                    min_read_count,
                ) + rows_rc(sample.rows@.take(ri as int), sample.sample_id@, pat, min_read_count),
                forall|l: Seq<u8>, s: Seq<u8>, intr: Seq<u8>|
                    #[trigger] mi_contribs(m.interruption_counts@, l, s, intr) == tables_contribs(
                        samples@.take(si as int),
                        pat,
                        min_read_count,
                        l,
                        s,
                        intr,
                    ) + (if s == sample.sample_id@ {
                        rows_contribs(sample.rows@.take(ri as int), pat, min_read_count, l, intr)
                    } else {
                        Seq::empty()
                    }),
                forall|id: Seq<u8>|
                    {
                        &&& #[trigger] attr_lookup(m.reference_regions@, id) == attrs_region(
                            or_attrs(
                                tables_first_attrs(
                                    samples@.take(si as int),
                                    pat,
                                    min_read_count,
                                    id,
                                ),
                                rows_first_attrs(
                                    sample.rows@.take(ri as int),
                                    pat,
                                    min_read_count,
                                    id,
                                ),
                            ),
                        )
                        &&& attr_lookup(m.motifs@, id) == attrs_motif(
                            or_attrs(
                                tables_first_attrs(
                                    samples@.take(si as int),
                                    pat,
                                    min_read_count,
                                    id,
                                ),
                                rows_first_attrs(
                                    sample.rows@.take(ri as int),
                                    pat,
                                    min_read_count,
                                    id,
                                ),
                            ),
                        )
                    },
                mi_unique(m.interruption_counts@),
                attr_unique(m.motifs@),
                attr_unique(m.reference_regions@),
                m.warnings@.map_values(|w: MergeWarning| warning_view(w)) == tables_warns(
                    samples@.take(si as int),
                    depths@,
                    pat,
                    min_read_count,
                    read_len,
                ) + rows_warns(
                    sample.rows@.take(ri as int),
                    depths@,
                    sample.sample_id@,
                    pat,
                    min_read_count,
                    read_len,
                ),
                merge_inputs_ok(samples@.take(si as int), depths@, pat, min_read_count),
                forall|k: int|
                    0 <= k < ri ==> row_conds(
                        #[trigger] sample.rows@[k],
                        depths@,
                        sample.sample_id@,
                        pat,
                        min_read_count,
                    ),
                forall|j: int|
                    0 <= j < m.interruption_counts@.len() ==> crate::catalog::filter_passes(
                        pat,
                        (#[trigger] m.interruption_counts@[j]).locus_id@,
                    ),
                forall|j: int|
                    0 <= j < m.motifs@.len() ==> crate::catalog::filter_passes(
                        pat,
                        (#[trigger] m.motifs@[j]).locus_id@,
                    ),
                forall|j: int|
                    0 <= j < m.reference_regions@.len() ==> crate::catalog::filter_passes(
                        pat,
                        (#[trigger] m.reference_regions@[j]).locus_id@,
                    ),
                forall|j: int, t: int|
                    0 <= j < m.interruption_counts@.len() && 0 <= t < (
                    #[trigger] m.interruption_counts@[j]).contributions@.len() ==> {
                        let c = #[trigger] m.interruption_counts@[j].contributions@[t];
                        contrib_ok(c, read_len) && depth_lookup(
                            depths@,
                            m.interruption_counts@[j].sample_id@,
                        ) == Some((c.depth_num, c.depth_den))
                    },
            decreases nr - ri,
        {
            proof {
                assert(sample.rows@.take(ri as int + 1).drop_last() =~= sample.rows@.take(
                    ri as int,
                ));
                assert(sample.rows@.take(ri as int + 1).last() == sample.rows@[ri as int]);
            }
            let row = &sample.rows[ri];
            let selected = match filter {
                Some(f) => f.matches(&row.locus_id),
                None => true,
            };
            proof {
                assert(selected == row_selected(pat, sample.rows@[ri as int]));
            }
            if selected {
                let count = match parse_u64_dec(&row.read_count_text) {
                    Some(c) => c,
                    None => {
                        proof {
                            assert(!row_count_ok(sample.rows@[ri as int]));
                            assert(!merge_inputs_ok(samples@, depths@, pat, min_read_count)) by {
                                if merge_inputs_ok(samples@, depths@, pat, min_read_count) {
                                    assert(samples@[si as int].rows@[ri as int]
                                        == sample.rows@[ri as int]);
                                }
                            }
                        }
                        return Err(StrifError::MalformedNumber);
                    },
                };
                if count >= min_read_count {
                    let ghost pre_rc = m.read_counts@;
                    m.add_read_count(&row.locus_id, &sample.sample_id, count);
                    proof {
                        assert(row_passes(pat, min_read_count, sample.rows@[ri as int]));
                        let x = (
                            sample.rows@[ri as int].locus_id@,
                            sample.sample_id@,
                            dec_val(sample.rows@[ri as int].read_count_text@) as u64,
                        );
                        assert(m.read_counts@.drop_last() == pre_rc);
                        assert(mrc_view(m.read_counts@) =~= mrc_view(pre_rc).push(x));
                        assert(rows_rc(
                            sample.rows@.take(ri as int + 1),
                            sample.sample_id@,
                            pat,
                            min_read_count,
                        ) == rows_rc(
                            sample.rows@.take(ri as int),
                            sample.sample_id@,
                            pat,
                            min_read_count,
                        ) + seq![x]);
                        assert(mrc_view(pre_rc).push(x) =~= tables_rc(
                            samples@.take(si as int),
                            pat,
                            min_read_count,
                        ) + (rows_rc(
                            sample.rows@.take(ri as int),
                            sample.sample_id@,
                            pat,
                            min_read_count,
                        ) + seq![x]));
                    }
                    let ghost pre_rr = m.reference_regions@;
                    m.add_reference_region(&row.locus_id, &row.reference_region);
                    proof {
                        assert forall|j: int|
                            0 <= j < m.reference_regions@.len()
                                implies crate::catalog::filter_passes(
                            pat,
                            (#[trigger] m.reference_regions@[j]).locus_id@,
                        ) by {
                            if m.reference_regions@ == pre_rr {
                            } else if j < pre_rr.len() {
                                assert(m.reference_regions@[j] == pre_rr[j]);
                            } else {
                                assert(m.reference_regions@[j] == m.reference_regions@.last());
                            }
                        }
                    }
                    let ghost pre_mo = m.motifs@;
                    m.add_motif(&row.locus_id, &row.motif);
                    proof {
                        assert forall|j: int|
                            0 <= j < m.motifs@.len() implies crate::catalog::filter_passes(
                            pat,
                            (#[trigger] m.motifs@[j]).locus_id@,
                        ) by {
                            if m.motifs@ == pre_mo {
                            } else if j < pre_mo.len() {
                                assert(m.motifs@[j] == pre_mo[j]);
                            } else {
                                assert(m.motifs@[j] == m.motifs@.last());
                            }
                        }
                    }
                    proof {
                        assert forall|id: Seq<u8>|
                            {
                                &&& #[trigger] attr_lookup(m.reference_regions@, id)
                                    == attrs_region(
                                    or_attrs(
                                        tables_first_attrs(
                                            samples@.take(si as int),
                                            pat,
                                            min_read_count,
                                            id,
                                        ),
                                        rows_first_attrs(
                                            sample.rows@.take(ri as int + 1),
                                            pat,
                                            min_read_count,
                                            id,
                                        ),
                                    ),
                                )
                                &&& attr_lookup(m.motifs@, id) == attrs_motif(
                                    or_attrs(
                                        tables_first_attrs(
                                            samples@.take(si as int),
                                            pat,
                                            min_read_count,
                                            id,
                                        ),
                                        rows_first_attrs(
                                            sample.rows@.take(ri as int + 1),
                                            pat,
                                            min_read_count,
                                            id,
                                        ),
                                    ),
                                )
                            } by {
                            assert(attr_lookup(pre_rr, id) == attrs_region(
                                or_attrs(
                                    tables_first_attrs(
                                        samples@.take(si as int),
                                        pat,
                                        min_read_count,
                                        id,
                                    ),
                                    rows_first_attrs(
                                        sample.rows@.take(ri as int),
                                        pat,
                                        min_read_count,
                                        id,
                                    ),
                                ),
                            ));
                            assert(attr_lookup(pre_mo, id) == attrs_motif(
                                or_attrs(
                                    tables_first_attrs(
                                        samples@.take(si as int),
                                        pat,
                                        min_read_count,
                                        id,
                                    ),
                                    rows_first_attrs(
                                        sample.rows@.take(ri as int),
                                        pat,
                                        min_read_count,
                                        id,
                                    ),
                                ),
                            ));
                            if id != sample.rows@[ri as int].locus_id@ {
                                assert(rows_first_attrs(
                                    sample.rows@.take(ri as int + 1),
                                    pat,
                                    min_read_count,
                                    id,
                                ) == rows_first_attrs(
                                    sample.rows@.take(ri as int),
                                    pat,
                                    min_read_count,
                                    id,
                                ));
                            }
                        }
                    }
                    if row.interruption_cell.len() > 0 {
                        let triples = match crate::codec::parse_interruption_cell(
                            &row.interruption_cell,
                        ) {
                            Ok(ts) => ts,
                            Err(e) => {
                                proof {
                                    assert(parse_cell_spec(
                                        sample.rows@[ri as int].interruption_cell@,
                                    ) is None);
                                    assert(!merge_inputs_ok(
                                        samples@,
                                        depths@,
                                        pat,
                                        min_read_count,
                                    )) by {
                                        if merge_inputs_ok(
                                            samples@,
                                            depths@,
                                            pat,
                                            min_read_count,
                                        ) {
                                            assert(samples@[si as int].rows@[ri as int]
                                                == sample.rows@[ri as int]);
                                        }
                                    }
                                }
                                return Err(e);
                            },
                        };
                        let ghost tsv = parse_cell_spec(
                            sample.rows@[ri as int].interruption_cell@,
                        )->0;
                        let (dnum, dden) = match find_depth(depths, &sample.sample_id) {
                            Some(p) => p,
                            None => {
                                proof {
                                    assert(!merge_inputs_ok(
                                        samples@,
                                        depths@,
                                        pat,
                                        min_read_count,
                                    )) by {
                                        if merge_inputs_ok(
                                            samples@,
                                            depths@,
                                            pat,
                                            min_read_count,
                                        ) {
                                            assert(samples@[si as int].rows@[ri as int]
                                                == sample.rows@[ri as int]);
                                        }
                                    }
                                }
                                return Err(StrifError::MissingDepth);
                            },
                        };
                        let nt = triples.len();
                        let mut ti: usize = 0;
                        proof {
                            assert forall|l: Seq<u8>, s: Seq<u8>, intr: Seq<u8>|
                                #[trigger] mi_contribs(m.interruption_counts@, l, s, intr)
                                == tables_contribs(
                                samples@.take(si as int),
                                pat,
                                min_read_count,
                                l,
                                s,
                                intr,
                            ) + (if s == sample.sample_id@ {
                                rows_contribs(
                                    sample.rows@.take(ri as int),
                                    pat,
                                    min_read_count,
                                    l,
                                    intr,
                                ) + (if l == sample.rows@[ri as int].locus_id@ {
                                    cell_contribs(tsv.take(0), intr)
                                } else {
                                    Seq::empty()
                                })
                            } else {
                                Seq::empty()
                            }) by {
                                assert(cell_contribs(tsv.take(0), intr) =~= Seq::<
                                    (u64, u32),
                                >::empty());
                                assert(rows_contribs(
                                    sample.rows@.take(ri as int),
                                    pat,
                                    min_read_count,
                                    l,
                                    intr,
                                ) + Seq::<(u64, u32)>::empty() =~= rows_contribs(
                                    sample.rows@.take(ri as int),
                                    pat,
                                    min_read_count,
                                    l,
                                    intr,
                                ));
                            }
                            assert(cell_warns(
                                tsv.take(0),
                                sample.sample_id@,
                                sample.rows@[ri as int].locus_id@,
                                read_len,
                                dnum,
                            ) =~= Seq::<(Seq<u8>, Seq<u8>, Seq<u8>, u32, bool)>::empty());
                            assert(m.warnings@.map_values(|w: MergeWarning| warning_view(w))
                                =~= tables_warns(
                                samples@.take(si as int),
                                depths@,
                                pat,
                                min_read_count,
                                read_len,
                            ) + rows_warns(
                                sample.rows@.take(ri as int),
                                depths@,
                                sample.sample_id@,
                                pat,
                                min_read_count,
                                read_len,
                            ) + cell_warns(
                                tsv.take(0),
                                sample.sample_id@,
                                sample.rows@[ri as int].locus_id@,
                                read_len,
                                dnum,
                            ));
                        }
                        while ti < nt
                            invariant
                                ti <= nt == triples@.len(),
                                nt == tsv.len(),
                                tsv == parse_cell_spec(
                                    sample.rows@[ri as int].interruption_cell@,
                                )->0,
                                parse_cell_spec(
                                    sample.rows@[ri as int].interruption_cell@,
                                ) is Some,
                                sample.rows@[ri as int].interruption_cell@.len() > 0,
                                row_passes(pat, min_read_count, sample.rows@[ri as int]),
                                forall|k: int|
                                    0 <= k < nt ==> (#[trigger] triples@[k]).interruption@
                                        == tsv[k].0 && triples@[k].repeat_len == tsv[k].1
                                        && triples@[k].count == tsv[k].2,
                                forall|l: Seq<u8>, s: Seq<u8>, intr: Seq<u8>|
                                    #[trigger] mi_contribs(m.interruption_counts@, l, s, intr)
                                        == tables_contribs(
                                        samples@.take(si as int),
                                        pat,
                                        min_read_count,
                                        l,
                                        s,
                                        intr,
                                    ) + (if s == sample.sample_id@ {
                                        rows_contribs(
                                            sample.rows@.take(ri as int),
                                            pat,
                                            min_read_count,
                                            l,
                                            intr,
                                        ) + (if l == sample.rows@[ri as int].locus_id@ {
                                            cell_contribs(tsv.take(ti as int), intr)
                                        } else {
                                            Seq::empty()
                                        })
                                    } else {
                                        Seq::empty()
                                    }),
                                si < samples@.len(),
                                *sample == samples@[si as int],
                                pat == crate::catalog::filter_pattern(filter),
                                ri < sample.rows@.len(),
                                *row == sample.rows@[ri as int],
                                row_selected(pat, *row),
                                depth_lookup(depths@, sample.sample_id@) == Some((dnum, dden)),
                                forall|j: int|
                                    0 <= j < m.interruption_counts@.len()
                                        ==> crate::catalog::filter_passes(
                                        pat,
                                        (#[trigger] m.interruption_counts@[j]).locus_id@,
                                    ),
                                forall|j: int, t: int|
                                    0 <= j < m.interruption_counts@.len() && 0 <= t < (
                                    #[trigger] m.interruption_counts@[j]).contributions@.len()
                                        ==> {
                                        let c =
                                            #[trigger] m.interruption_counts@[j].contributions@[t];
                                        contrib_ok(c, read_len) && depth_lookup(
                                            depths@,
                                            m.interruption_counts@[j].sample_id@,
                                        ) == Some((c.depth_num, c.depth_den))
                                    },
                                mrc_view(m.read_counts@) == tables_rc(
                                    samples@.take(si as int),
                                    pat,
                                    min_read_count,
                                ) + rows_rc(
                                    sample.rows@.take(ri as int + 1),
                                    sample.sample_id@,
                                    pat,
                                    min_read_count,
                                ),
                                m.warnings@.map_values(|w: MergeWarning| warning_view(w))
                                    == tables_warns(
                                    samples@.take(si as int),
                                    depths@,
                                    pat,
                                    min_read_count,
                                    read_len,
                                ) + rows_warns(
                                    sample.rows@.take(ri as int),
                                    depths@,
                                    sample.sample_id@,
                                    pat,
                                    min_read_count,
                                    read_len,
                                ) + cell_warns(
                                    tsv.take(ti as int),
                                    sample.sample_id@,
                                    sample.rows@[ri as int].locus_id@,
                                    read_len,
                                    dnum,
                                ),
                                mi_unique(m.interruption_counts@),
                                attr_unique(m.motifs@),
                                attr_unique(m.reference_regions@),
                                forall|id: Seq<u8>|
                                    {
                                        &&& #[trigger] attr_lookup(m.reference_regions@, id)
                                            == attrs_region(
                                            or_attrs(
                                                tables_first_attrs(
                                                    samples@.take(si as int),
                                                    pat,
                                                    min_read_count,
                                                    id,
                                                ),
                                                rows_first_attrs(
                                                    sample.rows@.take(ri as int + 1),
                                                    pat,
                                                    min_read_count,
                                                    id,
                                                ),
                                            ),
                                        )
                                        &&& attr_lookup(m.motifs@, id) == attrs_motif(
                                            or_attrs(
                                                tables_first_attrs(
                                                    samples@.take(si as int),
                                                    pat,
                                                    min_read_count,
                                                    id,
                                                ),
                                                rows_first_attrs(
                                                    sample.rows@.take(ri as int + 1),
                                                    pat,
                                                    min_read_count,
                                                    id,
                                                ),
                                            ),
                                        )
                                    },
                                forall|j: int|
                                    0 <= j < m.motifs@.len() ==> crate::catalog::filter_passes(
                                        pat,
                                        (#[trigger] m.motifs@[j]).locus_id@,
                                    ),
                                forall|j: int|
                                    0 <= j < m.reference_regions@.len()
                                        ==> crate::catalog::filter_passes(
                                        pat,
                                        (#[trigger] m.reference_regions@[j]).locus_id@,
                                    ),
                            decreases nt - ti,
                        {
                            let t = &triples[ti];
                            let ghost wbase = m.warnings@.map_values(
                                |w: MergeWarning| warning_view(w),
                            );
                            proof {
                                assert(t.interruption@ == tsv[ti as int].0);
                                assert(t.repeat_len == tsv[ti as int].1);
                            }
                            if t.repeat_len == 0 || t.repeat_len > read_len {
                                let w = MergeWarning {
                                    sample_id: sample.sample_id.clone(),
                                    locus_id: row.locus_id.clone(),
                                    interruption: t.interruption.clone(),
                                    repeat_len: t.repeat_len,
                                    invalid_norm: false,
                                };
                                m.warnings.push(w);
                                proof {
                                    assert(m.warnings@.map_values(|w: MergeWarning| warning_view(w))
                                        =~= wbase.push(
                                        (
                                            sample.sample_id@,
                                            sample.rows@[ri as int].locus_id@,
                                            tsv[ti as int].0,
                                            tsv[ti as int].1,
                                            false,
                                        ),
                                    ));
                                }
                            }
                            let ghost wmid = m.warnings@.map_values(
                                |w: MergeWarning| warning_view(w),
                            );
                            proof {
                                assert(wmid =~= wbase + (if tsv[ti as int].1 == 0 || tsv[
                                    ti as int
                                ].1 > read_len {
                                    seq![
                                        (
                                            sample.sample_id@,
                                            sample.rows@[ri as int].locus_id@,
                                            tsv[ti as int].0,
                                            tsv[ti as int].1,
                                            false,
                                        ),
                                    ]
                                } else {
                                    Seq::<(Seq<u8>, Seq<u8>, Seq<u8>, u32, bool)>::empty()
                                }));
                            }
                            let (nnum, nden) = norm_interruption_count(
                                t.count,
                                read_len,
                                t.repeat_len,
                                dnum,
                                dden,
                            );
                            if nden <= 0 {
                                let w = MergeWarning {
                                    sample_id: sample.sample_id.clone(),
                                    locus_id: row.locus_id.clone(),
                                    interruption: t.interruption.clone(),
                                    repeat_len: t.repeat_len,
                                    invalid_norm: true,
                                };
                                m.warnings.push(w);
                                proof {
                                    assert(m.warnings@.map_values(|w: MergeWarning| warning_view(w))
                                        =~= wmid.push(
                                        (
                                            sample.sample_id@,
                                            sample.rows@[ri as int].locus_id@,
                                            tsv[ti as int].0,
                                            tsv[ti as int].1,
                                            true,
                                        ),
                                    ));
                                }
                            }
                            proof {
                                assert(tsv.take(ti as int + 1).drop_last() =~= tsv.take(
                                    ti as int,
                                ));
                                assert(tsv.take(ti as int + 1).last() == tsv[ti as int]);
                                assert((read_len as int - tsv[ti as int].1 as int + 1) * (
                                dnum as int) == nden);
                                assert(m.warnings@.map_values(|w: MergeWarning| warning_view(w))
                                    =~= wmid + (if (read_len as int - tsv[ti as int].1 as int + 1)
                                    * (dnum as int) <= 0 {
                                    seq![
                                        (
                                            sample.sample_id@,
                                            sample.rows@[ri as int].locus_id@,
                                            tsv[ti as int].0,
                                            tsv[ti as int].1,
                                            true,
                                        ),
                                    ]
                                } else {
                                    Seq::<(Seq<u8>, Seq<u8>, Seq<u8>, u32, bool)>::empty()
                                }));
                                assert(cell_warns(
                                    tsv.take(ti as int + 1),
                                    sample.sample_id@,
                                    sample.rows@[ri as int].locus_id@,
                                    read_len,
                                    dnum,
                                ) == cell_warns(
                                    tsv.take(ti as int),
                                    sample.sample_id@,
                                    sample.rows@[ri as int].locus_id@,
                                    read_len,
                                    dnum,
                                ) + triple_warns(
                                    tsv[ti as int],
                                    sample.sample_id@,
                                    sample.rows@[ri as int].locus_id@,
                                    read_len,
                                    dnum,
                                ));
                                assert(m.warnings@.map_values(|w: MergeWarning| warning_view(w))
                                    =~= tables_warns(
                                    samples@.take(si as int),
                                    depths@,
                                    pat,
                                    min_read_count,
                                    read_len,
                                ) + rows_warns(
                                    sample.rows@.take(ri as int),
                                    depths@,
                                    sample.sample_id@,
                                    pat,
                                    min_read_count,
                                    read_len,
                                ) + cell_warns(
                                    tsv.take(ti as int + 1),
                                    sample.sample_id@,
                                    sample.rows@[ri as int].locus_id@,
                                    read_len,
                                    dnum,
                                ));
                            }
                            let c = Contribution {
                                count: t.count,
                                repeat_len: t.repeat_len,
                                depth_num: dnum,
                                depth_den: dden,
                                norm_num: nnum,
                                norm_den: nden,
                            };
                            let ghost old_ic = m.interruption_counts@;
                            m.increment_interruption(
                                &row.locus_id,
                                &sample.sample_id,
                                &t.interruption,
                                c,
                            );
                            proof {
                                assert(contrib_ok(c, read_len));
                                assert forall|j: int|
                                    0 <= j < m.interruption_counts@.len()
                                        implies crate::catalog::filter_passes(
                                    pat,
                                    (#[trigger] m.interruption_counts@[j]).locus_id@,
                                ) by {
                                    if !(m.interruption_counts@[j].locus_id@ == row.locus_id@
                                        && m.interruption_counts@[j].sample_id@
                                        == sample.sample_id@
                                        && m.interruption_counts@[j].interruption@
                                        == t.interruption@) {
                                        let j2 = choose|j2: int|
                                            0 <= j2 < old_ic.len() && ((
                                            #[trigger] old_ic[j2]).locus_id@
                                                == m.interruption_counts@[j].locus_id@
                                                && old_ic[j2].sample_id@
                                                == m.interruption_counts@[j].sample_id@
                                                && old_ic[j2].interruption@
                                                == m.interruption_counts@[j].interruption@);
                                        assert(crate::catalog::filter_passes(
                                            pat,
                                            old_ic[j2].locus_id@,
                                        ));
                                    }
                                }
                                assert forall|j: int, t2: int|
                                    0 <= j < m.interruption_counts@.len() && 0 <= t2 < (
                                #[trigger] m.interruption_counts@[j]).contributions@.len() implies {
                                    let cc =
                                        #[trigger] m.interruption_counts@[j].contributions@[t2];
                                    contrib_ok(cc, read_len) && depth_lookup(
                                        depths@,
                                        m.interruption_counts@[j].sample_id@,
                                    ) == Some((cc.depth_num, cc.depth_den))
                                } by {
                                    let cc = m.interruption_counts@[j].contributions@[t2];
                                    if cc == c && m.interruption_counts@[j].sample_id@
                                        == sample.sample_id@ {
                                    } else {
                                        let (j2, t3) = choose|j2: int, t3: int|
                                            0 <= j2 < old_ic.len() && 0 <= t3
                                                < old_ic[j2].contributions@.len()
                                                && old_ic[j2].sample_id@
                                                == m.interruption_counts@[j].sample_id@ && (
                                            #[trigger] old_ic[j2].contributions@[t3]) == cc;
                                        assert(contrib_ok(old_ic[j2].contributions@[t3], read_len));
                                    }
                                }
                            }
                            proof {
                                assert(tsv.take(ti as int + 1).drop_last() =~= tsv.take(
                                    ti as int,
                                ));
                                assert(tsv.take(ti as int + 1).last() == tsv[ti as int]);
                                let key_l = sample.rows@[ri as int].locus_id@;
                                let key_s = sample.sample_id@;
                                let key_i = tsv[ti as int].0;
                                let pair = (tsv[ti as int].2, tsv[ti as int].1);
                                assert forall|l: Seq<u8>, s: Seq<u8>, intr: Seq<u8>|
                                    #[trigger] mi_contribs(m.interruption_counts@, l, s, intr)
                                        == tables_contribs(
                                        samples@.take(si as int),
                                        pat,
                                        min_read_count,
                                        l,
                                        s,
                                        intr,
                                    ) + (if s == sample.sample_id@ {
                                        rows_contribs(
                                            sample.rows@.take(ri as int),
                                            pat,
                                            min_read_count,
                                            l,
                                            intr,
                                        ) + (if l == sample.rows@[ri as int].locus_id@ {
                                            cell_contribs(tsv.take(ti as int + 1), intr)
                                        } else {
                                            Seq::empty()
                                        })
                                    } else {
                                        Seq::empty()
                                    }) by {
                                    let tbl = tables_contribs(
                                        samples@.take(si as int),
                                        pat,
                                        min_read_count,
                                        l,
                                        s,
                                        intr,
                                    );
                                    let rws = rows_contribs(
                                        sample.rows@.take(ri as int),
                                        pat,
                                        min_read_count,
                                        l,
                                        intr,
                                    );
                                    let cold = cell_contribs(tsv.take(ti as int), intr);
                                    if l == key_l && s == key_s && intr == key_i {
                                        assert(cell_contribs(tsv.take(ti as int + 1), intr)
                                            == cold + seq![pair]);
                                        assert(mi_contribs(m.interruption_counts@, l, s, intr)
                                            == mi_contribs(old_ic, l, s, intr).push(pair));
                                        assert((tbl + (rws + cold)).push(pair) =~= tbl + (rws + (
                                        cold + seq![pair])));
                                    } else {
                                        assert(mi_contribs(m.interruption_counts@, l, s, intr)
                                            == mi_contribs(old_ic, l, s, intr));
                                        if s == key_s && l == key_l {
                                            assert(cell_contribs(tsv.take(ti as int + 1), intr)
                                                == cold + Seq::<(u64, u32)>::empty());
                                            assert(cold + Seq::<(u64, u32)>::empty() =~= cold);
                                        }
                                    }
                                }
                            }
                            ti += 1;
                        }
                        proof {
                            assert(tsv.take(nt as int) =~= tsv);
                            assert(row_warns(
                                sample.rows@[ri as int],
                                depths@,
                                sample.sample_id@,
                                pat,
                                min_read_count,
                                read_len,
                            ) == cell_warns(
                                tsv,
                                sample.sample_id@,
                                sample.rows@[ri as int].locus_id@,
                                read_len,
                                dnum,
                            ));
                            assert(rows_warns(
                                sample.rows@.take(ri as int + 1),
                                depths@,
                                sample.sample_id@,
                                pat,
                                min_read_count,
                                read_len,
                            ) == rows_warns(
                                sample.rows@.take(ri as int),
                                depths@,
                                sample.sample_id@,
                                pat,
                                min_read_count,
                                read_len,
                            ) + row_warns(
                                sample.rows@[ri as int],
                                depths@,
                                sample.sample_id@,
                                pat,
                                min_read_count,
                                read_len,
                            ));
                            assert(m.warnings@.map_values(|w: MergeWarning| warning_view(w))
                                =~= tables_warns(
                                samples@.take(si as int),
                                depths@,
                                pat,
                                min_read_count,
                                read_len,
                            ) + rows_warns(
                                sample.rows@.take(ri as int + 1),
                                depths@,
                                sample.sample_id@,
                                pat,
                                min_read_count,
                                read_len,
                            ));
                            assert forall|l: Seq<u8>, s: Seq<u8>, intr: Seq<u8>|
                                #[trigger] mi_contribs(m.interruption_counts@, l, s, intr)
                                    == tables_contribs(
                                    samples@.take(si as int),
                                    pat,
                                    min_read_count,
                                    l,
                                    s,
                                    intr,
                                ) + (if s == sample.sample_id@ {
                                    rows_contribs(
                                        sample.rows@.take(ri as int + 1),
                                        pat,
                                        min_read_count,
                                        l,
                                        intr,
                                    )
                                } else {
                                    Seq::empty()
                                }) by {
                                assert(rows_contribs(
                                    sample.rows@.take(ri as int + 1),
                                    pat,
                                    min_read_count,
                                    l,
                                    intr,
                                ) == rows_contribs(
                                    sample.rows@.take(ri as int),
                                    pat,
                                    min_read_count,
                                    l,
                                    intr,
                                ) + row_contribs(
                                    sample.rows@[ri as int],
                                    pat,
                                    min_read_count,
                                    l,
                                    intr,
                                ));
                                if l == sample.rows@[ri as int].locus_id@ {
                                    assert(row_contribs(
                                        sample.rows@[ri as int],
                                        pat,
                                        min_read_count,
                                        l,
                                        intr,
                                    ) == cell_contribs(tsv, intr));
                                } else {
                                    assert(row_contribs(
                                        sample.rows@[ri as int],
                                        pat,
                                        min_read_count,
                                        l,
                                        intr,
                                    ) =~= Seq::<(u64, u32)>::empty());
                                    assert(rows_contribs(
                                        sample.rows@.take(ri as int),
                                        pat,
                                        min_read_count,
                                        l,
                                        intr,
                                    ) + Seq::<(u64, u32)>::empty() =~= rows_contribs(
                                        sample.rows@.take(ri as int),
                                        pat,
                                        min_read_count,
                                        l,
                                        intr,
                                    ));
                                }
                            }
                        }
                    } else {
                        proof {
                            assert(!(sample.rows@[ri as int].interruption_cell@.len() > 0));
                        assert(row_warns(
                            sample.rows@[ri as int],
                            depths@,
                            sample.sample_id@,
                            pat,
                            min_read_count,
                            read_len,
                        ) =~= Seq::<(Seq<u8>, Seq<u8>, Seq<u8>, u32, bool)>::empty());
                        assert(rows_warns(
                            sample.rows@.take(ri as int + 1),
                            depths@,
                            sample.sample_id@,
                            pat,
                            min_read_count,
                            read_len,
                        ) =~= rows_warns(
                            sample.rows@.take(ri as int),
                            depths@,
                            sample.sample_id@,
                            pat,
                            min_read_count,
                            read_len,
                        ));
                            assert forall|l: Seq<u8>, s: Seq<u8>, intr: Seq<u8>|
                                #[trigger] mi_contribs(m.interruption_counts@, l, s, intr)
                                    == tables_contribs(
                                    samples@.take(si as int),
                                    pat,
                                    min_read_count,
                                    l,
                                    s,
                                    intr,
                                ) + (if s == sample.sample_id@ {
                                    rows_contribs(
                                        sample.rows@.take(ri as int + 1),
                                        pat,
                                        min_read_count,
                                        l,
                                        intr,
                                    )
                                } else {
                                    Seq::empty()
                                }) by {
                                assert(rows_contribs(
                                    sample.rows@.take(ri as int + 1),
                                    pat,
                                    min_read_count,
                                    l,
                                    intr,
                                ) == rows_contribs(
                                    sample.rows@.take(ri as int),
                                    pat,
                                    min_read_count,
                                    l,
                                    intr,
                                ) + row_contribs(
                                    sample.rows@[ri as int],
                                    pat,
                                    min_read_count,
                                    l,
                                    intr,
                                ));
                                assert(row_contribs(
                                    sample.rows@[ri as int],
                                    pat,
                                    min_read_count,
                                    l,
                                    intr,
                                ) =~= Seq::<(u64, u32)>::empty());
                                assert(rows_contribs(
                                    sample.rows@.take(ri as int),
                                    pat,
                                    min_read_count,
                                    l,
                                    intr,
                                ) + Seq::<(u64, u32)>::empty() =~= rows_contribs(
                                    sample.rows@.take(ri as int),
                                    pat,
                                    min_read_count,
                                    l,
                                    intr,
                                ));
                            }
                        }
                    }
                } else {
                    proof {
                        assert(!row_passes(pat, min_read_count, sample.rows@[ri as int]));
                        assert(rows_rc(
                            sample.rows@.take(ri as int + 1),
                            sample.sample_id@,
                            pat,
                            min_read_count,
                        ) =~= rows_rc(
                            sample.rows@.take(ri as int),
                            sample.sample_id@,
                            pat,
                            min_read_count,
                        ));
                        assert forall|l: Seq<u8>, s: Seq<u8>, intr: Seq<u8>| #[trigger] mi_contribs(
                            m.interruption_counts@,
                            l,
                            s,
                            intr,
                        ) == tables_contribs(
                            samples@.take(si as int),
                            pat,
                            min_read_count,
                            l,
                            s,
                            intr,
                        ) + (if s == sample.sample_id@ {
                            rows_contribs(
                                sample.rows@.take(ri as int + 1),
                                pat,
                                min_read_count,
                                l,
                                intr,
                            )
                        } else {
                            Seq::empty()
                        }) by {
                            assert(rows_contribs(
                                sample.rows@.take(ri as int + 1),
                                pat,
                                min_read_count,
                                l,
                                intr,
                            ) == rows_contribs(
                                sample.rows@.take(ri as int),
                                pat,
                                min_read_count,
                                l,
                                intr,
                            ) + row_contribs(
                                sample.rows@[ri as int],
                                pat,
                                min_read_count,
                                l,
                                intr,
                            ));
                            assert(row_contribs(
                                sample.rows@[ri as int],
                                pat,
                                min_read_count,
                                l,
                                intr,
                            ) =~= Seq::<(u64, u32)>::empty());
                            assert(rows_contribs(
                                sample.rows@.take(ri as int),
                                pat,
                                min_read_count,
                                l,
                                intr,
                            ) + Seq::<(u64, u32)>::empty() =~= rows_contribs(
                                sample.rows@.take(ri as int),
                                pat,
                                min_read_count,
                                l,
                                intr,
                            ));
                        }
                        assert forall|id: Seq<u8>| #[trigger] rows_first_attrs(
                            sample.rows@.take(ri as int + 1),
                            pat,
                            min_read_count,
                            id,
                        ) == rows_first_attrs(
                            sample.rows@.take(ri as int),
                            pat,
                            min_read_count,
                            id,
                        ) by {}
                        assert(row_warns(
                            sample.rows@[ri as int],
                            depths@,
                            sample.sample_id@,
                            pat,
                            min_read_count,
                            read_len,
                        ) =~= Seq::<(Seq<u8>, Seq<u8>, Seq<u8>, u32, bool)>::empty());
                        assert(rows_warns(
                            sample.rows@.take(ri as int + 1),
                            depths@,
                            sample.sample_id@,
                            pat,
                            min_read_count,
                            read_len,
                        ) =~= rows_warns(
                            sample.rows@.take(ri as int),
                            depths@,
                            sample.sample_id@,
                            pat,
                            min_read_count,
                            read_len,
                        ));
                    }
                }
            } else {
                proof {
                    assert(!row_passes(pat, min_read_count, sample.rows@[ri as int]));
                    assert(rows_rc(
                        sample.rows@.take(ri as int + 1),
                        sample.sample_id@,
                        pat,
                        min_read_count,
                    ) =~= rows_rc(
                        sample.rows@.take(ri as int),
                        sample.sample_id@,
                        pat,
                        min_read_count,
                    ));
                        assert forall|l: Seq<u8>, s: Seq<u8>, intr: Seq<u8>| #[trigger] mi_contribs(
                            m.interruption_counts@,
                            l,
                            s,
                            intr,
                        ) == tables_contribs(
                            samples@.take(si as int),
                            pat,
                            min_read_count,
                            l,
                            s,
                            intr,
                        ) + (if s == sample.sample_id@ {
                            rows_contribs(
                                sample.rows@.take(ri as int + 1),
                                pat,
                                min_read_count,
                                l,
                                intr,
                            )
                        } else {
                            Seq::empty()
                        }) by {
                            assert(rows_contribs(
                                sample.rows@.take(ri as int + 1),
                                pat,
                                min_read_count,
                                l,
                                intr,
                            ) == rows_contribs(
                                sample.rows@.take(ri as int),
                                pat,
                                min_read_count,
                                l,
                                intr,
                            ) + row_contribs(
                                sample.rows@[ri as int],
                                pat,
                                min_read_count,
                                l,
                                intr,
                            ));
                            assert(row_contribs(
                                sample.rows@[ri as int],
                                pat,
                                min_read_count,
                                l,
                                intr,
                            ) =~= Seq::<(u64, u32)>::empty());
                            assert(rows_contribs(
                                sample.rows@.take(ri as int),
                                pat,
                                min_read_count,
                                l,
                                intr,
                            ) + Seq::<(u64, u32)>::empty() =~= rows_contribs(
                                sample.rows@.take(ri as int),
                                pat,
                                min_read_count,
                                l,
                                intr,
                            ));
                        }
                        assert forall|id: Seq<u8>| #[trigger] rows_first_attrs(
                            sample.rows@.take(ri as int + 1),
                            pat,
                            min_read_count,
                            id,
                        ) == rows_first_attrs(
                            sample.rows@.take(ri as int),
                            pat,
                            min_read_count,
                            id,
                        ) by {}
                        assert(row_warns(
                            sample.rows@[ri as int],
                            depths@,
                            sample.sample_id@,
                            pat,
                            min_read_count,
                            read_len,
                        ) =~= Seq::<(Seq<u8>, Seq<u8>, Seq<u8>, u32, bool)>::empty());
                        assert(rows_warns(
                            sample.rows@.take(ri as int + 1),
                            depths@,
                            sample.sample_id@,
                            pat,
                            min_read_count,
                            read_len,
                        ) =~= rows_warns(
                            sample.rows@.take(ri as int),
                            depths@,
                            sample.sample_id@,
                            pat,
                            min_read_count,
                            read_len,
                        ));
                }
            }
            proof {
                assert(row_conds(
                    sample.rows@[ri as int],
                    depths@,
                    sample.sample_id@,
                    pat,
                    min_read_count,
                ));
            }
            ri += 1;
        }
        proof {
            assert(sample.rows@.take(nr as int) =~= sample.rows@);
            assert(samples@.take(si as int + 1).drop_last() =~= samples@.take(si as int));
            assert(samples@.take(si as int + 1).last() == samples@[si as int]);
            assert(mrc_view(m.read_counts@) == tables_rc(
                samples@.take(si as int + 1),
                pat,
                min_read_count,
            ));
            assert(tables_warns(samples@.take(si as int + 1), depths@, pat, min_read_count, read_len)
                == tables_warns(samples@.take(si as int), depths@, pat, min_read_count, read_len)
                + rows_warns(
                samples@[si as int].rows@,
                depths@,
                samples@[si as int].sample_id@,
                pat,
                min_read_count,
                read_len,
            ));
            assert(rows_warns(
                sample.rows@.take(nr as int),
                depths@,
                sample.sample_id@,
                pat,
                min_read_count,
                read_len,
            ) == rows_warns(sample.rows@, depths@, sample.sample_id@, pat, min_read_count, read_len));
            assert(m.warnings@.map_values(|w: MergeWarning| warning_view(w)) =~= tables_warns(
                samples@.take(si as int + 1),
                depths@,
                pat,
                min_read_count,
                read_len,
            ));
            assert forall|id: Seq<u8>|
                {
                    &&& #[trigger] attr_lookup(m.reference_regions@, id) == attrs_region(
                        tables_first_attrs(samples@.take(si as int + 1), pat, min_read_count, id),
                    )
                    &&& attr_lookup(m.motifs@, id) == attrs_motif(
                        tables_first_attrs(samples@.take(si as int + 1), pat, min_read_count, id),
                    )
                } by {
                assert(tables_first_attrs(samples@.take(si as int + 1), pat, min_read_count, id)
                    == or_attrs(
                    tables_first_attrs(samples@.take(si as int), pat, min_read_count, id),
                    rows_first_attrs(samples@[si as int].rows@, pat, min_read_count, id),
                ));
                assert(rows_first_attrs(sample.rows@.take(nr as int), pat, min_read_count, id)
                    == rows_first_attrs(sample.rows@, pat, min_read_count, id));
            }
            assert forall|l: Seq<u8>, s: Seq<u8>, intr: Seq<u8>| #[trigger] mi_contribs(
                m.interruption_counts@,
                l,
                s,
                intr,
            ) == tables_contribs(
                samples@.take(si as int + 1),
                pat,
                min_read_count,
                l,
                s,
                intr,
            ) by {
                assert(tables_contribs(samples@.take(si as int + 1), pat, min_read_count, l, s, intr)
                    == tables_contribs(samples@.take(si as int), pat, min_read_count, l, s, intr)
                    + (if samples@[si as int].sample_id@ == s {
                    rows_contribs(samples@[si as int].rows@, pat, min_read_count, l, intr)
                } else {
                    Seq::<(u64, u32)>::empty()
                }));
                if s != sample.sample_id@ {
                    assert(tables_contribs(samples@.take(si as int), pat, min_read_count, l, s, intr)
                        + Seq::<(u64, u32)>::empty() =~= tables_contribs(
                        samples@.take(si as int),
                        pat,
                        min_read_count,
                        l,
                        s,
                        intr,
                    ));
                }
            }
            assert forall|si2: int, ri2: int|
                0 <= si2 < samples@.take(si as int + 1).len() && 0 <= ri2 < samples@.take(
                si as int + 1,
            )[si2].rows@.len() implies {
                let row2 = #[trigger] samples@.take(si as int + 1)[si2].rows@[ri2];
                &&& (row_selected(pat, row2) ==> row_count_ok(row2))
                &&& (row_passes(pat, min_read_count, row2) && row2.interruption_cell@.len() > 0
                    ==> parse_cell_spec(row2.interruption_cell@) is Some && depth_lookup(
                    depths@,
                    samples@.take(si as int + 1)[si2].sample_id@,
                ) is Some)
            } by {
                if si2 < si {
                    assert(samples@.take(si as int + 1)[si2] == samples@.take(si as int)[si2]);
                    assert(samples@.take(si as int)[si2].rows@[ri2]
                        == samples@.take(si as int + 1)[si2].rows@[ri2]);
                } else {
                    assert(samples@.take(si as int + 1)[si2] == samples@[si as int]);
                    assert(row_conds(
                        sample.rows@[ri2],
                        depths@,
                        sample.sample_id@,
                        pat,
                        min_read_count,
                    ));
                }
            }
        }
        si += 1;
    }
    proof {
        assert(samples@.take(ns as int) =~= samples@);
    }
    Ok(m)
}

/// Number of read-count entries at locus `id`.
pub open spec fn rc_entries_for(s: Seq<(Seq<u8>, Seq<u8>, u64)>, id: Seq<u8>) -> nat
    decreases s.len(),
{
    if s.len() == 0 {
        0
    } else {
        rc_entries_for(s.drop_last(), id) + if s.last().0 == id {
            1nat
        } else {
            0nat
        }
    }
}

/// Number of rows of one sample that pass the filter and threshold at
/// locus `id`.
pub open spec fn rows_pass_count(
    rows: Seq<ProfileRowIn>,
    pat: Option<Seq<char>>,
    min: u64,
    id: Seq<u8>,
) -> nat
    decreases rows.len(),
{
    if rows.len() == 0 {
        0
    } else {
        rows_pass_count(rows.drop_last(), pat, min, id) + if row_passes(pat, min, rows.last())
            && rows.last().locus_id@ == id {
            1nat
        } else {
            0nat
        }
    }
}

/// Number of passing rows at locus `id` over the whole cohort.
pub open spec fn tables_pass_count(
    samples: Seq<SampleTable>,
    pat: Option<Seq<char>>,
    min: u64,
    id: Seq<u8>,
) -> nat
    decreases samples.len(),
{
    if samples.len() == 0 {
        0
    } else {
        tables_pass_count(samples.drop_last(), pat, min, id) + rows_pass_count(
            samples.last().rows@,
            pat,
            min,
            id,
        )
    }
}

pub proof fn lemma_rc_entries_concat(
    a: Seq<(Seq<u8>, Seq<u8>, u64)>,
    b: Seq<(Seq<u8>, Seq<u8>, u64)>,
    id: Seq<u8>,
)
    ensures
        rc_entries_for(a + b, id) == rc_entries_for(a, id) + rc_entries_for(b, id),
    decreases b.len(),
{
    if b.len() == 0 {
        assert(a + b =~= a);
    } else {
        assert((a + b).drop_last() =~= a + b.drop_last());
        assert((a + b).last() == b.last());
        lemma_rc_entries_concat(a, b.drop_last(), id);
    }
}

proof fn lemma_rows_rc_count(
    rows: Seq<ProfileRowIn>,
    sid: Seq<u8>,
    pat: Option<Seq<char>>,
    min: u64,
    id: Seq<u8>,
)
    ensures
        rc_entries_for(rows_rc(rows, sid, pat, min), id) == rows_pass_count(rows, pat, min, id),
    decreases rows.len(),
{
    if rows.len() > 0 {
        lemma_rows_rc_count(rows.drop_last(), sid, pat, min, id);
        if row_passes(pat, min, rows.last()) {
            let x = (rows.last().locus_id@, sid, dec_val(rows.last().read_count_text@) as u64);
            lemma_rc_entries_concat(rows_rc(rows.drop_last(), sid, pat, min), seq![x], id);
            assert(seq![x].drop_last() =~= Seq::<(Seq<u8>, Seq<u8>, u64)>::empty());
            assert(seq![x].last() == x);
            assert(rc_entries_for(Seq::<(Seq<u8>, Seq<u8>, u64)>::empty(), id) == 0);
            assert(rc_entries_for(seq![x].drop_last(), id) == 0);
            assert(rc_entries_for(seq![x], id) == if x.0 == id {
                1nat
            } else {
                0nat
            });
        } else {
            assert(rows_rc(rows, sid, pat, min) =~= rows_rc(rows.drop_last(), sid, pat, min));
        }
    }
}

/// For any locus, the merged profile holds exactly one (sample, count)
/// read-count entry for each per-sample row that passed both the locus
/// filter and the minimum-read-count threshold.
pub proof fn lemma_read_count_entries(
    samples: Seq<SampleTable>,
    pat: Option<Seq<char>>,
    min: u64,
    id: Seq<u8>,
)
    ensures
        rc_entries_for(tables_rc(samples, pat, min), id) == tables_pass_count(
            samples,
            pat,
            min,
            id,
        ),
    decreases samples.len(),
{
    if samples.len() > 0 {
        lemma_read_count_entries(samples.drop_last(), pat, min, id);
        lemma_rc_entries_concat(
            tables_rc(samples.drop_last(), pat, min),
            rows_rc(samples.last().rows@, samples.last().sample_id@, pat, min),
            id,
        );
        lemma_rows_rc_count(samples.last().rows@, samples.last().sample_id@, pat, min, id);
    }
}

/// The encoded `sample:count` pairs recorded for locus `id`, in manifest
/// order.
pub open spec fn locus_pairs(s: Seq<MergedReadCount>, id: Seq<u8>) -> Seq<Seq<u8>>
    decreases s.len(),
{
    if s.len() == 0 {
        Seq::empty()
    } else {
        let rest = locus_pairs(s.drop_first(), id);
        if s[0].locus_id@ == id {
            seq![crate::codec::encode_pair_spec(s[0].sample_id@, s[0].count)] + rest
        } else {
            rest
        }
    }
}

impl MergedProfile {
    /// The comma-joined `sample:count` cell for one locus of the merged
    /// table.
    pub fn read_counts_cell(&self, id: &Vec<u8>) -> (r: Vec<u8>)
        ensures
            r@ == crate::bytesutil::join_with(
                locus_pairs(self.read_counts@, id@),
                crate::codec::COMMA,
            ),
    {
        let ghost full = locus_pairs(self.read_counts@, id@);
        let mut parts: Vec<Vec<u8>> = Vec::new();
        let n = self.read_counts.len();
        let mut i: usize = 0;
        proof {
            assert(self.read_counts@.skip(0) =~= self.read_counts@);
            assert(parts@.map_values(|v: Vec<u8>| v@) =~= Seq::<Seq<u8>>::empty());
        }
        while i < n
            invariant
                i <= n == self.read_counts@.len(),
                full == locus_pairs(self.read_counts@, id@),
                full == parts@.map_values(|v: Vec<u8>| v@) + locus_pairs(
                    self.read_counts@.skip(i as int),
                    id@,
                ),
            decreases n - i,
        {
            proof {
                assert(self.read_counts@.skip(i as int)[0] == self.read_counts@[i as int]);
                assert(self.read_counts@.skip(i as int).drop_first() =~= self.read_counts@.skip(
                    i as int + 1,
                ));
            }
            let e = &self.read_counts[i];
            if bytes_eq(&e.locus_id, id) {
                let mut part: Vec<u8> = Vec::new();
                crate::codec::encode_pair_into(&mut part, &e.sample_id, e.count);
                let ghost old_parts = parts@;
                parts.push(part);
                proof {
                    assert(parts@.map_values(|v: Vec<u8>| v@) =~= old_parts.map_values(
                        |v: Vec<u8>| v@,
                    ).push(parts@[old_parts.len() as int]@));
                    assert(full =~= parts@.map_values(|v: Vec<u8>| v@) + locus_pairs(
                        self.read_counts@.skip(i as int + 1),
                        id@,
                    ));
                }
            }
            i += 1;
        }
        proof {
            assert(locus_pairs(self.read_counts@.skip(n as int), id@) =~= Seq::<Seq<u8>>::empty());
            assert(full =~= parts@.map_values(|v: Vec<u8>| v@));
        }
        let mut r: Vec<u8> = Vec::new();
        crate::bytesutil::join_into(&mut r, &parts, crate::codec::COMMA);
        r
    }
}

/// The header line of the merged profile table.
pub open spec fn merged_header_spec() -> Seq<u8> {
    "locus_id\treference_region\tmotif\tread_counts\tinterruption_counts\n".spec_bytes()
}

/// The reference region recorded for a locus, empty when absent.
pub open spec fn region_or_empty(m: MergedProfile, id: Seq<u8>) -> Seq<u8> {
    match attr_lookup(m.reference_regions@, id) {
        Some(v) => v,
        None => Seq::empty(),
    }
}

/// The `sample:interruption:total` cell parts for one locus, walking the
/// merged entries and their rendered totals in step.
pub open spec fn locus_merged_cells(
    ics: Seq<MergedInterruption>,
    totals: Seq<Seq<u8>>,
    id: Seq<u8>,
) -> Seq<Seq<u8>>
    decreases ics.len(),
{
    if ics.len() == 0 {
        Seq::empty()
    } else {
        let rest = locus_merged_cells(ics.drop_first(), totals.drop_first(), id);
        if ics[0].locus_id@ == id {
            seq![
                ics[0].sample_id@ + seq![COLON] + ics[0].interruption@ + seq![COLON] + totals[0],
            ] + rest
        } else {
            rest
        }
    }
}

/// One merged table row: the locus, its region and motif, the exact
/// `sample:count` cell, and the `sample:interruption:total` cell built
/// from the rendered totals.
pub open spec fn merged_line_spec(m: MergedProfile, totals: Seq<Seq<u8>>, attr: LocusAttr) -> Seq<
    u8,
> {
    attr.locus_id@ + seq![TAB] + region_or_empty(m, attr.locus_id@) + seq![TAB] + attr.value@
        + seq![TAB] + crate::bytesutil::join_with(
        locus_pairs(m.read_counts@, attr.locus_id@),
        COMMA,
    ) + seq![TAB] + crate::bytesutil::join_with(
        locus_merged_cells(m.interruption_counts@, totals, attr.locus_id@),
        COMMA,
    ) + seq![NEWLINE]
}

pub open spec fn merged_rows_rec(attrs: Seq<LocusAttr>, m: MergedProfile, totals: Seq<Seq<u8>>)
    -> Seq<u8>
    decreases attrs.len(),
{
    if attrs.len() == 0 {
        Seq::empty()
    } else {
        merged_rows_rec(attrs.drop_last(), m, totals) + merged_line_spec(m, totals, attrs.last())
    }
}

/// The data rows of the merged table: one per motifs entry, in order.
pub open spec fn merged_rows_spec(m: MergedProfile, totals: Seq<Seq<u8>>) -> Seq<u8> {
    merged_rows_rec(m.motifs@, m, totals)
}

/// The value recorded for a locus in an attribute list, empty when absent.
fn find_attr_value(attrs: &Vec<LocusAttr>, id: &Vec<u8>) -> (r: Vec<u8>)
    ensures
        r@ == match attr_lookup(attrs@, id@) {
            Some(v) => v,
            None => Seq::<u8>::empty(),
        },
{
    let n = attrs.len();
    let mut i: usize = 0;
    proof {
        assert(attrs@.skip(0) =~= attrs@);
    }
    while i < n
        invariant
            i <= n == attrs@.len(),
            attr_lookup(attrs@, id@) == attr_lookup(attrs@.skip(i as int), id@),
        decreases n - i,
    {
        proof {
            assert(attrs@.skip(i as int)[0] == attrs@[i as int]);
            assert(attrs@.skip(i as int).drop_first() =~= attrs@.skip(i as int + 1));
        }
        if bytes_eq(&attrs[i].locus_id, id) {
            let v = crate::bytesutil::sub_bytes(&attrs[i].value, 0, attrs[i].value.len());
            proof {
                assert(v@ =~= attrs@[i as int].value@);
            }
            return v;
        }
        i += 1;
    }
    Vec::new()
}

/// The merged table: the header, then one row per motifs entry in order;
/// `totals[j]` is the rendered normalized total for `interruption_counts[j]`.
pub fn write_merged_table(m: &MergedProfile, totals: &Vec<Vec<u8>>, out: &mut Vec<u8>)
    requires
        totals@.len() == m.interruption_counts@.len(),
    ensures
        final(out)@ == old(out)@ + merged_header_spec() + merged_rows_spec(
            *m,
            totals@.map_values(|v: Vec<u8>| v@),
        ),
{
    let ghost tv = totals@.map_values(|v: Vec<u8>| v@);
    crate::profile::append_slice(
        out,
        "locus_id\treference_region\tmotif\tread_counts\tinterruption_counts\n".as_bytes(),
    );
    let n = m.motifs.len();
    let mut k: usize = 0;
    proof {
        assert(m.motifs@.take(0) =~= Seq::<LocusAttr>::empty());
        assert(out@ =~= old(out)@ + merged_header_spec() + merged_rows_rec(
            m.motifs@.take(0),
            *m,
            tv,
        ));
    }
    while k < n
        invariant
            k <= n == m.motifs@.len(),
            tv == totals@.map_values(|v: Vec<u8>| v@),
            totals@.len() == m.interruption_counts@.len(),
            out@ == old(out)@ + merged_header_spec() + merged_rows_rec(
                m.motifs@.take(k as int),
                *m,
                tv,
            ),
        decreases n - k,
    {
        let attr = &m.motifs[k];
        crate::utils::append_bytes(out, &attr.locus_id);
        out.push(TAB);
        let region = find_attr_value(&m.reference_regions, &attr.locus_id);
        crate::utils::append_bytes(out, &region);
        out.push(TAB);
        crate::utils::append_bytes(out, &attr.value);
        out.push(TAB);
        let rc_cell = m.read_counts_cell(&attr.locus_id);
        crate::utils::append_bytes(out, &rc_cell);
        out.push(TAB);
        let parts = merged_cell_parts(m, totals, &attr.locus_id);
        crate::bytesutil::join_into(out, &parts, COMMA);
        out.push(NEWLINE);
        proof {
            assert(m.motifs@.take(k as int + 1).drop_last() =~= m.motifs@.take(k as int));
            assert(m.motifs@.take(k as int + 1).last() == m.motifs@[k as int]);
            assert(out@ =~= old(out)@ + merged_header_spec() + merged_rows_rec(
                m.motifs@.take(k as int + 1),
                *m,
                tv,
            ));
        }
        k += 1;
    }
    proof {
        assert(m.motifs@.take(n as int) =~= m.motifs@);
    }
}

/// The rendered `sample:interruption:total` parts for one locus.
fn merged_cell_parts(m: &MergedProfile, totals: &Vec<Vec<u8>>, id: &Vec<u8>) -> (r: Vec<Vec<u8>>)
    requires
        totals@.len() == m.interruption_counts@.len(),
    ensures
        r@.map_values(|v: Vec<u8>| v@) == locus_merged_cells(
            m.interruption_counts@,
            totals@.map_values(|v: Vec<u8>| v@),
            id@,
        ),
{
    let ghost tv = totals@.map_values(|v: Vec<u8>| v@);
    let ghost full = locus_merged_cells(m.interruption_counts@, tv, id@);
    let mut r: Vec<Vec<u8>> = Vec::new();
    let n = m.interruption_counts.len();
    let mut j: usize = 0;
    proof {
        assert(m.interruption_counts@.skip(0) =~= m.interruption_counts@);
        assert(tv.skip(0) =~= tv);
        assert(r@.map_values(|v: Vec<u8>| v@) =~= Seq::<Seq<u8>>::empty());
    }
    while j < n
        invariant
            j <= n == m.interruption_counts@.len(),
            tv == totals@.map_values(|v: Vec<u8>| v@),
            totals@.len() == m.interruption_counts@.len(),
            full == locus_merged_cells(m.interruption_counts@, tv, id@),
            full == r@.map_values(|v: Vec<u8>| v@) + locus_merged_cells(
                m.interruption_counts@.skip(j as int),
                tv.skip(j as int),
                id@,
            ),
        decreases n - j,
    {
        proof {
            assert(m.interruption_counts@.skip(j as int)[0] == m.interruption_counts@[j as int]);
            assert(m.interruption_counts@.skip(j as int).drop_first()
                =~= m.interruption_counts@.skip(j as int + 1));
            assert(tv.skip(j as int)[0] == tv[j as int]);
            assert(tv.skip(j as int).drop_first() =~= tv.skip(j as int + 1));
            assert(totals@[j as int]@ == tv[j as int]);
        }
        let e = &m.interruption_counts[j];
        if bytes_eq(&e.locus_id, id) {
            let mut part: Vec<u8> = Vec::new();
            crate::utils::append_bytes(&mut part, &e.sample_id);
            part.push(COLON);
            crate::utils::append_bytes(&mut part, &e.interruption);
            part.push(COLON);
            crate::utils::append_bytes(&mut part, &totals[j]);
            proof {
                assert(part@ =~= m.interruption_counts@[j as int].sample_id@ + seq![COLON]
                    + m.interruption_counts@[j as int].interruption@ + seq![COLON] + tv[j as int]);
            }
            let ghost old_r = r@;
            r.push(part);
            proof {
                assert(r@.map_values(|v: Vec<u8>| v@) =~= old_r.map_values(|v: Vec<u8>| v@).push(
                    r@[old_r.len() as int]@,
                ));
                assert(full =~= r@.map_values(|v: Vec<u8>| v@) + locus_merged_cells(
                    m.interruption_counts@.skip(j as int + 1),
                    tv.skip(j as int + 1),
                    id@,
                ));
            }
        }
        j += 1;
    }
    proof {
        assert(locus_merged_cells(
            m.interruption_counts@.skip(n as int),
            tv.skip(n as int),
            id@,
        ) =~= Seq::<Seq<u8>>::empty());
        assert(full =~= r@.map_values(|v: Vec<u8>| v@));
    }
    r
}

/// Filter consistency on the merge side: a row whose locus identifier
/// fails the filter contributes nothing to the merged profile — no
/// read-count entry, no normalized contribution, no motif or
/// reference-region claim, and no warning — regardless of its read count.
pub proof fn lemma_filtered_row_contributes_nothing(
    row: ProfileRowIn,
    depths: Seq<DepthEntry>,
    sid: Seq<u8>,
    pat: Option<Seq<char>>,
    min: u64,
    read_len: u32,
    l: Seq<u8>,
    intr: Seq<u8>,
    id: Seq<u8>,
)
    requires
        !crate::catalog::filter_passes(pat, row.locus_id@),
    ensures
        rows_rc(seq![row], sid, pat, min) == Seq::<(Seq<u8>, Seq<u8>, u64)>::empty(),
        row_contribs(row, pat, min, l, intr) == Seq::<(u64, u32)>::empty(),
        rows_first_attrs(seq![row], pat, min, id) is None,
        row_warns(row, depths, sid, pat, min, read_len) == Seq::<
            (Seq<u8>, Seq<u8>, Seq<u8>, u32, bool),
        >::empty(),
{
    assert(!row_selected(pat, row));
    assert(!row_passes(pat, min, row));
    assert(seq![row].drop_last() =~= Seq::<ProfileRowIn>::empty());
    assert(seq![row].last() == row);
    assert(rows_rc(Seq::<ProfileRowIn>::empty(), sid, pat, min) =~= Seq::<
        (Seq<u8>, Seq<u8>, u64),
    >::empty());
    assert(rows_rc(seq![row], sid, pat, min) =~= Seq::<(Seq<u8>, Seq<u8>, u64)>::empty());
    assert(rows_first_attrs(Seq::<ProfileRowIn>::empty(), pat, min, id) is None);
}

} // verus!
