//! Alignment scoring configuration and output-path derivation.

use vstd::prelude::*;
use crate::bytesutil::{first_sep, sub_bytes};

verus! {

/// Scoring scheme for the semiglobal alignment: a match reward and three
/// penalties (all given as non-negative magnitudes).
pub struct AlignmentScoreParams {
    pub match_score: i32,
    pub mismatch_penalty: i32,
    pub gap_open_penalty: i32,
    pub gap_extend_penalty: i32,
}

/// Position just after the last `/` of `p`, or 0 when `p` holds none.
pub open spec fn file_name_start(p: Seq<u8>) -> nat
    decreases p.len(),
{
    if p.len() == 0 {
        0
    } else if p.last() == 47 {
        p.len() as nat
    } else {
        file_name_start(p.drop_last())
    }
}

/// `p` with any trailing `/` separators removed, the way std locates a
/// path's file name.
pub open spec fn strip_trailing_separators(p: Seq<u8>) -> Seq<u8>
    decreases p.len(),
{
    if p.len() > 0 && p.last() == 47 {
        strip_trailing_separators(p.drop_last())
    } else {
        p
    }
}

/// The default output path next to `input`: trailing separators dropped,
/// then the directory part, then the file name truncated at its first `.`,
/// then `.suffix.ext`.
pub open spec fn default_out_path(p: Seq<u8>, suffix: Seq<u8>, ext: Seq<u8>) -> Seq<u8> {
    let q = strip_trailing_separators(p);
    let start = file_name_start(q) as int;
    let name = q.skip(start);
    let stem = name.take(first_sep(name, 46) as int);
    q.take(start) + stem + seq![46u8] + suffix + seq![46u8] + ext
}

/// Derive the default output path for `input`: drop trailing separators,
/// keep the directory, truncate the file name at its first period, and
/// append `.suffix.ext`.  The input must still have a real file name once
/// trailing separators are gone (`.` and `..` components have none).
pub fn get_default_out_path(input: &Vec<u8>, suffix: &Vec<u8>, ext: &Vec<u8>) -> (r: Vec<u8>)
    requires
        strip_trailing_separators(input@).len() > 0,
        strip_trailing_separators(input@).skip(
            file_name_start(strip_trailing_separators(input@)) as int,
        ) != seq![46u8],
        strip_trailing_separators(input@).skip(
            file_name_start(strip_trailing_separators(input@)) as int,
        ) != seq![46u8, 46u8],
    ensures
        r@ == default_out_path(input@, suffix@, ext@),
{
    let mut e: usize = input.len();
    proof {
        assert(strip_trailing_separators(input@) == strip_trailing_separators(
            input@.take(e as int),
        )) by {
            assert(input@.take(e as int) =~= input@);
        }
    }
    while e > 0 && input[e - 1] == 47
        invariant
            e <= input@.len(),
            strip_trailing_separators(input@) == strip_trailing_separators(input@.take(e as int)),
        decreases e,
    {
        proof {
            assert(input@.take(e as int).last() == input@[e - 1]);
            assert(input@.take(e as int).drop_last() =~= input@.take(e - 1));
        }
        e -= 1;
    }
    proof {
        if e > 0 {
            assert(input@.take(e as int).last() == input@[e - 1]);
        }
        assert(strip_trailing_separators(input@.take(e as int)) == input@.take(e as int));
    }
    let q = sub_bytes(input, 0, e);
    proof {
        assert(q@ =~= input@.take(e as int));
        assert(q@ == strip_trailing_separators(input@));
    }
    let start = find_name_start(&q);
    let stop = find_stem_stop(&q, start);
    let mut r: Vec<u8> = Vec::new();
    let mut i: usize = 0;
    while i < stop
        invariant
            i <= stop <= q@.len(),
            r@ == q@.take(i as int),
        decreases stop - i,
    {
        r.push(q[i]);
        i += 1;
        assert(r@ =~= q@.take(i as int));
    }
    r.push(46);
    append_bytes(&mut r, suffix);
    r.push(46);
    append_bytes(&mut r, ext);
    proof {
        let startg = file_name_start(q@) as int;
        let name = q@.skip(startg);
        let stem = name.take(first_sep(name, 46) as int);
        assert(q@.take(stop as int) =~= q@.take(startg) + stem);
    }
    r
}

/// Append all of `src` to `out`.
pub fn append_bytes(out: &mut Vec<u8>, src: &Vec<u8>)
    ensures
        final(out)@ == old(out)@ + src@,
{
    let mut k: usize = 0;
    while k < src.len()
        invariant
            k <= src@.len(),
            out@ == old(out)@ + src@.take(k as int),
        decreases src@.len() - k,
    {
        out.push(src[k]);
        k += 1;
        assert(out@ =~= old(out)@ + src@.take(k as int));
    }
    assert(src@.take(src@.len() as int) =~= src@);
}

/// Index just after the last `/` of `p`, matching `file_name_start`.
fn find_name_start(p: &Vec<u8>) -> (r: usize)
    ensures
        r == file_name_start(p@),
        r <= p@.len(),
{
    let mut i: usize = p.len();
    proof {
        assert(p@.take(i as int) =~= p@);
    }
    while i > 0
        invariant
            i <= p@.len(),
            file_name_start(p@) == file_name_start(p@.take(i as int)),
        decreases i,
    {
        if p[i - 1] == 47 {
            proof {
                assert(p@.take(i as int).last() == 47);
            }
            return i;
        }
        proof {
            assert(p@.take(i as int).drop_last() =~= p@.take(i - 1));
            assert(p@.take(i as int).last() != 47);
        }
        i -= 1;
    }
    proof {
        assert(p@.take(0).len() == 0);
    }
    0
}

/// Index of the first `.` at or after `start`, or `p.len()` when none.
fn find_stem_stop(p: &Vec<u8>, start: usize) -> (r: usize)
    requires
        start <= p@.len(),
    ensures
        start <= r <= p@.len(),
        r - start == first_sep(p@.skip(start as int), 46),
{
    let ghost name = p@.skip(start as int);
    let mut i: usize = start;
    while i < p.len()
        invariant
            start <= i <= p@.len(),
            name == p@.skip(start as int),
            forall|j: int| 0 <= j < i - start ==> name[j] != 46,
        decreases p@.len() - i,
    {
        if p[i] == 46 {
            proof {
                assert(name[(i - start) as int] == 46);
                crate::bytesutil::lemma_first_sep_at(name, 46, (i - start) as nat);
            }
            return i;
        }
        proof {
            assert(name[(i - start) as int] == p@[i as int]);
        }
        i += 1;
    }
    proof {
        crate::bytesutil::lemma_first_sep_at(name, 46, name.len() as nat);
    }
    p.len()
}

} // verus!
