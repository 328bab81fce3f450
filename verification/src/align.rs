//! Interruption detection: tiling a pure reference from a motif, invoking a
//! semiglobal alignment, and extracting interruption runs from the alignment
//! path.
//!
//! An interruption is a maximal contiguous run of substitution or insertion
//! steps along the observed sequence.  The alignment itself is an outside
//! capability; its edit path is modelled as a sequence of [`AlignStep`]
//! values, and everything that reads the path is verified.

use vstd::prelude::*;
use bio::alignment::AlignmentOperation;
use crate::utils::AlignmentScoreParams;

verus! {

/// One kind of edit operation along an alignment path.
#[derive(Clone, Copy, Debug, PartialEq, Eq, Structural)]
pub enum AlignOp {
    Match,
    Subst,
    Del,
    Ins,
    Clip,
}

/// One step of an alignment path: the edit operation, and the 1-based
/// position of the observed byte it consumes (meaningful for operations
/// that consume the observed sequence).
#[derive(Clone, Copy, Debug)]
pub struct AlignStep {
    pub pos: usize,
    pub op: AlignOp,
}

/// Extra motif copies appended beyond the observed length when tiling the
/// pure reference, so the reference side is never truncated.
pub const PURE_SEQ_PAD: usize = 4;

/// Number of motif copies tiled for an observed length `len` and padding
/// `pad`, and the resulting reference length.
pub open spec fn pure_tile_count(motif_len: nat, len: nat, pad: nat) -> nat {
    len / motif_len + 1 + pad
}

pub open spec fn pure_seq_len(motif_len: nat, len: nat, pad: nat) -> nat {
    pure_tile_count(motif_len, len, pad) * motif_len
}

/// The pure reference: the motif tiled `pure_tile_count` times.
pub open spec fn pure_seq_spec(motif: Seq<u8>, len: nat, pad: nat) -> Seq<u8> {
    Seq::new(
        pure_seq_len(motif.len(), len, pad),
        |i: int| motif[i % (motif.len() as int)],
    )
}

/// The largest of the four scoring magnitudes.
pub open spec fn max_param(p: AlignmentScoreParams) -> int {
    let a = if p.match_score >= p.mismatch_penalty {
        p.match_score
    } else {
        p.mismatch_penalty
    };
    let b = if p.gap_open_penalty >= p.gap_extend_penalty {
        p.gap_open_penalty
    } else {
        p.gap_extend_penalty
    };
    if a >= b {
        a as int
    } else {
        b as int
    }
}

/// The scoring magnitudes the aligner is given: all four non-negative and
/// small enough that score sums stay far from the 32-bit limits.
pub open spec fn params_bounded(p: AlignmentScoreParams) -> bool {
    &&& 0 <= p.match_score <= 0x100000
    &&& 0 <= p.mismatch_penalty <= 0x100000
    &&& 0 <= p.gap_open_penalty <= 0x100000
    &&& 0 <= p.gap_extend_penalty <= 0x100000
}

/// Tile `motif` into a pure repeat sequence long enough to cover an observed
/// sequence of length `len`, padded with `pad` extra motif copies.
pub fn create_pure_seq(motif: &Vec<u8>, len: usize, pad: usize) -> (r: Vec<u8>)
    requires
        motif@.len() > 0,
        pure_seq_len(motif@.len(), len as nat, pad as nat) <= usize::MAX,
    ensures
        r@ == pure_seq_spec(motif@, len as nat, pad as nat),
{
    let m = motif.len();
    proof {
        let n0 = pure_tile_count(m as nat, len as nat, pad as nat);
        assert(n0 * m <= usize::MAX);
        assert(n0 <= n0 * m) by (nonlinear_arith)
            requires
                n0 >= 1 && m >= 1,
        ;
    }
    let n = len / m + 1 + pad;
    let mut r: Vec<u8> = Vec::new();
    let mut c: usize = 0;
    while c < n
        invariant
            c <= n,
            m == motif@.len(),
            m > 0,
            n * m <= usize::MAX,
            r@.len() == c * m,
            forall|i: int| 0 <= i < r@.len() ==> r@[i] == motif@[i % (m as int)],
        decreases n - c,
    {
        proof {
            assert((c + 1) * m <= n * m) by (nonlinear_arith)
                requires
                    c + 1 <= n && m >= 0,
            ;
            assert((c + 1) * m == c * m + m) by (nonlinear_arith);
        }
        let mut k: usize = 0;
        while k < m
            invariant
                k <= m,
                m == motif@.len(),
                m > 0,
                c * m + m <= usize::MAX,
                r@.len() == c * m + k,
                forall|i: int| 0 <= i < r@.len() ==> r@[i] == motif@[i % (m as int)],
            decreases m - k,
        {
            r.push(motif[k]);
            proof {
                let i = r@.len() - 1;
                assert(i == c * m + k);
                vstd::arithmetic::div_mod::lemma_mod_multiples_vanish(
                    c as int,
                    k as int,
                    m as int,
                );
                vstd::arithmetic::div_mod::lemma_small_mod(k as nat, m as nat);
                assert(i % (m as int) == k as int);
            }
            k += 1;
        }
        c += 1;
    }
    proof {
        assert(r@ =~= pure_seq_spec(motif@, len as nat, pad as nat));
    }
    r
}

/// Score of one aligned byte pair under the configured scheme: the match
/// reward when the bytes agree, minus the mismatch penalty otherwise.
pub fn pair_score(a: u8, b: u8, params: &AlignmentScoreParams) -> (r: i32)
    requires
        params.mismatch_penalty > i32::MIN,
    ensures
        r == if a == b {
            params.match_score as int
        } else {
            -(params.mismatch_penalty as int)
        },
{
    if a == b {
        params.match_score
    } else {
        -params.mismatch_penalty
    }
}

/// The edit path that the semiglobal alignment yields for the given observed
/// sequence, pure reference and scoring parameters.  The alignment is a
/// deterministic function of these arguments alone.
pub uninterp spec fn semiglobal_path_of(
    observed: Seq<u8>,
    pure: Seq<u8>,
    match_score: int,
    mismatch_penalty: int,
    gap_open_penalty: int,
    gap_extend_penalty: int,
) -> Seq<AlignStep>;

/// Relies on bio's `Aligner::semiglobal` and `Alignment::path`: the observed
/// sequence is consumed in full (clip operations are filtered out of the
/// path), the path is computed by a deterministic dynamic program, and each
/// path entry carries the 1-based observed position reached after its
/// operation, so steps that consume an observed byte point into `observed`.
/// `Aligner::with_capacity` asserts that both gap scores are non-positive,
/// so the penalties handed over must be non-negative; the dynamic program
/// accumulates per-byte scores in plain 32-bit arithmetic, so the
/// magnitudes and the total cell count are bounded to keep every partial
/// score representable.
#[verifier::external_body]
fn semiglobal_path(observed: &Vec<u8>, pure: &Vec<u8>, params: &AlignmentScoreParams) -> (r: Vec<
    AlignStep,
>)
    requires
        params_bounded(*params),
        (observed@.len() + pure@.len() + 2) * max_param(*params) <= i32::MAX,
    ensures
        r@ == semiglobal_path_of(
            observed@,
            pure@,
            params.match_score as int,
            params.mismatch_penalty as int,
            params.gap_open_penalty as int,
            params.gap_extend_penalty as int,
        ),
        forall|k: int| 0 <= k < r@.len() ==> (#[trigger] r@[k]).op != AlignOp::Clip,
        forall|k: int|
            0 <= k < r@.len() && (#[trigger] r@[k]).op != AlignOp::Del ==> 1 <= r@[k].pos
                <= observed@.len(),
{
    let f = |a: u8, b: u8| pair_score(a, b, params);
    let go = -params.gap_open_penalty;
    let ge = -params.gap_extend_penalty;
    let mut aligner = bio::alignment::pairwise::Aligner::new(go, ge, f);
    let alignment = aligner.semiglobal(observed, pure);
    alignment.path().into_iter().map(|(x, _, op)| AlignStep { pos: x, op: match op {
        AlignmentOperation::Match => AlignOp::Match,
        AlignmentOperation::Subst => AlignOp::Subst,
        AlignmentOperation::Del => AlignOp::Del,
        AlignmentOperation::Ins => AlignOp::Ins,
        AlignmentOperation::Xclip(_) => AlignOp::Clip,
        AlignmentOperation::Yclip(_) => AlignOp::Clip,
    } }).collect()
}

/// The line-wrapped rendering `Alignment::pretty` produces for the given
/// sequences and scores; a deterministic function of these arguments
/// alone.
pub uninterp spec fn pretty_of(
    observed: Seq<u8>,
    pure: Seq<u8>,
    match_score: int,
    mismatch_penalty: int,
    gap_open_penalty: int,
    gap_extend_penalty: int,
) -> Seq<char>;

/// Relies on bio's `Alignment::pretty` for a line-wrapped, human-readable
/// rendering of the alignment; purely diagnostic, nothing downstream reads
/// it.  `pretty` renders each byte through a lossy single-byte decode and
/// then asserts its three display lines have equal byte lengths, which a
/// byte outside ASCII breaks, so both sequences must be ASCII.
#[verifier::external_body]
pub(crate) fn semiglobal_pretty(
    observed: &Vec<u8>,
    pure: &Vec<u8>,
    params: &AlignmentScoreParams,
) -> (r: String)
    requires
        params_bounded(*params),
        (observed@.len() + pure@.len() + 2) * max_param(*params) <= i32::MAX,
        forall|k: int| 0 <= k < observed@.len() ==> #[trigger] observed@[k] < 0x80,
        forall|k: int| 0 <= k < pure@.len() ==> #[trigger] pure@[k] < 0x80,
    ensures
        r@ == pretty_of(
            observed@,
            pure@,
            params.match_score as int,
            params.mismatch_penalty as int,
            params.gap_open_penalty as int,
            params.gap_extend_penalty as int,
        ),
{
    let f = |a: u8, b: u8| pair_score(a, b, params);
    let mut aligner = bio::alignment::pairwise::Aligner::new(
        -params.gap_open_penalty,
        -params.gap_extend_penalty,
        f,
    );
    let alignment = aligner.semiglobal(observed, pure);
    alignment.pretty(observed, pure, 80)
}

/// Whether a path step belongs to an interruption run.
pub open spec fn is_interruption_op(op: AlignOp) -> bool {
    op == AlignOp::Subst || op == AlignOp::Ins
}

/// The observed byte consumed by a step (1-based position).
pub open spec fn step_byte(obs: Seq<u8>, st: AlignStep) -> u8 {
    obs[st.pos - 1]
}

/// The interruption runs flushed while walking `path` with run buffer `cur`:
/// substitution and insertion steps extend the buffer; a match or deletion
/// flushes a non-empty buffer as one completed run.
pub open spec fn runs_during(path: Seq<AlignStep>, obs: Seq<u8>, cur: Seq<u8>) -> Seq<Seq<u8>>
    decreases path.len(),
{
    if path.len() == 0 {
        Seq::empty()
    } else if is_interruption_op(path[0].op) {
        runs_during(path.drop_first(), obs, cur.push(step_byte(obs, path[0])))
    } else if cur.len() > 0 {
        seq![cur] + runs_during(path.drop_first(), obs, Seq::empty())
    } else {
        runs_during(path.drop_first(), obs, Seq::empty())
    }
}

/// The run buffer left after walking `path` starting from buffer `cur`.
pub open spec fn buf_after(path: Seq<AlignStep>, obs: Seq<u8>, cur: Seq<u8>) -> Seq<u8>
    decreases path.len(),
{
    if path.len() == 0 {
        cur
    } else if is_interruption_op(path[0].op) {
        buf_after(path.drop_first(), obs, cur.push(step_byte(obs, path[0])))
    } else {
        buf_after(path.drop_first(), obs, Seq::empty())
    }
}

/// All interruptions of a path: the flushed runs, plus the still-open run at
/// the end of the path, which is emitted unconditionally.
pub open spec fn interruptions_of(path: Seq<AlignStep>, obs: Seq<u8>) -> Seq<Seq<u8>> {
    let runs = runs_during(path, obs, Seq::empty());
    let tail = buf_after(path, obs, Seq::empty());
    if tail.len() > 0 {
        runs.push(tail)
    } else {
        runs
    }
}

/// Walking a concatenated path flushes the first part's runs, then the
/// second part's, continued from the buffer the first part left behind.
pub proof fn lemma_runs_concat(a: Seq<AlignStep>, b: Seq<AlignStep>, obs: Seq<u8>, cur: Seq<u8>)
    ensures
        runs_during(a + b, obs, cur) == runs_during(a, obs, cur) + runs_during(
            b,
            obs,
            buf_after(a, obs, cur),
        ),
        buf_after(a + b, obs, cur) == buf_after(b, obs, buf_after(a, obs, cur)),
    decreases a.len(),
{
    if a.len() == 0 {
        assert(a + b =~= b);
        assert(runs_during(a, obs, cur) + runs_during(b, obs, cur) =~= runs_during(b, obs, cur));
    } else {
        assert((a + b)[0] == a[0]);
        assert((a + b).drop_first() =~= a.drop_first() + b);
        if is_interruption_op(a[0].op) {
            lemma_runs_concat(a.drop_first(), b, obs, cur.push(step_byte(obs, a[0])));
        } else {
            lemma_runs_concat(a.drop_first(), b, obs, Seq::empty());
            if cur.len() > 0 {
                let rest = buf_after(a.drop_first(), obs, Seq::empty());
                assert((seq![cur] + runs_during(a.drop_first(), obs, Seq::empty())) + runs_during(
                    b,
                    obs,
                    rest,
                ) =~= seq![cur] + (runs_during(a.drop_first(), obs, Seq::empty()) + runs_during(
                    b,
                    obs,
                    rest,
                )));
            }
        }
    }
}

/// Extract the interruptions of an alignment path: the literal observed
/// substrings covered by each maximal run of substitutions and insertions,
/// in path order, with a still-open trailing run flushed at the end.
pub fn find_interruptions(path: &Vec<AlignStep>, observed: &Vec<u8>) -> (r: Vec<Vec<u8>>)
    requires
        forall|k: int|
            0 <= k < path@.len() && is_interruption_op((#[trigger] path@[k]).op) ==> 1 <= path@[k].pos
                <= observed@.len(),
    ensures
        r@.map_values(|v: Vec<u8>| v@) == interruptions_of(path@, observed@),
{
    let ghost full_runs = runs_during(path@, observed@, Seq::empty());
    let ghost full_buf = buf_after(path@, observed@, Seq::empty());
    let mut r: Vec<Vec<u8>> = Vec::new();
    let mut cur: Vec<u8> = Vec::new();
    let mut i: usize = 0;
    proof {
        assert(path@.skip(0) =~= path@);
        assert(r@.map_values(|v: Vec<u8>| v@) =~= Seq::<Seq<u8>>::empty());
    }
    while i < path.len()
        invariant
            i <= path@.len(),
            forall|k: int|
                0 <= k < path@.len() && is_interruption_op((#[trigger] path@[k]).op) ==> 1
                    <= path@[k].pos <= observed@.len(),
            full_runs == runs_during(path@, observed@, Seq::empty()),
            full_buf == buf_after(path@, observed@, Seq::empty()),
            full_runs == r@.map_values(|v: Vec<u8>| v@) + runs_during(
                path@.skip(i as int),
                observed@,
                cur@,
            ),
            full_buf == buf_after(path@.skip(i as int), observed@, cur@),
        decreases path@.len() - i,
    {
        let st = path[i];
        proof {
            assert(path@.skip(i as int)[0] == path@[i as int]);
            assert(path@.skip(i as int).drop_first() =~= path@.skip(i as int + 1));
        }
        let ghost old_cur = cur@;
        if st.op == AlignOp::Subst || st.op == AlignOp::Ins {
            cur.push(observed[st.pos - 1]);
            proof {
                assert(is_interruption_op(path@[i as int].op));
                assert(cur@ == old_cur.push(step_byte(observed@, path@[i as int])));
                assert(runs_during(path@.skip(i as int), observed@, old_cur) == runs_during(
                    path@.skip(i as int + 1),
                    observed@,
                    cur@,
                ));
                assert(buf_after(path@.skip(i as int), observed@, old_cur) == buf_after(
                    path@.skip(i as int + 1),
                    observed@,
                    cur@,
                ));
            }
        } else {
            proof {
                assert(!is_interruption_op(path@[i as int].op));
            }
            if cur.len() > 0 {
                let ghost old_r = r@;
                r.push(cur);
                cur = Vec::new();
                proof {
                    assert(r@.map_values(|v: Vec<u8>| v@) =~= old_r.map_values(
                        |v: Vec<u8>| v@,
                    ).push(r@[old_r.len() as int]@));
                    assert(runs_during(path@.skip(i as int), observed@, old_cur) == seq![old_cur]
                        + runs_during(path@.skip(i as int + 1), observed@, Seq::empty()));
                    assert(full_runs =~= r@.map_values(|v: Vec<u8>| v@) + runs_during(
                        path@.skip(i as int + 1),
                        observed@,
                        cur@,
                    ));
                }
            } else {
                proof {
                    assert(cur@ =~= Seq::<u8>::empty());
                }
            }
        }
        i += 1;
    }
    proof {
        assert(path@.skip(path@.len() as int).len() == 0);
    }
    if cur.len() > 0 {
        let ghost old_r = r@;
        r.push(cur);
        proof {
            assert(r@.map_values(|v: Vec<u8>| v@) =~= old_r.map_values(|v: Vec<u8>| v@).push(
                r@[old_r.len() as int]@,
            ));
            assert(r@.map_values(|v: Vec<u8>| v@) =~= interruptions_of(path@, observed@));
        }
    } else {
        proof {
            assert(r@.map_values(|v: Vec<u8>| v@) =~= interruptions_of(path@, observed@));
        }
    }
    r
}

/// The interruption list for one observed read: interruptions of the
/// semiglobal alignment of the read against the pure reference tiled from
/// its locus motif with the default padding.
pub open spec fn detect_spec(obs: Seq<u8>, motif: Seq<u8>, params: AlignmentScoreParams) -> Seq<
    Seq<u8>,
> {
    interruptions_of(
        semiglobal_path_of(
            obs,
            pure_seq_spec(motif, obs.len(), PURE_SEQ_PAD as nat),
            params.match_score as int,
            params.mismatch_penalty as int,
            params.gap_open_penalty as int,
            params.gap_extend_penalty as int,
        ),
        obs,
    )
}

/// Detect the interruptions of one observed read against its locus motif:
/// build the pure reference, align, and extract the interruption runs.
pub fn detect_interruptions(observed: &Vec<u8>, motif: &Vec<u8>, params: &AlignmentScoreParams)
    -> (r: Vec<Vec<u8>>)
    requires
        motif@.len() > 0,
        pure_seq_len(motif@.len(), observed@.len(), PURE_SEQ_PAD as nat) <= usize::MAX,
        params_bounded(*params),
        (observed@.len() + pure_seq_len(motif@.len(), observed@.len(), PURE_SEQ_PAD as nat) + 2)
            * max_param(*params) <= i32::MAX,
    ensures
        r@.map_values(|v: Vec<u8>| v@) == detect_spec(observed@, motif@, *params),
{
    let pure = create_pure_seq(motif, observed.len(), PURE_SEQ_PAD);
    let path = semiglobal_path(observed, &pure, params);
    find_interruptions(&path, observed)
}

/// Detection is deterministic: the interruption list is a function of the
/// observed sequence, the motif and the four scoring parameters alone, with
/// no run-to-run variation.
pub proof fn lemma_detect_deterministic(
    obs: Seq<u8>,
    motif: Seq<u8>,
    p1: AlignmentScoreParams,
    p2: AlignmentScoreParams,
)
    requires
        p1.match_score == p2.match_score,
        p1.mismatch_penalty == p2.mismatch_penalty,
        p1.gap_open_penalty == p2.gap_open_penalty,
        p1.gap_extend_penalty == p2.gap_extend_penalty,
    ensures
        detect_spec(obs, motif, p1) == detect_spec(obs, motif, p2),
{
}

/// Helper for the gap-free case: with no substitution or insertion steps and
/// an empty starting buffer, nothing is ever flushed or buffered.
pub proof fn lemma_no_interruption_steps(path: Seq<AlignStep>, obs: Seq<u8>)
    requires
        forall|k: int| 0 <= k < path.len() ==> !is_interruption_op((#[trigger] path[k]).op),
    ensures
        runs_during(path, obs, Seq::empty()) == Seq::<Seq<u8>>::empty(),
        buf_after(path, obs, Seq::empty()) == Seq::<u8>::empty(),
    decreases path.len(),
{
    if path.len() > 0 {
        assert(!is_interruption_op(path[0].op));
        lemma_no_interruption_steps(path.drop_first(), obs);
    }
}

/// An observed sequence that aligns as a pure, gap-free tiling of the motif
/// — a path of matches only — yields an empty interruption list.
pub proof fn lemma_pure_alignment_no_interruptions(path: Seq<AlignStep>, obs: Seq<u8>)
    requires
        forall|k: int| 0 <= k < path.len() ==> (#[trigger] path[k]).op == AlignOp::Match,
    ensures
        interruptions_of(path, obs) == Seq::<Seq<u8>>::empty(),
{
    lemma_no_interruption_steps(path, obs);
}

/// The observed bytes consumed by a sequence of steps, in order.
pub open spec fn consumed_bytes(steps: Seq<AlignStep>, obs: Seq<u8>) -> Seq<u8> {
    steps.map_values(|st: AlignStep| step_byte(obs, st))
}

/// Helper: an all-interruption stretch flushes nothing and extends the
/// buffer with exactly the observed bytes it consumes.
pub proof fn lemma_all_interruption_steps(tail: Seq<AlignStep>, obs: Seq<u8>, cur: Seq<u8>)
    requires
        forall|k: int| 0 <= k < tail.len() ==> is_interruption_op((#[trigger] tail[k]).op),
    ensures
        runs_during(tail, obs, cur) == Seq::<Seq<u8>>::empty(),
        buf_after(tail, obs, cur) == cur + consumed_bytes(tail, obs),
    decreases tail.len(),
{
    if tail.len() == 0 {
        assert(consumed_bytes(tail, obs) =~= Seq::<u8>::empty());
        assert(cur + consumed_bytes(tail, obs) =~= cur);
    } else {
        assert(is_interruption_op(tail[0].op));
        lemma_all_interruption_steps(tail.drop_first(), obs, cur.push(step_byte(obs, tail[0])));
        assert(consumed_bytes(tail.drop_first(), obs) =~= consumed_bytes(tail, obs).drop_first());
        assert(cur.push(step_byte(obs, tail[0])) + consumed_bytes(tail.drop_first(), obs) =~= cur
            + consumed_bytes(tail, obs));
    }
}

/// An alignment path whose final operations are substitutions or insertions
/// — one that ends mid-interruption — still emits that trailing run: its
/// interruptions are those of the flushed front part, plus one final
/// interruption holding exactly the observed bytes the tail consumes.
pub proof fn lemma_trailing_run_emitted(path: Seq<AlignStep>, tail: Seq<AlignStep>, obs: Seq<u8>)
    requires
        tail.len() > 0,
        forall|k: int| 0 <= k < tail.len() ==> is_interruption_op((#[trigger] tail[k]).op),
        buf_after(path, obs, Seq::empty()) == Seq::<u8>::empty(),
    ensures
        interruptions_of(path + tail, obs) == interruptions_of(path, obs).push(
            consumed_bytes(tail, obs),
        ),
{
    lemma_runs_concat(path, tail, obs, Seq::empty());
    lemma_all_interruption_steps(tail, obs, Seq::empty());
    assert(consumed_bytes(tail, obs).len() == tail.len());
    assert(buf_after(path + tail, obs, Seq::empty()) == Seq::<u8>::empty() + consumed_bytes(
        tail,
        obs,
    ));
    assert(Seq::<u8>::empty() + consumed_bytes(tail, obs) =~= consumed_bytes(tail, obs));
    assert(runs_during(path + tail, obs, Seq::empty()) =~= runs_during(path, obs, Seq::empty()));
    assert(interruptions_of(path + tail, obs) =~= interruptions_of(path, obs).push(
        consumed_bytes(tail, obs),
    ));
}

} // verus!
