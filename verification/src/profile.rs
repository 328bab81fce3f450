//! Per-sample profile: read counts and interruption occurrence counts per
//! locus, built incrementally while scanning one sample's reads, and
//! persisted as a tab-separated table with one row per catalog locus.

use vstd::prelude::*;
use vstd::string::StringSliceAdditionalSpecFns;
use crate::StrifError;
use crate::catalog::{Catalog, lookup_entry};
use crate::utils::AlignmentScoreParams;
use crate::align::{detect_spec, detect_interruptions, pure_seq_len, pure_tile_count, PURE_SEQ_PAD};
use crate::bytesutil::{dec_of, bytes_eq, push_dec_u64};
use crate::codec::{encode_triple_spec, TAB, NEWLINE, COMMA};

verus! {

/// A read count for one locus.
pub struct ReadCount {
    pub locus_id: Vec<u8>,
    pub count: u64,
}

/// An occurrence count for one (locus, interruption, observed length) key.
pub struct InterruptionCount {
    pub locus_id: Vec<u8>,
    pub interruption: Vec<u8>,
    pub repeat_len: u32,
    pub count: u64,
}

/// One observed read handed over by the extractor: a locus identifier and
/// the raw repeat-region bytes.
pub struct ReadRow {
    pub locus_id: Vec<u8>,
    pub seq: Vec<u8>,
}

/// Count of `s` capped at the largest representable value.
pub open spec fn cap64(n: nat) -> u64 {
    if n > u64::MAX {
        u64::MAX
    } else {
        n as u64
    }
}

/// One more than `o`, counted from a missing entry and saturating at the
/// largest representable value.
pub open spec fn bump(o: Option<u64>) -> u64 {
    match o {
        None => 1,
        Some(v) => if v == u64::MAX {
            u64::MAX
        } else {
            (v + 1) as u64
        },
    }
}

pub open spec fn rc_lookup(s: Seq<ReadCount>, id: Seq<u8>) -> Option<u64>
    decreases s.len(),
{
    if s.len() == 0 {
        None
    } else if s[0].locus_id@ == id {
        Some(s[0].count)
    } else {
        rc_lookup(s.drop_first(), id)
    }
}

pub open spec fn ic_key_is(e: InterruptionCount, id: Seq<u8>, intr: Seq<u8>, rlen: u32) -> bool {
    e.locus_id@ == id && e.interruption@ == intr && e.repeat_len == rlen
}

pub open spec fn ic_lookup(s: Seq<InterruptionCount>, id: Seq<u8>, intr: Seq<u8>, rlen: u32) -> Option<
    u64,
>
    decreases s.len(),
{
    if s.len() == 0 {
        None
    } else if ic_key_is(s[0], id, intr, rlen) {
        Some(s[0].count)
    } else {
        ic_lookup(s.drop_first(), id, intr, rlen)
    }
}

/// No two read-count entries share a locus.
pub open spec fn rc_unique(s: Seq<ReadCount>) -> bool {
    forall|i: int, j: int|
        0 <= i < j < s.len() ==> (#[trigger] s[i]).locus_id@ != (#[trigger] s[j]).locus_id@
}

/// No two interruption-count entries share a (locus, interruption,
/// observed length) key.
pub open spec fn ic_unique(s: Seq<InterruptionCount>) -> bool {
    forall|i: int, j: int|
        0 <= i < j < s.len() ==> !((#[trigger] s[i]).locus_id@ == (#[trigger] s[j]).locus_id@ && s[
            i
        ].interruption@ == s[j].interruption@ && s[i].repeat_len == s[j].repeat_len)
}

/// A per-sample profile under construction: a read count per locus and an
/// occurrence count per (locus, interruption, observed length).
pub struct Profile {
    pub read_counts: Vec<ReadCount>,
    pub interruption_counts: Vec<InterruptionCount>,
}

pub proof fn lemma_rc_lookup_push(s: Seq<ReadCount>, e: ReadCount, id: Seq<u8>)
    ensures
        rc_lookup(s.push(e), id) == if rc_lookup(s, id) is Some {
            rc_lookup(s, id)
        } else if e.locus_id@ == id {
            Some(e.count)
        } else {
            None
        },
    decreases s.len(),
{
    if s.len() == 0 {
        assert(s.push(e)[0] == e);
        assert(s.push(e).drop_first() =~= Seq::<ReadCount>::empty());
        assert(rc_lookup(Seq::<ReadCount>::empty(), id) is None);
        assert(rc_lookup(s, id) is None);
        assert(s.push(e).len() == 1);
    } else {
        assert(s.push(e)[0] == s[0]);
        assert(s.push(e).drop_first() =~= s.drop_first().push(e));
        lemma_rc_lookup_push(s.drop_first(), e, id);
    }
}

pub proof fn lemma_rc_lookup_update(s: Seq<ReadCount>, k: int, e: ReadCount, id: Seq<u8>)
    requires
        0 <= k < s.len(),
        s[k].locus_id@ == e.locus_id@,
        forall|j: int| 0 <= j < k ==> (#[trigger] s[j]).locus_id@ != e.locus_id@,
    ensures
        rc_lookup(s.update(k, e), e.locus_id@) == Some(e.count),
        id != e.locus_id@ ==> rc_lookup(s.update(k, e), id) == rc_lookup(s, id),
    decreases k,
{
    let t = s.update(k, e);
    if k == 0 {
        assert(t[0] == e);
        assert(t.drop_first() =~= s.drop_first());
    } else {
        assert(t[0] == s[0]);
        assert(t.drop_first() =~= s.drop_first().update(k - 1, e));
        assert forall|j: int| 0 <= j < k - 1 implies (
        #[trigger] s.drop_first()[j]).locus_id@ != e.locus_id@ by {
            assert(s.drop_first()[j] == s[j + 1]);
        }
        lemma_rc_lookup_update(s.drop_first(), k - 1, e, id);
    }
}

pub proof fn lemma_ic_lookup_push(
    s: Seq<InterruptionCount>,
    e: InterruptionCount,
    id: Seq<u8>,
    intr: Seq<u8>,
    rlen: u32,
)
    ensures
        ic_lookup(s.push(e), id, intr, rlen) == if ic_lookup(s, id, intr, rlen) is Some {
            ic_lookup(s, id, intr, rlen)
        } else if ic_key_is(e, id, intr, rlen) {
            Some(e.count)
        } else {
            None
        },
    decreases s.len(),
{
    if s.len() == 0 {
        assert(s.push(e)[0] == e);
        assert(s.push(e).drop_first() =~= Seq::<InterruptionCount>::empty());
        assert(ic_lookup(Seq::<InterruptionCount>::empty(), id, intr, rlen) is None);
        assert(ic_lookup(s, id, intr, rlen) is None);
        assert(s.push(e).len() == 1);
    } else {
        assert(s.push(e)[0] == s[0]);
        assert(s.push(e).drop_first() =~= s.drop_first().push(e));
        lemma_ic_lookup_push(s.drop_first(), e, id, intr, rlen);
    }
}

pub proof fn lemma_ic_lookup_update(
    s: Seq<InterruptionCount>,
    k: int,
    e: InterruptionCount,
    id: Seq<u8>,
    intr: Seq<u8>,
    rlen: u32,
)
    requires
        0 <= k < s.len(),
        ic_key_is(s[k], e.locus_id@, e.interruption@, e.repeat_len),
        forall|j: int|
            0 <= j < k ==> !ic_key_is(#[trigger] s[j], e.locus_id@, e.interruption@, e.repeat_len),
    ensures
        ic_lookup(s.update(k, e), e.locus_id@, e.interruption@, e.repeat_len) == Some(e.count),
        !ic_key_is(e, id, intr, rlen) ==> ic_lookup(s.update(k, e), id, intr, rlen) == ic_lookup(
            s,
            id,
            intr,
            rlen,
        ),
    decreases k,
{
    let t = s.update(k, e);
    if k == 0 {
        assert(t[0] == e);
        assert(t.drop_first() =~= s.drop_first());
    } else {
        assert(t[0] == s[0]);
        assert(t.drop_first() =~= s.drop_first().update(k - 1, e));
        assert forall|j: int| 0 <= j < k - 1 implies !ic_key_is(
            #[trigger] s.drop_first()[j],
            e.locus_id@,
            e.interruption@,
            e.repeat_len,
        ) by {
            assert(s.drop_first()[j] == s[j + 1]);
        }
        lemma_ic_lookup_update(s.drop_first(), k - 1, e, id, intr, rlen);
    }
}

impl Profile {
    pub fn new() -> (r: Profile)
        ensures
            r.read_counts@.len() == 0,
            r.interruption_counts@.len() == 0,
    {
        Profile { read_counts: Vec::new(), interruption_counts: Vec::new() }
    }

    /// Increment the read count of `locus_id` by one, creating the entry at
    /// one if absent; saturates at the largest representable count.
    pub fn increment_read_count(&mut self, locus_id: &Vec<u8>)
        requires
            rc_unique(old(self).read_counts@),
        ensures
            rc_unique(final(self).read_counts@),
            rc_lookup(final(self).read_counts@, locus_id@) == Some(
                bump(rc_lookup(old(self).read_counts@, locus_id@)),
            ),
            forall|id: Seq<u8>|
                id != locus_id@ ==> rc_lookup(final(self).read_counts@, id) == rc_lookup(
                    old(self).read_counts@,
                    id,
                ),
            final(self).interruption_counts@ == old(self).interruption_counts@,
            forall|j: int|
                0 <= j < final(self).read_counts@.len() ==> (
                #[trigger] final(self).read_counts@[j]).locus_id@ == locus_id@ || old(
                    self,
                ).read_counts@.contains(final(self).read_counts@[j]),
    {
        let ghost olds = self.read_counts@;
        let n = self.read_counts.len();
        let mut i: usize = 0;
        proof {
            assert(olds.skip(0) =~= olds);
        }
        while i < n
            invariant
                i <= n == self.read_counts@.len(),
                self.read_counts@ == olds,
                olds == old(self).read_counts@,
                rc_unique(olds),
                self.interruption_counts@ == old(self).interruption_counts@,
                forall|j: int| 0 <= j < i ==> (#[trigger] olds[j]).locus_id@ != locus_id@,
                rc_lookup(olds, locus_id@) == rc_lookup(olds.skip(i as int), locus_id@),
            decreases n - i,
        {
            proof {
                assert(olds.skip(i as int)[0] == olds[i as int]);
                assert(olds.skip(i as int).drop_first() =~= olds.skip(i as int + 1));
            }
            if bytes_eq(&self.read_counts[i].locus_id, locus_id) {
                let c = self.read_counts[i].count;
                let newc: u64 = if c == u64::MAX {
                    c
                } else {
                    c + 1
                };
                let e = ReadCount { locus_id: self.read_counts[i].locus_id.clone(), count: newc };
                proof {
                    assert(rc_lookup(olds, locus_id@) == Some(c));
                    lemma_rc_lookup_update(olds, i as int, e, locus_id@);
                    assert forall|id: Seq<u8>| id != locus_id@ implies rc_lookup(
                        olds.update(i as int, e),
                        id,
                    ) == rc_lookup(olds, id) by {
                        lemma_rc_lookup_update(olds, i as int, e, id);
                    }
                }
                self.read_counts[i] = e;
                proof {
                    assert(self.read_counts@ =~= olds.update(i as int, e));
                    assert(e.locus_id@ == olds[i as int].locus_id@);
                    assert forall|a: int, b: int|
                        0 <= a < b < self.read_counts@.len() implies (
                    #[trigger] self.read_counts@[a]).locus_id@ != (
                    #[trigger] self.read_counts@[b]).locus_id@ by {
                        assert(olds[a].locus_id@ != olds[b].locus_id@);
                        if a != i {
                            assert(self.read_counts@[a] == olds[a]);
                        }
                        if b != i {
                            assert(self.read_counts@[b] == olds[b]);
                        }
                    }
                    assert forall|j: int|
                        0 <= j < self.read_counts@.len() implies (
                    #[trigger] self.read_counts@[j]).locus_id@ == locus_id@ || olds.contains(
                        self.read_counts@[j],
                    ) by {
                        if j != i {
                            assert(self.read_counts@[j] == olds[j]);
                        }
                    }
                }
                return ;
            }
            i += 1;
        }
        let e = ReadCount { locus_id: locus_id.clone(), count: 1 };
        proof {
            assert(rc_lookup(olds, locus_id@) is None);
            lemma_rc_lookup_push(olds, e, locus_id@);
            assert forall|id: Seq<u8>| id != locus_id@ implies rc_lookup(olds.push(e), id)
                == rc_lookup(olds, id) by {
                lemma_rc_lookup_push(olds, e, id);
            }
        }
        self.read_counts.push(e);
        proof {
            assert(self.read_counts@.drop_last() =~= olds);
            assert forall|a: int, b: int|
                0 <= a < b < self.read_counts@.len() implies (
            #[trigger] self.read_counts@[a]).locus_id@ != (
            #[trigger] self.read_counts@[b]).locus_id@ by {
                if b < olds.len() {
                    assert(self.read_counts@[a] == olds[a] && self.read_counts@[b] == olds[b]);
                } else {
                    assert(self.read_counts@[a] == olds[a]);
                    assert(self.read_counts@[b].locus_id@ == locus_id@);
                }
            }
            assert forall|j: int|
                0 <= j < self.read_counts@.len() implies (
            #[trigger] self.read_counts@[j]).locus_id@ == locus_id@ || olds.contains(
                self.read_counts@[j],
            ) by {
                if j < olds.len() {
                    assert(self.read_counts@[j] == olds[j]);
                }
            }
        }
    }

    /// Increment the occurrence count of `(interruption, repeat_len)` under
    /// `locus_id` by one, inserting a fresh one if absent; saturates at the
    /// largest representable count.
    pub fn increment_interruption(&mut self, locus_id: &Vec<u8>, interruption: &Vec<u8>, repeat_len: u32)
        requires
            ic_unique(old(self).interruption_counts@),
        ensures
            ic_unique(final(self).interruption_counts@),
            ic_lookup(final(self).interruption_counts@, locus_id@, interruption@, repeat_len)
                == Some(
                bump(
                    ic_lookup(
                        old(self).interruption_counts@,
                        locus_id@,
                        interruption@,
                        repeat_len,
                    ),
                ),
            ),
            forall|id: Seq<u8>, intr: Seq<u8>, rl: u32|
                !(id == locus_id@ && intr == interruption@ && rl == repeat_len) ==> #[trigger] ic_lookup(
                    final(self).interruption_counts@,
                    id,
                    intr,
                    rl,
                ) == ic_lookup(old(self).interruption_counts@, id, intr, rl),
            final(self).read_counts@ == old(self).read_counts@,
            forall|j: int|
                0 <= j < final(self).interruption_counts@.len() ==> (
                #[trigger] final(self).interruption_counts@[j]).locus_id@ == locus_id@ || old(
                    self,
                ).interruption_counts@.contains(final(self).interruption_counts@[j]),
    {
        let ghost olds = self.interruption_counts@;
        let n = self.interruption_counts.len();
        let mut i: usize = 0;
        proof {
            assert(olds.skip(0) =~= olds);
        }
        while i < n
            invariant
                i <= n == self.interruption_counts@.len(),
                self.interruption_counts@ == olds,
                olds == old(self).interruption_counts@,
                ic_unique(olds),
                self.read_counts@ == old(self).read_counts@,
                forall|j: int|
                    0 <= j < i ==> !ic_key_is(
                        #[trigger] olds[j],
                        locus_id@,
                        interruption@,
                        repeat_len,
                    ),
                ic_lookup(olds, locus_id@, interruption@, repeat_len) == ic_lookup(
                    olds.skip(i as int),
                    locus_id@,
                    interruption@,
                    repeat_len,
                ),
            decreases n - i,
        {
            proof {
                assert(olds.skip(i as int)[0] == olds[i as int]);
                assert(olds.skip(i as int).drop_first() =~= olds.skip(i as int + 1));
            }
            if bytes_eq(&self.interruption_counts[i].locus_id, locus_id) && bytes_eq(
                &self.interruption_counts[i].interruption,
                interruption,
            ) && self.interruption_counts[i].repeat_len == repeat_len {
                let c = self.interruption_counts[i].count;
                let newc: u64 = if c == u64::MAX {
                    c
                } else {
                    c + 1
                };
                let e = InterruptionCount {
                    locus_id: self.interruption_counts[i].locus_id.clone(),
                    interruption: self.interruption_counts[i].interruption.clone(),
                    repeat_len,
                    count: newc,
                };
                proof {
                    assert(ic_lookup(olds, locus_id@, interruption@, repeat_len) == Some(c));
                    lemma_ic_lookup_update(
                        olds,
                        i as int,
                        e,
                        locus_id@,
                        interruption@,
                        repeat_len,
                    );
                    assert forall|id: Seq<u8>, intr: Seq<u8>, rl: u32|
                        !(id == locus_id@ && intr == interruption@ && rl
                            == repeat_len) implies #[trigger] ic_lookup(
                        olds.update(i as int, e),
                        id,
                        intr,
                        rl,
                    ) == ic_lookup(olds, id, intr, rl) by {
                        lemma_ic_lookup_update(olds, i as int, e, id, intr, rl);
                    }
                }
                self.interruption_counts[i] = e;
                proof {
                    assert(self.interruption_counts@ =~= olds.update(i as int, e));
                    assert(e.locus_id@ == olds[i as int].locus_id@ && e.interruption@ == olds[
                        i as int
                    ].interruption@ && e.repeat_len == olds[i as int].repeat_len);
                    assert forall|a: int, b: int|
                        0 <= a < b < self.interruption_counts@.len() implies !((
                    #[trigger] self.interruption_counts@[a]).locus_id@ == (
                    #[trigger] self.interruption_counts@[b]).locus_id@
                        && self.interruption_counts@[a].interruption@
                        == self.interruption_counts@[b].interruption@
                        && self.interruption_counts@[a].repeat_len
                        == self.interruption_counts@[b].repeat_len) by {
                        assert(!(olds[a].locus_id@ == olds[b].locus_id@ && olds[a].interruption@
                            == olds[b].interruption@ && olds[a].repeat_len
                            == olds[b].repeat_len));
                        if a != i {
                            assert(self.interruption_counts@[a] == olds[a]);
                        }
                        if b != i {
                            assert(self.interruption_counts@[b] == olds[b]);
                        }
                    }
                    assert forall|j: int|
                        0 <= j < self.interruption_counts@.len() implies (
                    #[trigger] self.interruption_counts@[j]).locus_id@ == locus_id@
                        || olds.contains(self.interruption_counts@[j]) by {
                        if j != i {
                            assert(self.interruption_counts@[j] == olds[j]);
                        }
                    }
                }
                return ;
            }
            i += 1;
        }
        let e = InterruptionCount {
            locus_id: locus_id.clone(),
            interruption: interruption.clone(),
            repeat_len,
            count: 1,
        };
        proof {
            assert(ic_lookup(olds, locus_id@, interruption@, repeat_len) is None);
            lemma_ic_lookup_push(olds, e, locus_id@, interruption@, repeat_len);
            assert forall|id: Seq<u8>, intr: Seq<u8>, rl: u32|
                !(id == locus_id@ && intr == interruption@ && rl
                    == repeat_len) implies #[trigger] ic_lookup(olds.push(e), id, intr, rl)
                == ic_lookup(olds, id, intr, rl) by {
                lemma_ic_lookup_push(olds, e, id, intr, rl);
            }
        }
        self.interruption_counts.push(e);
        proof {
            assert(self.interruption_counts@.drop_last() =~= olds);
            assert forall|a: int, b: int|
                0 <= a < b < self.interruption_counts@.len() implies !((
            #[trigger] self.interruption_counts@[a]).locus_id@ == (
            #[trigger] self.interruption_counts@[b]).locus_id@
                && self.interruption_counts@[a].interruption@
                == self.interruption_counts@[b].interruption@
                && self.interruption_counts@[a].repeat_len
                == self.interruption_counts@[b].repeat_len) by {
                if b < olds.len() {
                    assert(self.interruption_counts@[a] == olds[a]
                        && self.interruption_counts@[b] == olds[b]);
                } else {
                    assert(self.interruption_counts@[a] == olds[a]);
                    assert(self.interruption_counts@[b].locus_id@ == locus_id@
                        && self.interruption_counts@[b].interruption@ == interruption@
                        && self.interruption_counts@[b].repeat_len == repeat_len);
                }
            }
            assert forall|j: int|
                0 <= j < self.interruption_counts@.len() implies (
            #[trigger] self.interruption_counts@[j]).locus_id@ == locus_id@ || olds.contains(
                self.interruption_counts@[j],
            ) by {
                if j < olds.len() {
                    assert(self.interruption_counts@[j] == olds[j]);
                }
            }
        }
    }

    /// The read count recorded for `id`, zero when absent.
    pub fn get_read_count(&self, id: &Vec<u8>) -> (r: u64)
        ensures
            r == match rc_lookup(self.read_counts@, id@) {
                Some(v) => v,
                None => 0u64,
            },
    {
        let n = self.read_counts.len();
        let mut i: usize = 0;
        proof {
            assert(self.read_counts@.skip(0) =~= self.read_counts@);
        }
        while i < n
            invariant
                i <= n == self.read_counts@.len(),
                rc_lookup(self.read_counts@, id@) == rc_lookup(
                    self.read_counts@.skip(i as int),
                    id@,
                ),
            decreases n - i,
        {
            proof {
                assert(self.read_counts@.skip(i as int)[0] == self.read_counts@[i as int]);
                assert(self.read_counts@.skip(i as int).drop_first() =~= self.read_counts@.skip(
                    i as int + 1,
                ));
            }
            if bytes_eq(&self.read_counts[i].locus_id, id) {
                return self.read_counts[i].count;
            }
            i += 1;
        }
        0
    }
}

/// The encoded triples of the interruption entries recorded for `id`, in
/// insertion order.
pub open spec fn locus_triples(s: Seq<InterruptionCount>, id: Seq<u8>) -> Seq<Seq<u8>>
    decreases s.len(),
{
    if s.len() == 0 {
        Seq::empty()
    } else {
        let rest = locus_triples(s.drop_first(), id);
        if s[0].locus_id@ == id {
            seq![encode_triple_spec(s[0].interruption@, s[0].repeat_len, s[0].count)] + rest
        } else {
            rest
        }
    }
}

/// The header line of a per-sample profile table.
pub open spec fn profile_header_spec() -> Seq<u8> {
    "locus_id\treference_region\tmotif\tread_count\tinterruption_counts\n".spec_bytes()
}

/// One profile table row: the locus, its reference region and motif, its
/// read count, and the comma-joined interruption triples.
pub open spec fn profile_line_spec(e: crate::catalog::CatalogEntry, p: Profile) -> Seq<u8> {
    let count = match rc_lookup(p.read_counts@, e.locus_id@) {
        Some(v) => v,
        None => 0u64,
    };
    e.locus_id@ + seq![TAB] + e.reference_region@ + seq![TAB] + e.motif@ + seq![TAB] + dec_of(
        count as nat,
    ) + seq![TAB] + crate::bytesutil::join_with(
        locus_triples(p.interruption_counts@, e.locus_id@),
        COMMA,
    ) + seq![NEWLINE]
}

/// The data rows of a profile table, one per catalog entry, in catalog
/// order.
pub open spec fn profile_rows_spec(entries: Seq<crate::catalog::CatalogEntry>, p: Profile) -> Seq<
    u8,
>
    decreases entries.len(),
{
    if entries.len() == 0 {
        Seq::empty()
    } else {
        profile_rows_spec(entries.drop_last(), p) + profile_line_spec(entries.last(), p)
    }
}

/// Append the whole slice to `out`.
pub fn append_slice(out: &mut Vec<u8>, s: &[u8])
    ensures
        final(out)@ == old(out)@ + s@,
{
    let n = s.len();
    let mut k: usize = 0;
    while k < n
        invariant
            k <= n == s@.len(),
            out@ == old(out)@ + s@.take(k as int),
        decreases n - k,
    {
        let b = s[k];
        out.push(b);
        k += 1;
        assert(out@ =~= old(out)@ + s@.take(k as int));
    }
    assert(s@.take(s@.len() as int) =~= s@);
}

impl Profile {
    /// Serialize this profile as a tab-separated table appended to `out`:
    /// the header row, then one row per catalog locus in catalog order,
    /// loci with no observed reads included with a zero count and an empty
    /// interruption cell.
    pub fn write_to(&self, out: &mut Vec<u8>, catalog: &Catalog)
        ensures
            final(out)@ == old(out)@ + profile_header_spec() + profile_rows_spec(
                catalog.entries@,
                *self,
            ),
    {
        append_slice(out, "locus_id\treference_region\tmotif\tread_count\tinterruption_counts\n".as_bytes());
        let n = catalog.entries.len();
        let mut i: usize = 0;
        proof {
            assert(catalog.entries@.take(0) =~= Seq::<crate::catalog::CatalogEntry>::empty());
            assert(out@ =~= old(out)@ + profile_header_spec() + profile_rows_spec(
                catalog.entries@.take(0),
                *self,
            ));
        }
        while i < n
            invariant
                i <= n == catalog.entries@.len(),
                out@ == old(out)@ + profile_header_spec() + profile_rows_spec(
                    catalog.entries@.take(i as int),
                    *self,
                ),
            decreases n - i,
        {
            let e = &catalog.entries[i];
            append_slice(out, e.locus_id.as_slice());
            out.push(TAB);
            append_slice(out, e.reference_region.as_slice());
            out.push(TAB);
            append_slice(out, e.motif.as_slice());
            out.push(TAB);
            let count = self.get_read_count(&e.locus_id);
            push_dec_u64(out, count);
            out.push(TAB);
            let parts = self.locus_cell_parts(&e.locus_id);
            crate::bytesutil::join_into(out, &parts, COMMA);
            out.push(NEWLINE);
            proof {
                assert(catalog.entries@.take(i as int + 1).drop_last() =~= catalog.entries@.take(
                    i as int,
                ));
                assert(catalog.entries@.take(i as int + 1).last() == catalog.entries@[i as int]);
                assert(out@ =~= old(out)@ + profile_header_spec() + profile_rows_spec(
                    catalog.entries@.take(i as int + 1),
                    *self,
                ));
            }
            i += 1;
        }
        proof {
            assert(catalog.entries@.take(n as int) =~= catalog.entries@);
        }
    }

    /// The encoded interruption triples recorded for `id`, in insertion
    /// order, ready to be comma-joined into the table cell.
    fn locus_cell_parts(&self, id: &Vec<u8>) -> (r: Vec<Vec<u8>>)
        ensures
            r@.map_values(|v: Vec<u8>| v@) == locus_triples(self.interruption_counts@, id@),
    {
        let ghost full = locus_triples(self.interruption_counts@, id@);
        let mut r: Vec<Vec<u8>> = Vec::new();
        let n = self.interruption_counts.len();
        let mut i: usize = 0;
        proof {
            assert(self.interruption_counts@.skip(0) =~= self.interruption_counts@);
            assert(r@.map_values(|v: Vec<u8>| v@) =~= Seq::<Seq<u8>>::empty());
        }
        while i < n
            invariant
                i <= n == self.interruption_counts@.len(),
                full == locus_triples(self.interruption_counts@, id@),
                full == r@.map_values(|v: Vec<u8>| v@) + locus_triples(
                    self.interruption_counts@.skip(i as int),
                    id@,
                ),
            decreases n - i,
        {
            proof {
                assert(self.interruption_counts@.skip(i as int)[0]
                    == self.interruption_counts@[i as int]);
                assert(self.interruption_counts@.skip(i as int).drop_first()
                    =~= self.interruption_counts@.skip(i as int + 1));
            }
            let e = &self.interruption_counts[i];
            if bytes_eq(&e.locus_id, id) {
                let mut part: Vec<u8> = Vec::new();
                crate::codec::encode_triple_into(&mut part, &e.interruption, e.repeat_len, e.count);
                let ghost old_r = r@;
                r.push(part);
                proof {
                    assert(r@.map_values(|v: Vec<u8>| v@) =~= old_r.map_values(
                        |v: Vec<u8>| v@,
                    ).push(r@[old_r.len() as int]@));
                    assert(full =~= r@.map_values(|v: Vec<u8>| v@) + locus_triples(
                        self.interruption_counts@.skip(i as int + 1),
                        id@,
                    ));
                }
            }
            i += 1;
        }
        proof {
            assert(locus_triples(self.interruption_counts@.skip(n as int), id@) =~= Seq::<
                Seq<u8>,
            >::empty());
            assert(full =~= r@.map_values(|v: Vec<u8>| v@));
        }
        r
    }
}

/// Whether a read's locus is known to the catalog (unknown loci are skipped
/// silently).
pub open spec fn row_qualifies(cat: Catalog, r: ReadRow) -> bool {
    lookup_entry(cat.entries@, r.locus_id@) is Some
}

/// A qualifying read on which profiling cannot proceed: its catalog motif
/// is empty, the tiled reference would exceed the addressable length, or
/// the alignment would be too large for its scores to stay representable.
pub open spec fn row_bad(cat: Catalog, params: AlignmentScoreParams, r: ReadRow) -> bool {
    row_qualifies(cat, r) && {
        let m = (lookup_entry(cat.entries@, r.locus_id@)->0).motif@;
        ||| m.len() == 0
        ||| pure_seq_len(m.len(), r.seq@.len(), PURE_SEQ_PAD as nat) > usize::MAX
        ||| (r.seq@.len() + pure_seq_len(m.len(), r.seq@.len(), PURE_SEQ_PAD as nat) + 2)
            * crate::align::max_param(params) > i32::MAX
    }
}

/// Number of qualifying reads of `rows` at locus `id`.
pub open spec fn rc_fold(rows: Seq<ReadRow>, cat: Catalog, id: Seq<u8>) -> nat
    decreases rows.len(),
{
    if rows.len() == 0 {
        0
    } else {
        rc_fold(rows.drop_last(), cat, id) + if row_qualifies(cat, rows.last())
            && rows.last().locus_id@ == id {
            1nat
        } else {
            0nat
        }
    }
}

/// Number of occurrences of `x` in `list`.
pub open spec fn occ_count(list: Seq<Seq<u8>>, x: Seq<u8>) -> nat
    decreases list.len(),
{
    if list.len() == 0 {
        0
    } else {
        occ_count(list.drop_last(), x) + if list.last() == x {
            1nat
        } else {
            0nat
        }
    }
}

/// The interruption list detected for one qualifying read.
pub open spec fn row_interruptions(cat: Catalog, params: AlignmentScoreParams, r: ReadRow) -> Seq<
    Seq<u8>,
> {
    detect_spec(r.seq@, (lookup_entry(cat.entries@, r.locus_id@)->0).motif@, params)
}

/// Total occurrences of interruption `intr` at observed length `rlen` under
/// locus `id` over all qualifying reads of `rows`.
pub open spec fn ic_fold(
    rows: Seq<ReadRow>,
    cat: Catalog,
    params: AlignmentScoreParams,
    id: Seq<u8>,
    intr: Seq<u8>,
    rlen: u32,
) -> nat
    decreases rows.len(),
{
    if rows.len() == 0 {
        0
    } else {
        ic_fold(rows.drop_last(), cat, params, id, intr, rlen) + {
            let r = rows.last();
            if row_qualifies(cat, r) && r.locus_id@ == id && r.seq@.len() == rlen {
                occ_count(row_interruptions(cat, params, r), intr)
            } else {
                0nat
            }
        }
    }
}

/// A count as an optional stored value: absent when zero, else capped.
pub open spec fn count_opt(n: nat) -> Option<u64> {
    if n == 0 {
        None
    } else {
        Some(cap64(n))
    }
}

pub proof fn lemma_bump_cap(n: nat)
    ensures
        bump(count_opt(n)) == cap64(n + 1),
{
}

/// Profile one sample's reads against the catalog: for each read whose
/// locus the catalog knows, count the read and tally every detected
/// interruption under (locus, interruption, observed length).  Reads at
/// unknown loci are skipped.  Fails exactly when some qualifying read has
/// an empty catalog motif or needs an unrepresentably long reference.
pub fn profile(rows: &Vec<ReadRow>, catalog: &Catalog, params: &AlignmentScoreParams) -> (r:
    Result<Profile, StrifError>)
    requires
        catalog.wf(),
        crate::align::params_bounded(*params),
        forall|k: int| 0 <= k < rows@.len() ==> (#[trigger] rows@[k]).seq@.len() <= u32::MAX,
    ensures
        r is Ok <==> (forall|k: int|
            0 <= k < rows@.len() ==> !row_bad(*catalog, *params, #[trigger] rows@[k])),
        r matches Err(e) ==> (e == StrifError::EmptyMotif || e == StrifError::PureSeqTooLong
            || e == StrifError::AlignmentTooLarge),
        r matches Ok(p) ==> rc_unique(p.read_counts@) && ic_unique(p.interruption_counts@),
        r matches Ok(p) ==> forall|id: Seq<u8>|
            #[trigger] rc_lookup(p.read_counts@, id) == count_opt(rc_fold(rows@, *catalog, id)),
        r matches Ok(p) ==> forall|id: Seq<u8>, intr: Seq<u8>, rlen: u32|
            #[trigger] ic_lookup(p.interruption_counts@, id, intr, rlen) == count_opt(
                ic_fold(rows@, *catalog, *params, id, intr, rlen),
            ),
        r matches Ok(p) ==> forall|j: int|
            0 <= j < p.read_counts@.len() ==> lookup_entry(
                catalog.entries@,
                (#[trigger] p.read_counts@[j]).locus_id@,
            ) is Some,
        r matches Ok(p) ==> forall|j: int|
            0 <= j < p.interruption_counts@.len() ==> lookup_entry(
                catalog.entries@,
                (#[trigger] p.interruption_counts@[j]).locus_id@,
            ) is Some,
{
    let mut p = Profile::new();
    let n = rows.len();
    let mut i: usize = 0;
    proof {
        assert(rows@.take(0) =~= Seq::<ReadRow>::empty());
    }
    while i < n
        invariant
            i <= n == rows@.len(),
            catalog.wf(),
            crate::align::params_bounded(*params),
            forall|k: int| 0 <= k < rows@.len() ==> (#[trigger] rows@[k]).seq@.len() <= u32::MAX,
            forall|k: int| 0 <= k < i ==> !row_bad(*catalog, *params, #[trigger] rows@[k]),
            rc_unique(p.read_counts@),
            ic_unique(p.interruption_counts@),
            forall|id: Seq<u8>|
                #[trigger] rc_lookup(p.read_counts@, id) == count_opt(
                    rc_fold(rows@.take(i as int), *catalog, id),
                ),
            forall|id: Seq<u8>, intr: Seq<u8>, rlen: u32|
                #[trigger] ic_lookup(p.interruption_counts@, id, intr, rlen) == count_opt(
                    ic_fold(rows@.take(i as int), *catalog, *params, id, intr, rlen),
                ),
            forall|j: int|
                0 <= j < p.read_counts@.len() ==> lookup_entry(
                    catalog.entries@,
                    (#[trigger] p.read_counts@[j]).locus_id@,
                ) is Some,
            forall|j: int|
                0 <= j < p.interruption_counts@.len() ==> lookup_entry(
                    catalog.entries@,
                    (#[trigger] p.interruption_counts@[j]).locus_id@,
                ) is Some,
        decreases n - i,
    {
        proof {
            assert(rows@.take(i as int + 1).drop_last() =~= rows@.take(i as int));
            assert(rows@.take(i as int + 1).last() == rows@[i as int]);
        }
        let row = &rows[i];
        let entry_opt = catalog.lookup(&row.locus_id);
        match entry_opt {
            None => {
                proof {
                    assert(!row_qualifies(*catalog, rows@[i as int]));
                    assert(!row_bad(*catalog, *params, rows@[i as int]));
                    assert forall|id: Seq<u8>| #[trigger] rc_lookup(p.read_counts@, id)
                        == count_opt(rc_fold(rows@.take(i as int + 1), *catalog, id)) by {
                        assert(rc_fold(rows@.take(i as int + 1), *catalog, id) == rc_fold(
                            rows@.take(i as int),
                            *catalog,
                            id,
                        ));
                    }
                    assert forall|id: Seq<u8>, intr: Seq<u8>, rlen: u32| #[trigger] ic_lookup(
                        p.interruption_counts@,
                        id,
                        intr,
                        rlen,
                    ) == count_opt(
                        ic_fold(rows@.take(i as int + 1), *catalog, *params, id, intr, rlen),
                    ) by {
                        assert(ic_fold(rows@.take(i as int + 1), *catalog, *params, id, intr, rlen)
                            == ic_fold(rows@.take(i as int), *catalog, *params, id, intr, rlen));
                    }
                }
            },
            Some(entry) => {
                let m = entry.motif.len();
                if m == 0 {
                    proof {
                        assert(row_bad(*catalog, *params, rows@[i as int]));
                    }
                    return Err(StrifError::EmptyMotif);
                }
                let len = row.seq.len();
                let t = len / m;
                if t > usize::MAX - 1 - PURE_SEQ_PAD || t + 1 + PURE_SEQ_PAD > usize::MAX / m {
                    proof {
                        let nt = pure_tile_count(m as nat, len as nat, PURE_SEQ_PAD as nat);
                        assert(nt == t + 1 + PURE_SEQ_PAD || t > usize::MAX - 1 - PURE_SEQ_PAD);
                        if t <= usize::MAX - 1 - PURE_SEQ_PAD {
                            assert(nt * m > usize::MAX) by (nonlinear_arith)
                                requires
                                    nt == t + 1 + PURE_SEQ_PAD,
                                    nt > usize::MAX / m,
                                    m >= 1,
                            ;
                        } else {
                            assert(nt >= t);
                            assert(nt * m >= nt) by (nonlinear_arith)
                                requires
                                    m >= 1 && nt >= 0,
                            ;
                        }
                        assert(row_bad(*catalog, *params, rows@[i as int]));
                    }
                    return Err(StrifError::PureSeqTooLong);
                }
                proof {
                    let nt = pure_tile_count(m as nat, len as nat, PURE_SEQ_PAD as nat);
                    assert(nt * m <= usize::MAX) by (nonlinear_arith)
                        requires
                            nt <= usize::MAX / m,
                            m >= 1,
                    ;
                }
                let n = len / m + 1 + PURE_SEQ_PAD;
                let a = if params.match_score >= params.mismatch_penalty {
                    params.match_score
                } else {
                    params.mismatch_penalty
                };
                let b = if params.gap_open_penalty >= params.gap_extend_penalty {
                    params.gap_open_penalty
                } else {
                    params.gap_extend_penalty
                };
                let maxp: i32 = if a >= b {
                    a
                } else {
                    b
                };
                proof {
                    assert(maxp as int == crate::align::max_param(*params));
                    assert((n as u128) * (m as u128) <= 0x10000000000000000u128)
                        by (nonlinear_arith)
                        requires
                            0 <= n as int <= 0xffffffffffffffffu128,
                            0 <= m as int <= 0xffffffffffffffffu128,
                            (n as int) * (m as int) <= 0xffffffffffffffffu128,
                    ;
                }
                let cells: u128 = (len as u128) + (n as u128) * (m as u128) + 2;
                proof {
                    assert(cells * (maxp as u128) <= u128::MAX) by (nonlinear_arith)
                        requires
                            cells <= 0x20000000000000002u128,
                            0 <= (maxp as u128) <= 0x100000,
                    ;
                }
                if cells * (maxp as u128) > i32::MAX as u128 {
                    proof {
                        assert((n as u128) * (m as u128) == pure_seq_len(
                            m as nat,
                            len as nat,
                            PURE_SEQ_PAD as nat,
                        )) by (nonlinear_arith)
                            requires
                                n == pure_tile_count(m as nat, len as nat, PURE_SEQ_PAD as nat),
                                (n as u128) * (m as u128) == n * m,
                        ;
                        assert(row_bad(*catalog, *params, rows@[i as int]));
                    }
                    return Err(StrifError::AlignmentTooLarge);
                }
                proof {
                    assert((len + pure_seq_len(m as nat, len as nat, PURE_SEQ_PAD as nat) + 2)
                        * crate::align::max_param(*params) <= i32::MAX) by (nonlinear_arith)
                        requires
                            cells == len + pure_seq_len(
                                m as nat,
                                len as nat,
                                PURE_SEQ_PAD as nat,
                            ) + 2,
                            cells * (maxp as u128) <= i32::MAX,
                            maxp as int == crate::align::max_param(*params),
                    ;
                    assert(!row_bad(*catalog, *params, rows@[i as int]));
                }
                let ints = detect_interruptions(&row.seq, &entry.motif, params);
                let ghost ints_v = row_interruptions(*catalog, *params, rows@[i as int]);
                proof {
                    assert(ints@.map_values(|v: Vec<u8>| v@) == ints_v);
                }
                let ghost rc_before = p.read_counts@;
                p.increment_read_count(&row.locus_id);
                proof {
                    let rid = rows@[i as int].locus_id@;
                    lemma_bump_cap(rc_fold(rows@.take(i as int), *catalog, rid));
                    assert forall|id: Seq<u8>| #[trigger] rc_lookup(p.read_counts@, id)
                        == count_opt(rc_fold(rows@.take(i as int + 1), *catalog, id)) by {
                        if id == rid {
                            assert(rc_fold(rows@.take(i as int + 1), *catalog, id) == rc_fold(
                                rows@.take(i as int),
                                *catalog,
                                id,
                            ) + 1);
                        } else {
                            assert(rc_fold(rows@.take(i as int + 1), *catalog, id) == rc_fold(
                                rows@.take(i as int),
                                *catalog,
                                id,
                            ));
                        }
                    }
                    assert forall|j: int|
                        0 <= j < p.read_counts@.len() implies lookup_entry(
                        catalog.entries@,
                        (#[trigger] p.read_counts@[j]).locus_id@,
                    ) is Some by {
                        if p.read_counts@[j].locus_id@ != rid {
                            assert(rc_before.contains(p.read_counts@[j]));
                            let w = choose|w: int|
                                0 <= w < rc_before.len() && rc_before[w] == p.read_counts@[j];
                            assert(lookup_entry(catalog.entries@, rc_before[w].locus_id@) is Some);
                        }
                    }
                }
                let rlen32: u32 = row.seq.len() as u32;
                let mut k: usize = 0;
                proof {
                    assert(ints_v.take(0) =~= Seq::<Seq<u8>>::empty());
                }
                while k < ints.len()
                    invariant
                        k <= ints@.len(),
                        i < rows@.len(),
                        *row == rows@[i as int],
                        catalog.wf(),
                        ints@.map_values(|v: Vec<u8>| v@) == ints_v,
                        ints_v == row_interruptions(*catalog, *params, rows@[i as int]),
                        row_qualifies(*catalog, rows@[i as int]),
                        rlen32 == rows@[i as int].seq@.len(),
                        rc_unique(p.read_counts@),
                        ic_unique(p.interruption_counts@),
                        forall|id: Seq<u8>, intr: Seq<u8>, rlen: u32|
                            #[trigger] ic_lookup(p.interruption_counts@, id, intr, rlen)
                                == count_opt(
                                ic_fold(rows@.take(i as int), *catalog, *params, id, intr, rlen)
                                    + if id == rows@[i as int].locus_id@ && rlen == rlen32 {
                                    occ_count(ints_v.take(k as int), intr)
                                } else {
                                    0nat
                                },
                            ),
                        forall|j: int|
                            0 <= j < p.interruption_counts@.len() ==> lookup_entry(
                                catalog.entries@,
                                (#[trigger] p.interruption_counts@[j]).locus_id@,
                            ) is Some,
                        p.read_counts@.len() > 0 ==> p.read_counts@.len() > 0,
                        forall|id: Seq<u8>|
                            #[trigger] rc_lookup(p.read_counts@, id) == count_opt(
                                rc_fold(rows@.take(i as int + 1), *catalog, id),
                            ),
                        forall|j: int|
                            0 <= j < p.read_counts@.len() ==> lookup_entry(
                                catalog.entries@,
                                (#[trigger] p.read_counts@[j]).locus_id@,
                            ) is Some,
                    decreases ints@.len() - k,
                {
                    proof {
                        assert(ints_v.take(k as int + 1).drop_last() =~= ints_v.take(k as int));
                        assert(ints_v.take(k as int + 1).last() == ints_v[k as int]);
                        assert(ints@[k as int]@ == ints_v[k as int]);
                    }
                    let ghost ic_before = p.interruption_counts@;
                    p.increment_interruption(&row.locus_id, &ints[k], rlen32);
                    proof {
                        let rid = rows@[i as int].locus_id@;
                        let cur = ints_v[k as int];
                        lemma_bump_cap(
                            ic_fold(rows@.take(i as int), *catalog, *params, rid, cur, rlen32)
                                + occ_count(ints_v.take(k as int), cur),
                        );
                        assert forall|id: Seq<u8>, intr: Seq<u8>, rlen: u32| #[trigger] ic_lookup(
                            p.interruption_counts@,
                            id,
                            intr,
                            rlen,
                        ) == count_opt(
                            ic_fold(rows@.take(i as int), *catalog, *params, id, intr, rlen)
                                + if id == rid && rlen == rlen32 {
                                occ_count(ints_v.take(k as int + 1), intr)
                            } else {
                                0nat
                            },
                        ) by {
                            let base = ic_fold(
                                rows@.take(i as int),
                                *catalog,
                                *params,
                                id,
                                intr,
                                rlen,
                            );
                            if id == rid && rlen == rlen32 {
                                if intr == cur {
                                    assert(occ_count(ints_v.take(k as int + 1), intr) == occ_count(
                                        ints_v.take(k as int),
                                        intr,
                                    ) + 1);
                                    assert(ic_lookup(ic_before, id, intr, rlen) == count_opt(
                                        base + occ_count(ints_v.take(k as int), intr),
                                    ));
                                    assert(ic_lookup(p.interruption_counts@, id, intr, rlen)
                                        == Some(bump(ic_lookup(ic_before, id, intr, rlen))));
                                    assert(bump(
                                        count_opt(base + occ_count(ints_v.take(k as int), intr)),
                                    ) == cap64(
                                        base + occ_count(ints_v.take(k as int), intr) + 1,
                                    ));
                                } else {
                                    assert(occ_count(ints_v.take(k as int + 1), intr) == occ_count(
                                        ints_v.take(k as int),
                                        intr,
                                    ));
                                    assert(ic_lookup(p.interruption_counts@, id, intr, rlen)
                                        == ic_lookup(ic_before, id, intr, rlen));
                                }
                            } else {
                                assert(ic_lookup(p.interruption_counts@, id, intr, rlen)
                                    == ic_lookup(ic_before, id, intr, rlen));
                            }
                        }
                        assert forall|j: int|
                            0 <= j < p.interruption_counts@.len() implies lookup_entry(
                            catalog.entries@,
                            (#[trigger] p.interruption_counts@[j]).locus_id@,
                        ) is Some by {
                            if p.interruption_counts@[j].locus_id@ != rid {
                                assert(ic_before.contains(p.interruption_counts@[j]));
                                let w = choose|w: int|
                                    0 <= w < ic_before.len() && ic_before[w]
                                        == p.interruption_counts@[j];
                                assert(lookup_entry(
                                    catalog.entries@,
                                    ic_before[w].locus_id@,
                                ) is Some);
                            }
                        }
                    }
                    k += 1;
                }
                proof {
                    assert(ints_v.take(ints@.len() as int) =~= ints_v);
                    assert forall|id: Seq<u8>, intr: Seq<u8>, rlen: u32| #[trigger] ic_lookup(
                        p.interruption_counts@,
                        id,
                        intr,
                        rlen,
                    ) == count_opt(
                        ic_fold(rows@.take(i as int + 1), *catalog, *params, id, intr, rlen),
                    ) by {
                        if id == rows@[i as int].locus_id@ && rlen == rlen32 {
                            assert(ic_fold(
                                rows@.take(i as int + 1),
                                *catalog,
                                *params,
                                id,
                                intr,
                                rlen,
                            ) == ic_fold(rows@.take(i as int), *catalog, *params, id, intr, rlen)
                                + occ_count(ints_v, intr));
                        } else {
                            assert(ic_fold(
                                rows@.take(i as int + 1),
                                *catalog,
                                *params,
                                id,
                                intr,
                                rlen,
                            ) == ic_fold(rows@.take(i as int), *catalog, *params, id, intr, rlen));
                        }
                    }
                }
            },
        }
        i += 1;
    }
    proof {
        assert(rows@.take(n as int) =~= rows@);
    }
    Ok(p)
}

/// A human-readable rendering of one read's alignment against its pure
/// reference, for the diagnostic alignments output.  Both sequences must
/// be ASCII: the renderer's display arithmetic breaks on wider bytes.
pub fn render_alignment(observed: &Vec<u8>, motif: &Vec<u8>, params: &AlignmentScoreParams) -> (r:
    String)
    requires
        motif@.len() > 0,
        pure_seq_len(motif@.len(), observed@.len(), PURE_SEQ_PAD as nat) <= usize::MAX,
        crate::align::params_bounded(*params),
        (observed@.len() + pure_seq_len(motif@.len(), observed@.len(), PURE_SEQ_PAD as nat) + 2)
            * crate::align::max_param(*params) <= i32::MAX,
        forall|k: int| 0 <= k < observed@.len() ==> #[trigger] observed@[k] < 0x80,
        forall|k: int| 0 <= k < motif@.len() ==> #[trigger] motif@[k] < 0x80,
    ensures
        r@ == crate::align::pretty_of(
            observed@,
            crate::align::pure_seq_spec(motif@, observed@.len(), PURE_SEQ_PAD as nat),
            params.match_score as int,
            params.mismatch_penalty as int,
            params.gap_open_penalty as int,
            params.gap_extend_penalty as int,
        ),
{
    let pure = crate::align::create_pure_seq(motif, observed.len(), PURE_SEQ_PAD);
    proof {
        assert forall|k: int| 0 <= k < pure@.len() implies #[trigger] pure@[k] < 0x80 by {
            assert(pure@[k] == motif@[k % (motif@.len() as int)]);
        }
    }
    crate::align::semiglobal_pretty(observed, &pure, params)
}

/// Parse the extractor's two-column table: no header; each non-empty line
/// holds at least a locus identifier and an observed sequence.
pub fn parse_reads_table(bytes: &Vec<u8>) -> (r: Result<Vec<ReadRow>, StrifError>)
    ensures
        ({
            let lines = crate::bytesutil::split_on(bytes@, NEWLINE);
            &&& r is Ok <==> crate::merge::lines_ok_min(lines, 2)
            &&& r matches Err(e) ==> e == StrifError::MalformedRow
            &&& r matches Ok(v) ==> {
                let rows = crate::merge::profile_rows_of(lines);
                v@.len() == rows.len() && forall|j: int|
                    0 <= j < v@.len() ==> (#[trigger] v@[j]).locus_id@ == rows[j][0]
                        && v@[j].seq@ == rows[j][1]
            }
        }),
{
    let all_lines = crate::bytesutil::split_bytes(bytes, NEWLINE);
    let ghost lines = crate::bytesutil::split_on(bytes@, NEWLINE);
    let mut out: Vec<ReadRow> = Vec::new();
    let mut i: usize = 0;
    while i < all_lines.len()
        invariant
            i <= all_lines@.len(),
            all_lines@.len() == lines.len(),
            forall|j: int| 0 <= j < all_lines@.len() ==> (#[trigger] all_lines@[j])@ == lines[j],
            lines == crate::bytesutil::split_on(bytes@, NEWLINE),
            crate::merge::lines_ok_min(lines.take(i as int), 2),
            out@.len() == crate::merge::profile_rows_of(lines.take(i as int)).len(),
            forall|j: int|
                0 <= j < out@.len() ==> {
                    let rows = crate::merge::profile_rows_of(lines.take(i as int));
                    (#[trigger] out@[j]).locus_id@ == rows[j][0] && out@[j].seq@ == rows[j][1]
                },
        decreases all_lines@.len() - i,
    {
        proof {
            crate::merge::lemma_rows_take_step(lines, i as int);
            crate::merge::lemma_lines_min_take_step(lines, i as int, 2);
        }
        if all_lines[i].len() > 0 {
            let mut fields = crate::bytesutil::split_bytes(&all_lines[i], TAB);
            if fields.len() < 2 {
                proof {
                    crate::merge::lemma_lines_min_concat(lines, i as int, 2);
                    assert(lines.skip(i as int)[0] == lines[i as int]);
                    assert(!crate::merge::lines_ok_min(lines.skip(i as int), 2));
                }
                return Err(StrifError::MalformedRow);
            }
            let locus_id = fields.remove(0);
            let seq = fields.remove(0);
            proof {
                let fs = crate::bytesutil::split_on(lines[i as int], TAB);
                assert(locus_id@ == fs[0] && seq@ == fs[1]);
            }
            out.push(ReadRow { locus_id, seq });
        }
        i += 1;
    }
    proof {
        assert(lines.take(all_lines@.len() as int) =~= lines);
    }
    Ok(out)
}

} // verus!
