//! Byte-sequence utilities: separator splitting and joining, and decimal
//! encoding and parsing of unsigned integers.  These are the wire-format
//! primitives that the profile and merged-profile tables are built from.

use vstd::prelude::*;

verus! {

/// Position of the first occurrence of `sep` in `s`, or `s.len()` if absent.
pub open spec fn first_sep(s: Seq<u8>, sep: u8) -> nat
    decreases s.len(),
{
    if s.len() == 0 {
        0
    } else if s[0] == sep {
        0
    } else {
        1 + first_sep(s.drop_first(), sep)
    }
}

/// The segments of `s` between occurrences of `sep`.  Splitting never yields
/// an empty list: a string with no separator is one segment.
pub open spec fn split_on(s: Seq<u8>, sep: u8) -> Seq<Seq<u8>>
    decreases s.len(),
{
    let i = first_sep(s, sep);
    if i >= s.len() {
        seq![s]
    } else {
        seq![s.take(i as int)] + split_on(s.skip(i as int + 1), sep)
    }
}

/// The segments of `parts` joined with single `sep` bytes in between.
pub open spec fn join_with(parts: Seq<Seq<u8>>, sep: u8) -> Seq<u8>
    decreases parts.len(),
{
    if parts.len() == 0 {
        Seq::empty()
    } else if parts.len() == 1 {
        parts[0]
    } else {
        parts[0] + seq![sep] + join_with(parts.drop_first(), sep)
    }
}

pub proof fn lemma_first_sep_bounds(s: Seq<u8>, sep: u8)
    ensures
        first_sep(s, sep) <= s.len(),
        first_sep(s, sep) < s.len() ==> s[first_sep(s, sep) as int] == sep,
        forall|j: int| 0 <= j < first_sep(s, sep) ==> s[j] != sep,
    decreases s.len(),
{
    if s.len() > 0 && s[0] != sep {
        lemma_first_sep_bounds(s.drop_first(), sep);
        assert forall|j: int| 0 <= j < first_sep(s, sep) implies s[j] != sep by {
            if j > 0 {
                assert(s.drop_first()[j - 1] != sep);
                assert(s.drop_first()[j - 1] == s[j]);
            }
        }
    }
}

/// The first separator is exactly at `k` when no earlier byte is one.
pub proof fn lemma_first_sep_at(s: Seq<u8>, sep: u8, k: nat)
    requires
        k <= s.len(),
        forall|j: int| 0 <= j < k ==> s[j] != sep,
        k < s.len() ==> s[k as int] == sep,
    ensures
        first_sep(s, sep) == k,
    decreases k,
{
    if k == 0 {
        if s.len() > 0 && s[0] != sep {
            lemma_first_sep_bounds(s.drop_first(), sep);
            assert(first_sep(s, sep) == 1 + first_sep(s.drop_first(), sep));
            assert(s[first_sep(s, sep) as int] == sep || first_sep(s, sep) >= s.len());
            assert(false);
        }
    } else {
        assert(s[0] != sep);
        assert(forall|j: int| 0 <= j < k - 1 ==> s.drop_first()[j] == s[j + 1] && s[j + 1] != sep);
        lemma_first_sep_at(s.drop_first(), sep, (k - 1) as nat);
    }
}

/// Splitting yields at least one segment, and no segment contains `sep`.
pub proof fn lemma_split_parts(s: Seq<u8>, sep: u8)
    ensures
        split_on(s, sep).len() > 0,
        forall|j: int|
            0 <= j < split_on(s, sep).len() ==> !(#[trigger] split_on(s, sep)[j]).contains(sep),
    decreases s.len(),
{
    let i = first_sep(s, sep);
    lemma_first_sep_bounds(s, sep);
    if i < s.len() {
        lemma_split_parts(s.skip(i as int + 1), sep);
        let head = s.take(i as int);
        assert forall|b: int| 0 <= b < head.len() implies head[b] != sep by {
            assert(s[b] != sep);
        }
        assert(!head.contains(sep));
        assert(split_on(s, sep) == seq![head] + split_on(s.skip(i as int + 1), sep));
    } else {
        assert(!s.contains(sep)) by {
            if s.contains(sep) {
                let w = choose|w: int| 0 <= w < s.len() && s[w] == sep;
                assert(s[w] != sep);
            }
        }
    }
}

/// Joining the segments of a split restores the original bytes.
pub proof fn lemma_join_split(s: Seq<u8>, sep: u8)
    ensures
        join_with(split_on(s, sep), sep) == s,
    decreases s.len(),
{
    let i = first_sep(s, sep);
    lemma_first_sep_bounds(s, sep);
    if i >= s.len() {
        assert(join_with(seq![s], sep) == s);
    } else {
        lemma_join_split(s.skip(i as int + 1), sep);
        lemma_split_parts(s.skip(i as int + 1), sep);
        let parts = seq![s.take(i as int)] + split_on(s.skip(i as int + 1), sep);
        assert(split_on(s, sep) == parts);
        assert(parts.drop_first() == split_on(s.skip(i as int + 1), sep));
        assert(join_with(parts, sep) == s.take(i as int) + seq![sep] + s.skip(i as int + 1));
        assert(s.take(i as int) + seq![sep] + s.skip(i as int + 1) =~= s);
    }
}

/// Splitting a join restores the original segments, provided no segment
/// contains the separator.
pub proof fn lemma_split_join(parts: Seq<Seq<u8>>, sep: u8)
    requires
        parts.len() > 0,
        forall|j: int| 0 <= j < parts.len() ==> !(#[trigger] parts[j]).contains(sep),
    ensures
        split_on(join_with(parts, sep), sep) == parts,
    decreases parts.len(),
{
    let s = join_with(parts, sep);
    let head = parts[0];
    assert forall|b: int| 0 <= b < head.len() implies head[b] != sep by {
        assert(head.contains(sep) <== exists|w: int| 0 <= w < head.len() && head[w] == sep);
    }
    if parts.len() == 1 {
        assert(s == head);
        lemma_first_sep_at(s, sep, s.len());
        assert(split_on(s, sep) =~= parts);
    } else {
        let rest = join_with(parts.drop_first(), sep);
        assert(s == head + seq![sep] + rest);
        assert forall|j: int| 0 <= j < head.len() implies s[j] != sep by {
            assert(s[j] == head[j]);
        }
        assert(s[head.len() as int] == sep);
        lemma_first_sep_at(s, sep, head.len());
        assert(s.take(head.len() as int) =~= head);
        assert(s.skip(head.len() as int + 1) =~= rest);
        lemma_split_join(parts.drop_first(), sep);
        assert(split_on(s, sep) == seq![head] + split_on(rest, sep));
        assert(seq![head] + parts.drop_first() =~= parts);
    }
}

/// Byte-wise equality of two vectors, usable where contracts speak of views.
pub fn bytes_eq(a: &Vec<u8>, b: &Vec<u8>) -> (r: bool)
    ensures
        r == (a@ == b@),
{
    if a.len() != b.len() {
        assert(a@ != b@);
        return false;
    }
    let mut i: usize = 0;
    while i < a.len()
        invariant
            i <= a.len(),
            a.len() == b.len(),
            forall|j: int| 0 <= j < i ==> a@[j] == b@[j],
        decreases a.len() - i,
    {
        if a[i] != b[i] {
            return false;
        }
        i += 1;
    }
    assert(a@ =~= b@);
    true
}

/// Copy of the byte range `[from, to)` of `s`.
pub fn sub_bytes(s: &Vec<u8>, from: usize, to: usize) -> (r: Vec<u8>)
    requires
        from <= to <= s@.len(),
    ensures
        r@ == s@.subrange(from as int, to as int),
{
    let mut r: Vec<u8> = Vec::new();
    let mut i: usize = from;
    while i < to
        invariant
            from <= i <= to <= s@.len(),
            r@ == s@.subrange(from as int, i as int),
        decreases to - i,
    {
        r.push(s[i]);
        i += 1;
        assert(r@ =~= s@.subrange(from as int, i as int));
    }
    r
}

/// Split `s` at every occurrence of `sep`.
pub fn split_bytes(s: &Vec<u8>, sep: u8) -> (r: Vec<Vec<u8>>)
    ensures
        r@.len() == split_on(s@, sep).len(),
        forall|j: int| 0 <= j < r@.len() ==> r@[j]@ == split_on(s@, sep)[j],
{
    let ghost full = split_on(s@, sep);
    let mut r: Vec<Vec<u8>> = Vec::new();
    let mut seg_start: usize = 0;
    let mut i: usize = 0;
    proof {
        assert(s@.skip(0) =~= s@);
        assert(r@.map_values(|v: Vec<u8>| v@) =~= Seq::<Seq<u8>>::empty());
        assert(full =~= r@.map_values(|v: Vec<u8>| v@) + split_on(s@.skip(0), sep));
    }
    while i < s.len()
        invariant
            seg_start <= i <= s@.len(),
            forall|j: int| seg_start <= j < i ==> s@[j] != sep,
            full == split_on(s@, sep),
            full.len() >= r@.len(),
            full =~= r@.map_values(|v: Vec<u8>| v@) + split_on(s@.skip(seg_start as int), sep),
        decreases s@.len() - i,
    {
        if s[i] == sep {
            let part = sub_bytes(s, seg_start, i);
            proof {
                let tail = s@.skip(seg_start as int);
                assert forall|j: int| 0 <= j < i - seg_start implies tail[j] != sep by {
                    assert(tail[j] == s@[seg_start + j]);
                }
                assert(tail[(i - seg_start) as int] == sep);
                lemma_first_sep_at(tail, sep, (i - seg_start) as nat);
                assert(tail.take((i - seg_start) as int) =~= s@.subrange(
                    seg_start as int,
                    i as int,
                ));
                assert(tail.skip((i - seg_start) + 1) =~= s@.skip(i + 1));
                assert(split_on(tail, sep) == seq![part@] + split_on(s@.skip(i + 1), sep));
            }
            r.push(part);
            proof {
                assert(r@.map_values(|v: Vec<u8>| v@) =~= r@.map_values(|v: Vec<u8>| v@));
                assert(full =~= r@.map_values(|v: Vec<u8>| v@) + split_on(s@.skip(i + 1), sep));
            }
            seg_start = i + 1;
        }
        i += 1;
    }
    let last = sub_bytes(s, seg_start, s.len());
    proof {
        let tail = s@.skip(seg_start as int);
        assert forall|j: int| 0 <= j < tail.len() implies tail[j] != sep by {
            assert(tail[j] == s@[seg_start + j]);
        }
        lemma_first_sep_at(tail, sep, tail.len() as nat);
        assert(split_on(tail, sep) == seq![tail]);
        assert(tail =~= s@.subrange(seg_start as int, s@.len() as int));
    }
    r.push(last);
    proof {
        let m = r@.map_values(|v: Vec<u8>| v@);
        assert(full =~= m);
        assert forall|j: int| 0 <= j < r@.len() implies r@[j]@ == split_on(s@, sep)[j] by {
            assert(m[j] == r@[j]@);
        }
    }
    r
}

/// Append the segments of `parts` to `out`, separated by single `sep` bytes.
pub fn join_into(out: &mut Vec<u8>, parts: &Vec<Vec<u8>>, sep: u8)
    ensures
        final(out)@ == old(out)@ + join_with(parts@.map_values(|v: Vec<u8>| v@), sep),
{
    let ghost views = parts@.map_values(|v: Vec<u8>| v@);
    let ghost base = out@;
    let mut i: usize = 0;
    while i < parts.len()
        invariant
            i <= parts@.len(),
            views == parts@.map_values(|v: Vec<u8>| v@),
            out@ == base + join_with(views.take(i as int), sep),
        decreases parts@.len() - i,
    {
        if i > 0 {
            out.push(sep);
        }
        let mut k: usize = 0;
        let ghost mid = out@;
        while k < parts[i].len()
            invariant
                i < parts@.len(),
                k <= parts@[i as int]@.len(),
                out@ == mid + parts@[i as int]@.take(k as int),
            decreases parts@[i as int]@.len() - k,
        {
            let b = parts[i][k];
            out.push(b);
            k += 1;
            assert(out@ =~= mid + parts@[i as int]@.take(k as int));
        }
        proof {
            assert(parts@[i as int]@.take(parts@[i as int]@.len() as int) =~= views[i as int]);
            lemma_join_take_step(views, sep, i as int);
        }
        i += 1;
    }
    assert(views.take(parts@.len() as int) =~= views);
}

/// Unfolding step for a join built left to right.
pub proof fn lemma_join_take_step(views: Seq<Seq<u8>>, sep: u8, i: int)
    requires
        0 <= i < views.len(),
    ensures
        join_with(views.take(i + 1), sep) == if i == 0 {
            views[0]
        } else {
            join_with(views.take(i), sep) + seq![sep] + views[i]
        },
    decreases i,
{
    if i == 0 {
        assert(views.take(1) =~= seq![views[0]]);
        assert(join_with(seq![views[0]], sep) == views[0]);
    } else {
        lemma_join_take_tail(views.take(i + 1), sep);
        assert(views.take(i + 1).drop_last() =~= views.take(i));
        assert(views.take(i + 1).last() == views[i]);
    }
}

/// A join of two or more segments ends with its last segment.
pub proof fn lemma_join_take_tail(views: Seq<Seq<u8>>, sep: u8)
    requires
        views.len() >= 2,
    ensures
        join_with(views, sep) == join_with(views.drop_last(), sep) + seq![sep] + views.last(),
    decreases views.len(),
{
    if views.len() == 2 {
        assert(views.drop_first().len() == 1);
        assert(views.drop_last() =~= seq![views[0]]);
        assert(join_with(views.drop_last(), sep) == views[0]);
        assert(views.drop_first()[0] == views[1]);
        assert(join_with(views.drop_first(), sep) == views[1]);
    } else {
        lemma_join_take_tail(views.drop_first(), sep);
        assert(views.drop_first().drop_last() =~= views.drop_last().drop_first());
        assert(views.drop_last().len() >= 2);
        assert(join_with(views.drop_last(), sep) == views.drop_last()[0] + seq![sep] + join_with(
            views.drop_last().drop_first(),
            sep,
        ));
        assert(views.drop_last()[0] == views[0]);
        assert(views.drop_first().last() == views.last());
    }
}

/// Whether every byte of `s` is an ASCII decimal digit and `s` is non-empty.
pub open spec fn is_digits(s: Seq<u8>) -> bool {
    s.len() > 0 && forall|j: int| 0 <= j < s.len() ==> 48 <= #[trigger] s[j] <= 57
}

/// Value of a digit string read in base ten.
pub open spec fn dec_val(s: Seq<u8>) -> nat
    decreases s.len(),
{
    if s.len() == 0 {
        0
    } else {
        dec_val(s.drop_last()) * 10 + (if s.last() >= 48 {
            (s.last() - 48) as nat
        } else {
            0
        })
    }
}

/// Canonical decimal rendering of `n`: no leading zeros, `"0"` for zero.
pub open spec fn dec_of(n: nat) -> Seq<u8>
    decreases n,
{
    if n < 10 {
        seq![(48 + n) as u8]
    } else {
        dec_of(n / 10).push((48 + n % 10) as u8)
    }
}

pub proof fn lemma_dec_of_digits(n: nat)
    ensures
        is_digits(dec_of(n)),
        dec_val(dec_of(n)) == n,
    decreases n,
{
    if n < 10 {
        assert(dec_of(n).drop_last() =~= Seq::<u8>::empty());
        assert(dec_val(dec_of(n)) == dec_val(Seq::<u8>::empty()) * 10 + n);
    } else {
        lemma_dec_of_digits(n / 10);
        assert(dec_of(n).drop_last() =~= dec_of(n / 10));
        assert(dec_val(dec_of(n)) == (n / 10) * 10 + n % 10);
        assert((n / 10) * 10 + n % 10 == n) by (nonlinear_arith);
    }
}

/// A digit string's value only grows as digits are appended.
pub proof fn lemma_dec_val_mono(s: Seq<u8>, i: int)
    requires
        0 <= i <= s.len(),
    ensures
        dec_val(s.take(i)) <= dec_val(s),
    decreases s.len() - i,
{
    if i < s.len() {
        lemma_dec_val_mono(s, i + 1);
        assert(s.take(i + 1).drop_last() =~= s.take(i));
        assert(dec_val(s.take(i + 1)) == dec_val(s.take(i)) * 10 + (if s.take(i + 1).last() >= 48 {
            (s.take(i + 1).last() - 48) as nat
        } else {
            0
        }));
        assert(dec_val(s.take(i)) * 10 >= dec_val(s.take(i))) by (nonlinear_arith);
    } else {
        assert(s.take(i) =~= s);
    }
}

/// Parse a non-empty digit string as a `u64`.  Returns `None` exactly when
/// the bytes are not all digits, the string is empty, or the value does not
/// fit in 64 bits.
pub fn parse_u64_dec(s: &Vec<u8>) -> (r: Option<u64>)
    ensures
        r is Some <==> is_digits(s@) && dec_val(s@) <= u64::MAX,
        r is Some ==> r->0 == dec_val(s@),
{
    if s.len() == 0 {
        return None;
    }
    let mut acc: u64 = 0;
    let mut i: usize = 0;
    while i < s.len()
        invariant
            i <= s@.len(),
            s@.len() > 0,
            forall|j: int| 0 <= j < i ==> 48 <= #[trigger] s@[j] <= 57,
            acc == dec_val(s@.take(i as int)),
        decreases s@.len() - i,
    {
        let b = s[i];
        if b < 48 || b > 57 {
            return None;
        }
        let d: u64 = (b - 48) as u64;
        proof {
            assert(s@.take(i + 1).drop_last() =~= s@.take(i as int));
            assert(dec_val(s@.take(i + 1)) == dec_val(s@.take(i as int)) * 10 + d);
        }
        if acc > (u64::MAX - d) / 10 {
            proof {
                assert(acc * 10 + d > u64::MAX) by (nonlinear_arith)
                    requires
                        acc > (u64::MAX - d) / 10 && d <= 9,
                ;
                if is_digits(s@) {
                    lemma_dec_val_mono(s@, i + 1);
                }
            }
            return None;
        }
        proof {
            assert(acc * 10 + d <= u64::MAX) by (nonlinear_arith)
                requires
                    acc <= (u64::MAX - d) / 10 && d <= 9,
            ;
        }
        acc = acc * 10 + d;
        i += 1;
    }
    assert(s@.take(i as int) =~= s@);
    Some(acc)
}

/// Render `n` in decimal, appending to `out`.
pub fn push_dec_u64(out: &mut Vec<u8>, n: u64)
    ensures
        final(out)@ == old(out)@ + dec_of(n as nat),
    decreases n,
{
    if n < 10 {
        out.push(48 + (n as u8));
    } else {
        push_dec_u64(out, n / 10);
        out.push(48 + ((n % 10) as u8));
        assert(out@ =~= old(out)@ + dec_of(n as nat));
    }
}

} // verus!
