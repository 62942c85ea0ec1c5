//! The mathematical model of the store: how records are framed into segment
//! bytes, how segment bytes parse back into records, and how a record
//! sequence is split across segments by the rotation threshold.

use vstd::prelude::*;
use vstd::arithmetic::div_mod::lemma_fundamental_div_mod;
use vstd::arithmetic::div_mod::lemma_fundamental_div_mod_converse;
use vstd::arithmetic::div_mod::lemma_mod_division_less_than_divisor;
use vstd::arithmetic::mul::lemma_mul_inequality;

use crate::naming::boundary_of;

verus! {

/// The record delimiter: one newline byte terminates every record on disk.
pub const DELIM: u8 = 10;

/// A record the caller may store: it contains no delimiter byte.
pub open spec fn line_free(r: Seq<u8>) -> bool {
    forall|i: int| 0 <= i < r.len() ==> r[i] != DELIM
}

/// Every record in `rs` is delimiter-free.
pub open spec fn all_line_free(rs: Seq<Seq<u8>>) -> bool {
    forall|i: int| 0 <= i < rs.len() ==> line_free(#[trigger] rs[i])
}

/// One record as it stands in a segment: its bytes plus the delimiter.
pub open spec fn frame(r: Seq<u8>) -> Seq<u8> {
    r.push(DELIM)
}

/// A run of records as they stand in a segment: each framed, in order.
pub open spec fn frame_all(rs: Seq<Seq<u8>>) -> Seq<u8>
    decreases rs.len(),
{
    if rs.len() == 0 {
        Seq::empty()
    } else {
        frame(rs.first()) + frame_all(rs.drop_first())
    }
}

/// Framing distributes over concatenation of record runs.
pub proof fn lemma_frame_all_concat(a: Seq<Seq<u8>>, b: Seq<Seq<u8>>)
    ensures
        frame_all(a + b) == frame_all(a) + frame_all(b),
    decreases a.len(),
{
    if a.len() == 0 {
        assert(a + b =~= b);
        assert(frame_all(a) + frame_all(b) =~= frame_all(b));
    } else {
        lemma_frame_all_concat(a.drop_first(), b);
        assert((a + b).drop_first() =~= a.drop_first() + b);
        assert(frame(a.first()) + (frame_all(a.drop_first()) + frame_all(b)) =~= (frame(
            a.first(),
        ) + frame_all(a.drop_first())) + frame_all(b));
    }
}

/// Framing one more record appends its framed bytes.
pub proof fn lemma_frame_all_push(rs: Seq<Seq<u8>>, r: Seq<u8>)
    ensures
        frame_all(rs.push(r)) == frame_all(rs) + frame(r),
{
    lemma_frame_all_concat(rs, seq![r]);
    assert(rs.push(r) =~= rs + seq![r]);
    assert(seq![r].drop_first() =~= Seq::<Seq<u8>>::empty());
    assert(frame_all(seq![r].drop_first()) == Seq::<u8>::empty());
    assert(frame_all(seq![r]) == frame(seq![r].first()) + frame_all(seq![r].drop_first()));
    assert(frame(r) + Seq::<u8>::empty() =~= frame(r));
}

/// The index of the first delimiter byte in `bytes`, or -1 if there is none.
pub open spec fn first_delim(bytes: Seq<u8>) -> int
    decreases bytes.len(),
{
    if bytes.len() == 0 {
        -1
    } else if bytes.first() == DELIM {
        0
    } else {
        let rest = first_delim(bytes.drop_first());
        if rest < 0 {
            -1
        } else {
            1 + rest
        }
    }
}

/// What `first_delim` returns: a nonnegative result is the position of a
/// delimiter with none before it; a negative result means no delimiter at all.
pub proof fn lemma_first_delim_spec(bytes: Seq<u8>)
    ensures
        -1 <= first_delim(bytes) < bytes.len(),
        first_delim(bytes) >= 0 ==> bytes[first_delim(bytes)] == DELIM,
        forall|k: int| 0 <= k < first_delim(bytes) ==> bytes[k] != DELIM,
        first_delim(bytes) < 0 ==> line_free(bytes),
    decreases bytes.len(),
{
    if bytes.len() == 0 {
    } else if bytes.first() == DELIM {
    } else {
        lemma_first_delim_spec(bytes.drop_first());
        assert forall|k: int| 0 <= k < first_delim(bytes) implies bytes[k] != DELIM by {
            if k > 0 {
                assert(bytes[k] == bytes.drop_first()[k - 1]);
            }
        }
        if first_delim(bytes) < 0 {
            assert forall|k: int| 0 <= k < bytes.len() implies bytes[k] != DELIM by {
                if k > 0 {
                    assert(bytes[k] == bytes.drop_first()[k - 1]);
                }
            }
        }
    }
}

/// `first_delim` is pinned by any witness position: a delimiter at `m` with
/// none before it is the first one.
pub proof fn lemma_first_delim_at(bytes: Seq<u8>, m: int)
    requires
        0 <= m < bytes.len(),
        bytes[m] == DELIM,
        forall|k: int| 0 <= k < m ==> bytes[k] != DELIM,
    ensures
        first_delim(bytes) == m,
{
    lemma_first_delim_spec(bytes);
    let i = first_delim(bytes);
    if i < 0 {
        assert(bytes[m] != DELIM);
    } else if i < m {
        assert(bytes[i] != DELIM);
    } else if i > m {
        assert(bytes[m] != DELIM);
    }
}

/// Splits segment bytes into the records they frame: the bytes before each
/// delimiter, in order. `None` if the bytes end in a partial record.
pub open spec fn parse_lines(bytes: Seq<u8>) -> Option<Seq<Seq<u8>>>
    decreases bytes.len(),
{
    if bytes.len() == 0 {
        Some(Seq::empty())
    } else {
        let i = first_delim(bytes);
        if 0 <= i < bytes.len() {
            match parse_lines(bytes.skip(i + 1)) {
                Option::None => Option::None,
                Option::Some(rest) => Option::Some(seq![bytes.take(i)] + rest),
            }
        } else {
            Option::None
        }
    }
}

/// Parsing inverts framing: the framed form of delimiter-free records parses
/// back to exactly those records.
pub proof fn lemma_parse_frame_all(rs: Seq<Seq<u8>>)
    requires
        all_line_free(rs),
    ensures
        parse_lines(frame_all(rs)) == Some(rs),
    decreases rs.len(),
{
    if rs.len() == 0 {
        assert(Seq::<Seq<u8>>::empty() =~= rs);
    } else {
        let r0 = rs.first();
        let bytes = frame_all(rs);
        let m = r0.len() as int;
        assert(line_free(r0));
        assert(bytes[m] == DELIM);
        assert forall|k: int| 0 <= k < m implies bytes[k] != DELIM by {
            assert(bytes[k] == r0[k]);
        }
        lemma_first_delim_at(bytes, m);
        assert(bytes.take(m) =~= r0);
        assert(bytes.skip(m + 1) =~= frame_all(rs.drop_first()));
        assert(all_line_free(rs.drop_first())) by {
            assert forall|i: int| 0 <= i < rs.drop_first().len() implies line_free(
                #[trigger] rs.drop_first()[i],
            ) by {
                assert(rs.drop_first()[i] == rs[i + 1]);
            }
        }
        lemma_parse_frame_all(rs.drop_first());
        assert(seq![r0] + rs.drop_first() =~= rs);
    }
}

/// Reading a segment record by record enumerates its parse: when nonempty
/// bytes parse cleanly, the first read yields the first parsed record, and
/// the bytes after its delimiter parse to the remaining records. With
/// `parse_lines(empty) == Some(empty)`, successive reads of a parsing
/// segment therefore yield exactly its parsed records and then exhaustion.
pub proof fn lemma_parse_step(bytes: Seq<u8>)
    requires
        parse_lines(bytes) is Some,
        bytes.len() > 0,
    ensures
        first_delim(bytes) >= 0,
        parse_lines(bytes)->Some_0.len() > 0,
        parse_lines(bytes)->Some_0.first() == bytes.take(first_delim(bytes)),
        parse_lines(bytes.skip(first_delim(bytes) + 1)) is Some,
        parse_lines(bytes.skip(first_delim(bytes) + 1))->Some_0 == parse_lines(
            bytes,
        )->Some_0.drop_first(),
{
    let i = first_delim(bytes);
    lemma_first_delim_spec(bytes);
    let rest = parse_lines(bytes.skip(i + 1))->Some_0;
    assert((seq![bytes.take(i)] + rest).drop_first() =~= rest);
}

/// Division and remainder facts the rotation bookkeeping rests on.
pub proof fn lemma_div_mod_basics(count: nat, n: nat)
    requires
        n > 0,
    ensures
        count % n < n,
        count / n * n + count % n == count,
        count / n * n <= count,
        boundary_of(count, n) == count / n * n,
        count < n ==> count / n == 0 && count % n == count,
        count % n == 0 ==> count / n * n == count,
        count == n ==> count / n == 1 && count % n == 0,
        count < (count / n + 1) * n,
{
    lemma_fundamental_div_mod(count as int, n as int);
    lemma_mod_division_less_than_divisor(count as int, n as int);
    if count < n {
        lemma_fundamental_div_mod_converse(count as int, n as int, 0, count as int);
    }
    if count == n {
        lemma_fundamental_div_mod_converse(count as int, n as int, 1, 0);
    }
    assert((count / n + 1) * n == count / n * n + n) by (nonlinear_arith);
}

/// Stepping the record count by one crosses a boundary exactly when the new
/// count is a multiple of the threshold, and then the quotient grows by one.
pub proof fn lemma_step_quotient(count: nat, n: nat)
    requires
        n > 0,
    ensures
        (count + 1) % n == 0 ==> (count + 1) / n == count / n + 1,
        (count + 1) % n != 0 ==> (count + 1) / n == count / n,
{
    lemma_fundamental_div_mod(count as int, n as int);
    lemma_mod_division_less_than_divisor(count as int, n as int);
    let q = count as int / n as int;
    let r = count as int % n as int;
    if r + 1 == n {
        assert((q + 1) * n as int == q * n as int + n) by (nonlinear_arith);
        lemma_fundamental_div_mod_converse(count as int + 1, n as int, q + 1, 0);
    } else {
        lemma_fundamental_div_mod_converse(count as int + 1, n as int, q, r + 1);
    }
}

/// The only segment transition writer and reader share: the active boundary
/// stays put until an operation completes the threshold, and then jumps to
/// the new count — exactly once every `n` successful operations.
pub proof fn lemma_boundary_step(count: nat, n: nat)
    requires
        n > 0,
    ensures
        (count + 1) % n == 0 ==> boundary_of(count + 1, n) == count + 1,
        (count + 1) % n != 0 ==> boundary_of(count + 1, n) == boundary_of(count, n),
{
    lemma_div_mod_basics(count, n);
    lemma_div_mod_basics(count + 1, n);
    lemma_step_quotient(count, n);
}

/// For `len >= n`, dropping one full segment's worth of records drops the
/// quotient by exactly one.
pub proof fn lemma_sub_quotient(len: nat, n: nat)
    requires
        0 < n <= len,
    ensures
        len / n >= 1,
        ((len - n) as nat) / n == len / n - 1,
{
    let q = ((len - n) as nat / n) as int;
    let r = ((len - n) as nat % n) as int;
    lemma_fundamental_div_mod((len - n) as int, n as int);
    lemma_mod_division_less_than_divisor((len - n) as int, n as int);
    assert((q + 1) * n as int == q * n as int + n) by (nonlinear_arith);
    lemma_fundamental_div_mod_converse(len as int, n as int, q + 1, r);
}

/// The records that land in segment `i` under rotation threshold `n`: the
/// `n`-sized slice starting at record `i * n`, cut short by the end of `rs`.
pub open spec fn segment_records(rs: Seq<Seq<u8>>, n: nat, i: nat) -> Seq<Seq<u8>>
    recommends
        n > 0,
        i * n <= rs.len(),
{
    let lo = (i * n) as int;
    let hi = if (i + 1) * n <= rs.len() {
        ((i + 1) * n) as int
    } else {
        rs.len() as int
    };
    rs.subrange(lo, hi)
}

/// How many segments exist after `count` records: one per completed boundary
/// plus the active segment (which may hold no records yet).
pub open spec fn num_segments(count: nat, n: nat) -> nat
    recommends
        n > 0,
{
    count / n + 1
}

/// The on-disk image of `rs` under threshold `n`: segment `i` holds its
/// records framed.
pub open spec fn on_disk(rs: Seq<Seq<u8>>, n: nat) -> Seq<Seq<u8>> {
    Seq::new(
        num_segments(rs.len(), n) as nat,
        |i: int| frame_all(segment_records(rs, n, i as nat)),
    )
}

/// A valid segment index selects records that lie inside `rs`.
pub proof fn lemma_segment_bounds(rs: Seq<Seq<u8>>, n: nat, i: nat)
    requires
        n > 0,
        i < num_segments(rs.len(), n),
    ensures
        i * n <= rs.len(),
        i * n <= (i + 1) * n,
        segment_records(rs, n, i).len() <= n,
        forall|j: int|
            0 <= j < segment_records(rs, n, i).len() ==> #[trigger] segment_records(rs, n, i)[j]
                == rs[i * n + j],
{
    lemma_div_mod_basics(rs.len(), n);
    lemma_mul_inequality(i as int, (rs.len() / n) as int, n as int);
    assert((i + 1) * n == i * n + n) by (nonlinear_arith);
}

/// Splitting `rs` at every boundary and reassembling the pieces in order
/// gives back `rs`.
pub proof fn lemma_segments_cover(rs: Seq<Seq<u8>>, n: nat)
    requires
        n > 0,
    ensures
        Seq::new(num_segments(rs.len(), n) as nat, |i: int| segment_records(rs, n, i as nat)).flatten()
            == rs,
    decreases rs.len(),
{
    let len = rs.len();
    let s = Seq::new(num_segments(len, n) as nat, |i: int| segment_records(rs, n, i as nat));
    if len < n {
        lemma_div_mod_basics(len, n);
        assert(s.len() == 1);
        assert(s[0] == segment_records(rs, n, 0));
        assert(s[0] == rs.subrange(0, len as int)) by {
            assert((0 + 1) * n == n) by (nonlinear_arith);
        }
        assert(rs.subrange(0, len as int) =~= rs);
        assert(s.drop_first() =~= Seq::<Seq<Seq<u8>>>::empty());
        assert(s.drop_first().flatten() == Seq::<Seq<u8>>::empty());
        assert(s.flatten() == s.first() + s.drop_first().flatten());
        assert(rs + Seq::<Seq<u8>>::empty() =~= rs);
    } else {
        let tail = rs.skip(n as int);
        lemma_segments_cover(tail, n);
        let t = Seq::new(
            num_segments(tail.len(), n) as nat,
            |i: int| segment_records(tail, n, i as nat),
        );
        lemma_sub_quotient(len, n);
        assert(s.len() == t.len() + 1);
        assert(s[0] == segment_records(rs, n, 0));
        assert(s[0] == rs.subrange(0, n as int)) by {
            assert((0 + 1) * n == n) by (nonlinear_arith);
        }
        assert forall|i: int| 0 <= i < t.len() implies s[i + 1] == t[i] by {
            lemma_segment_bounds(rs, n, (i + 1) as nat);
            lemma_segment_bounds(tail, n, i as nat);
            assert((i + 1) * n as int == i * n as int + n) by (nonlinear_arith);
            assert((i + 2) * n as int == (i + 1) * n as int + n) by (nonlinear_arith);
            assert(segment_records(rs, n, (i + 1) as nat) =~= segment_records(tail, n, i as nat));
        }
        assert(s.drop_first() =~= t);
        assert(s.flatten() == s.first() + s.drop_first().flatten());
        assert(rs.subrange(0, n as int) + tail =~= rs);
    }
}

/// The records each on-disk segment parses back to.
pub open spec fn parsed_segments(rs: Seq<Seq<u8>>, n: nat) -> Seq<Seq<Seq<u8>>> {
    Seq::new(on_disk(rs, n).len(), |i: int| parse_lines(on_disk(rs, n)[i])->Some_0)
}

/// Round trip: after a writer stores `rs` and flushes, every segment of the
/// on-disk image parses cleanly, and the parsed segments, concatenated in
/// segment order, are byte-for-byte the records that were written.
pub proof fn lemma_round_trip(rs: Seq<Seq<u8>>, n: nat)
    requires
        n > 0,
        all_line_free(rs),
    ensures
        forall|i: int|
            0 <= i < on_disk(rs, n).len() ==> parse_lines(#[trigger] on_disk(rs, n)[i]) is Some,
        parsed_segments(rs, n).flatten() == rs,
{
    let segs = Seq::new(num_segments(rs.len(), n) as nat, |i: int| segment_records(rs, n, i as nat));
    assert forall|i: int| 0 <= i < on_disk(rs, n).len() implies parse_lines(
        #[trigger] on_disk(rs, n)[i],
    ) == Some(segs[i]) by {
        lemma_segment_bounds(rs, n, i as nat);
        let seg = segment_records(rs, n, i as nat);
        assert(all_line_free(seg)) by {
            assert forall|j: int| 0 <= j < seg.len() implies line_free(#[trigger] seg[j]) by {
                assert(seg[j] == rs[i * n + j]);
            }
        }
        lemma_parse_frame_all(seg);
    }
    assert(parsed_segments(rs, n) =~= segs);
    lemma_segments_cover(rs, n);
}

} // verus!
