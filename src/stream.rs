use vstd::prelude::*;
use crate::model::SYMBOLS;
use crate::extra_bytes::{
    Packet, CodecState, compress_step, decompress_step, fresh_state, deltas, sums, byte_delta,
    byte_sum, observe_all,
};

verus! {

/// A run of records through one compressor: the state it ends in and the
/// packets, one per record, in order.
pub open spec fn run_compress(st: CodecState, recs: Seq<Seq<u8>>) -> (CodecState, Seq<Packet>)
    decreases recs.len(),
{
    if recs.len() == 0 {
        (st, Seq::empty())
    } else {
        let (mid, ps) = run_compress(st, recs.drop_last());
        let (end, p) = compress_step(mid, recs.last());
        (end, ps.push(p))
    }
}

/// A run of packets through one decompressor: the state it ends in and the
/// records, one per packet, or `None` where some packet does not fit.
pub open spec fn run_decompress(st: CodecState, ps: Seq<Packet>) -> Option<(CodecState, Seq<Seq<u8>>)>
    decreases ps.len(),
{
    if ps.len() == 0 {
        Some((st, Seq::empty()))
    } else {
        match run_decompress(st, ps.drop_last()) {
            None => None,
            Some((mid, rs)) => match decompress_step(mid, ps.last()) {
                None => None,
                Some((end, r)) => Some((end, rs.push(r))),
            },
        }
    }
}

/// All records are `n` bytes wide.
pub open spec fn all_of_width(recs: Seq<Seq<u8>>, n: nat) -> bool {
    forall|k: int| 0 <= k < recs.len() ==> (#[trigger] recs[k]).len() == n
}

/// A state of a codec for `n` slots, each with a table of every symbol.
pub open spec fn state_of_width(st: CodecState, n: nat) -> bool {
    &&& st.lasts.len() == n
    &&& st.models.len() == n
    &&& forall|i: int| 0 <= i < n ==> (#[trigger] st.models[i]).len() == SYMBOLS
}

/// Restoring a byte from its delta against the same previous byte gives it back.
pub proof fn lemma_byte_sum_delta(cur: u8, prev: u8)
    ensures
        byte_sum(prev, byte_delta(cur, prev)) == cur,
{
}

/// One record through a compressor, and its packet through a decompressor
/// in the same state, gives back the record and the same next state.
pub proof fn lemma_step_round_trip(st: CodecState, rec: Seq<u8>)
    requires
        rec.len() == st.lasts.len(),
    ensures
        decompress_step(st, compress_step(st, rec).1) == Some((compress_step(st, rec).0, rec)),
{
    if st.have_last {
        let d = deltas(rec, st.lasts);
        assert forall|i: int| 0 <= i < rec.len() implies #[trigger] sums(st.lasts, d)[i] == rec[i] by {
            lemma_byte_sum_delta(rec[i], st.lasts[i]);
        }
        assert(sums(st.lasts, d) =~= rec);
    }
}

/// The shape of a compressor run: widths are kept, one packet per record,
/// each packet `n` bytes wide, and the first record flips the state.
pub proof fn lemma_run_compress_shape(st: CodecState, recs: Seq<Seq<u8>>, n: nat)
    requires
        state_of_width(st, n),
        all_of_width(recs, n),
    ensures
        state_of_width(run_compress(st, recs).0, n),
        run_compress(st, recs).1.len() == recs.len(),
        forall|k: int| 0 <= k < recs.len() ==> (#[trigger] run_compress(st, recs).1[k]).payload().len() == n,
        run_compress(st, recs).0.have_last == (st.have_last || recs.len() > 0),
    decreases recs.len(),
{
    if recs.len() > 0 {
        lemma_run_compress_shape(st, recs.drop_last(), n);
        let (mid, ps) = run_compress(st, recs.drop_last());
        assert(recs.last() == recs[recs.len() - 1]);
        let (end, p) = compress_step(mid, recs.last());
        assert(run_compress(st, recs).1 == ps.push(p));
        assert forall|k: int| 0 <= k < recs.len() implies (#[trigger] run_compress(st, recs).1[k]).payload().len() == n by {
            if k < recs.len() - 1 {
                assert(run_compress(st, recs).1[k] == ps[k]);
            }
        }
    }
}

/// Round trip: any run of records of one width, compressed from some state,
/// decompresses from that same state to the same records, and both sides end
/// in the same state.
pub proof fn lemma_run_round_trip(st: CodecState, recs: Seq<Seq<u8>>)
    requires
        all_of_width(recs, st.lasts.len()),
    ensures
        run_decompress(st, run_compress(st, recs).1) == Some((run_compress(st, recs).0, recs)),
    decreases recs.len(),
{
    if recs.len() > 0 {
        let pre = recs.drop_last();
        lemma_run_round_trip(st, pre);
        let (mid, ps) = run_compress(st, pre);
        let (end, p) = compress_step(mid, recs.last());
        let all = ps.push(p);
        assert(all.drop_last() =~= ps);
        lemma_width_after_run(st, pre);
        assert(recs.last() == recs[recs.len() - 1]);
        lemma_step_round_trip(mid, recs.last());
        assert(pre.push(recs.last()) =~= recs);
    }
}

/// The width of the last record stays the codec's width over a run.
proof fn lemma_width_after_run(st: CodecState, recs: Seq<Seq<u8>>)
    requires
        all_of_width(recs, st.lasts.len()),
    ensures
        run_compress(st, recs).0.lasts.len() == st.lasts.len(),
    decreases recs.len(),
{
    if recs.len() > 0 {
        lemma_width_after_run(st, recs.drop_last());
        assert(recs.last() == recs[recs.len() - 1]);
    }
}

/// Round trip from a fresh pair: a fresh compressor and a fresh decompressor
/// for `count` slots carry any sequence of `count`-byte records through
/// unchanged, whatever the byte values, wrap-around included.
pub proof fn lemma_round_trip(count: nat, recs: Seq<Seq<u8>>)
    requires
        all_of_width(recs, count),
    ensures
        run_decompress(fresh_state(count), run_compress(fresh_state(count), recs).1)
            == Some((run_compress(fresh_state(count), recs).0, recs)),
{
    lemma_run_round_trip(fresh_state(count), recs);
}

/// The first record goes out as its own bytes, whatever the models hold, and
/// no model observes it; a decompressor in the same state reads it back from
/// those bytes alone.
pub proof fn lemma_first_record_raw(st: CodecState, rec: Seq<u8>)
    requires
        !st.have_last,
        rec.len() == st.lasts.len(),
    ensures
        compress_step(st, rec).1 == Packet::Raw(rec),
        compress_step(st, rec).0.models == st.models,
        decompress_step(st, Packet::Raw(rec)) == Some((compress_step(st, rec).0, rec)),
{
}

/// Two states of width `n` that agree in slot `i`.
pub open spec fn agree_in_slot(a: CodecState, b: CodecState, n: nat, i: int) -> bool {
    &&& state_of_width(a, n)
    &&& state_of_width(b, n)
    &&& a.have_last == b.have_last
    &&& a.lasts[i] == b.lasts[i]
    &&& a.models[i] == b.models[i]
}

proof fn lemma_step_slot(a: CodecState, b: CodecState, ra: Seq<u8>, rb: Seq<u8>, n: nat, i: int)
    requires
        0 <= i < n,
        agree_in_slot(a, b, n, i),
        ra.len() == n,
        rb.len() == n,
        ra[i] == rb[i],
    ensures
        agree_in_slot(compress_step(a, ra).0, compress_step(b, rb).0, n, i),
        (compress_step(a, ra).1 is Raw) == (compress_step(b, rb).1 is Raw),
        compress_step(a, ra).1.payload()[i] == compress_step(b, rb).1.payload()[i],
{
}

/// Slots are coded apart: two runs from states that agree in slot `i`,
/// over records that agree in slot `i` whatever the other slots hold, give
/// packets of the same kinds that agree in slot `i`, and end with the same
/// last byte and the same model in slot `i`.
pub proof fn lemma_slot_independence(
    a: CodecState,
    b: CodecState,
    ra: Seq<Seq<u8>>,
    rb: Seq<Seq<u8>>,
    n: nat,
    i: int,
)
    requires
        0 <= i < n,
        agree_in_slot(a, b, n, i),
        all_of_width(ra, n),
        all_of_width(rb, n),
        ra.len() == rb.len(),
        forall|k: int| 0 <= k < ra.len() ==> (#[trigger] ra[k])[i] == rb[k][i],
    ensures
        agree_in_slot(run_compress(a, ra).0, run_compress(b, rb).0, n, i),
        forall|k: int|
            0 <= k < ra.len() ==> ((#[trigger] run_compress(a, ra).1[k]) is Raw)
                == (run_compress(b, rb).1[k] is Raw) && run_compress(a, ra).1[k].payload()[i]
                == run_compress(b, rb).1[k].payload()[i],
    decreases ra.len(),
{
    if ra.len() > 0 {
        let (pa, pb) = (ra.drop_last(), rb.drop_last());
        assert forall|k: int| 0 <= k < pa.len() implies (#[trigger] pa[k])[i] == pb[k][i] by {
            assert(pa[k] == ra[k]);
        }
        assert(all_of_width(pa, n) && all_of_width(pb, n)) by {
            assert forall|k: int| 0 <= k < pa.len() implies (#[trigger] pa[k]).len() == n && pb[k].len() == n by {
                assert(pa[k] == ra[k] && pb[k] == rb[k]);
            }
        }
        lemma_slot_independence(a, b, pa, pb, n, i);
        lemma_run_compress_shape(a, pa, n);
        lemma_run_compress_shape(b, pb, n);
        let (ma, qa) = run_compress(a, pa);
        let (mb, qb) = run_compress(b, pb);
        assert(ra.last() == ra[ra.len() - 1]);
        assert(rb.last() == rb[rb.len() - 1]);
        lemma_step_slot(ma, mb, ra.last(), rb.last(), n, i);
        let (ea, xa) = compress_step(ma, ra.last());
        let (eb, xb) = compress_step(mb, rb.last());
        assert(run_compress(a, ra) == (ea, qa.push(xa)));
        assert(run_compress(b, rb) == (eb, qb.push(xb)));
        assert forall|k: int| 0 <= k < ra.len() implies ((#[trigger] run_compress(a, ra).1[k]) is Raw)
            == (run_compress(b, rb).1[k] is Raw) && run_compress(a, ra).1[k].payload()[i]
            == run_compress(b, rb).1[k].payload()[i] by {
            if k < ra.len() - 1 {
                assert(run_compress(a, ra).1[k] == qa[k]);
                assert(run_compress(b, rb).1[k] == qb[k]);
            }
        }
    }
}

/// Saturating count of `k` occurrences, as a model's counter holds it.
pub open spec fn saturated(k: nat) -> u32 {
    if k < u32::MAX { k as u32 } else { u32::MAX }
}

/// Repeated records: when every record equals the one before it, every
/// packet after the first holds only zero symbols; in every slot's model the
/// count of symbol zero has grown once per record after the first, up to
/// saturation, and no other count has moved from its start.
pub proof fn lemma_repeated_records(count: nat, recs: Seq<Seq<u8>>)
    requires
        recs.len() > 0,
        all_of_width(recs, count),
        forall|k: int| 1 <= k < recs.len() ==> #[trigger] recs[k] == recs[k - 1],
    ensures
        run_compress(fresh_state(count), recs).1[0] == Packet::Raw(recs[0]),
        forall|k: int|
            1 <= k < recs.len() ==> #[trigger] run_compress(fresh_state(count), recs).1[k]
                == Packet::Symbols(Seq::new(count, |j: int| 0u8)),
        forall|i: int, s: int|
            0 <= i < count && 0 < s < 256 ==> #[trigger] run_compress(fresh_state(count), recs).0.models[i][s]
                == 1,
        forall|i: int|
            0 <= i < count ==> #[trigger] run_compress(fresh_state(count), recs).0.models[i][0]
                == saturated(recs.len() as nat),
    decreases recs.len(),
{
    let st = fresh_state(count);
    let pre = recs.drop_last();
    assert(recs.last() == recs[recs.len() - 1]);
    if recs.len() == 1 {
        assert(pre.len() == 0);
        assert(run_compress(st, pre) == (st, Seq::<Packet>::empty()));
    } else {
        assert forall|k: int| 1 <= k < pre.len() implies #[trigger] pre[k] == pre[k - 1] by {
            assert(pre[k] == recs[k]);
            assert(pre[k - 1] == recs[k - 1]);
        }
        lemma_repeated_records(count, pre);
        assert(state_of_width(st, count));
        lemma_run_compress_shape(st, pre, count);
        let (mid, ps) = run_compress(st, pre);
        assert(pre.last() == recs[recs.len() - 2]);
        assert(mid.lasts == pre.last());
        let zeros = Seq::new(count, |j: int| 0u8);
        assert(deltas(recs.last(), mid.lasts) =~= zeros);
        let end = run_compress(st, recs).0;
        assert(run_compress(st, recs) == (compress_step(mid, recs.last()).0, ps.push(compress_step(mid, recs.last()).1)));
        assert(end.models == observe_all(mid.models, zeros));
        assert forall|k: int| 1 <= k < recs.len() implies #[trigger] run_compress(st, recs).1[k]
            == Packet::Symbols(zeros) by {
            if k < recs.len() - 1 {
                assert(run_compress(st, recs).1[k] == ps[k]);
            }
        }
        assert(run_compress(st, recs).1[0] == ps[0]);
        assert forall|i: int, s: int| 0 <= i < count && 0 < s < 256 implies #[trigger] end.models[i][s]
            == 1 by {
            assert(mid.models[i][s] == 1);
        }
        assert forall|i: int| 0 <= i < count implies #[trigger] end.models[i][0] == saturated(
            recs.len() as nat,
        ) by {
            assert(mid.models[i][0] == saturated(pre.len() as nat));
        }
    }
}

/// With no slots, every packet is empty and there is no model to touch: a
/// record through either side changes nothing but the first-record flag.
pub proof fn lemma_zero_slots(st: CodecState, rec: Seq<u8>, p: Packet)
    requires
        state_of_width(st, 0),
        rec.len() == 0,
    ensures
        compress_step(st, rec).1.payload().len() == 0,
        compress_step(st, rec).0 == (CodecState { have_last: true, ..st }),
        p.payload().len() == 0 && (p is Raw) != st.have_last ==> decompress_step(st, p) == Some(
            (CodecState { have_last: true, ..st }, Seq::<u8>::empty()),
        ),
{
    assert(rec =~= st.lasts);
    assert(observe_all(st.models, deltas(rec, st.lasts)) =~= st.models);
    if p.payload().len() == 0 {
        assert(observe_all(st.models, p.payload()) =~= st.models);
        assert(sums(st.lasts, p.payload()) =~= Seq::<u8>::empty());
        assert(p.payload() =~= Seq::<u8>::empty());
        assert(p.payload() =~= st.lasts);
        assert(sums(st.lasts, p.payload()) =~= st.lasts);
    }
}

} // verus!
