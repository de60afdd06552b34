use vstd::prelude::*;

use crate::bits::{encoded_payload, lemma_encoded_len, lemma_read_encoded, read_payload, HEADER_BITS, MAX_PAYLOAD_LEN};
use crate::channel::{
    channel_bit, channel_bits, channel_starts, channels, is_channel, is_direction_opcode,
    lemma_channel_starts_are_channels, lemma_direction_modrm, lemma_flip, set_bit, write_bits,
};
use crate::decoder::{
    lemma_insn_len_bounds,
    agree_on, byte_at, decode_from, decoding, insn_len, lemma_decoding_spans, lemma_insn_local,
    lemma_spans_ordered, opcode_index,
};
use crate::mode::Bitness;

verus! {

broadcast use lemma_insn_len_bounds;

/// Whether `x` starts one of the spans.
pub open spec fn is_start(spans: Seq<(int, int)>, x: int) -> bool {
    exists|j: int| 0 <= j < spans.len() && spans[j].0 == x
}

/// Whether byte `i` lies in the span of the instruction that starts at `x`.
pub open spec fn in_span(b: Seq<u8>, m: Bitness, x: int, i: int) -> bool {
    x <= i < x + insn_len(b, m, x)
}

/// Whether byte `i` lies in the span of some channel of `b`.
pub open spec fn in_channel_span(b: Seq<u8>, m: Bitness, i: int) -> bool {
    exists|c: int| 0 <= c < channels(b, m).len() && in_span(b, m, #[trigger] channels(b, m)[c], i)
}

/// The class and the bit of an instruction depend only on its own bytes.
proof fn lemma_channel_local(b1: Seq<u8>, b2: Seq<u8>, m: Bitness, pos: int)
    requires
        insn_len(b1, m, pos) > 0,
        agree_on(b1, b2, pos, pos + insn_len(b1, m, pos)),
    ensures
        insn_len(b2, m, pos) == insn_len(b1, m, pos),
        is_channel(b2, m, pos) == is_channel(b1, m, pos),
        channel_bit(b2, m, pos) == channel_bit(b1, m, pos),
{
    lemma_insn_local(b1, b2, m, pos);
    let o = opcode_index(b1, m, pos);
    assert(byte_at(b1, o) == byte_at(b2, o));
    if is_direction_opcode(byte_at(b1, o)) {
        lemma_direction_modrm(b1, m, pos);
        assert(byte_at(b1, o + 1) == byte_at(b2, o + 1));
    }
}

/// Distinct instruction starts of one decoding have disjoint spans.
proof fn lemma_starts_disjoint(b: Seq<u8>, m: Bitness, spans: Seq<(int, int)>, x: int, y: int)
    requires
        decoding(b, m) == Ok::<Seq<(int, int)>, int>(spans),
        is_start(spans, x),
        is_start(spans, y),
        x != y,
    ensures
        x + insn_len(b, m, x) <= y || y + insn_len(b, m, y) <= x,
        insn_len(b, m, x) > 0,
{
    lemma_decoding_spans(b, m, 0, spans);
    let i = choose|i: int| 0 <= i < spans.len() && spans[i].0 == x;
    let j = choose|j: int| 0 <= j < spans.len() && spans[j].0 == y;
    assert(insn_len(b, m, spans[i].0) == spans[i].1);
    assert(insn_len(b, m, spans[j].0) == spans[j].1);
    if i < j {
        lemma_spans_ordered(b, m, spans, i, j);
    } else if j < i {
        lemma_spans_ordered(b, m, spans, j, i);
    }
}

/// Channel starts are instruction starts, listed in ascending order.
proof fn lemma_channel_starts_sorted(b: Seq<u8>, m: Bitness, spans: Seq<(int, int)>, n: int)
    requires
        decoding(b, m) == Ok::<Seq<(int, int)>, int>(spans),
        0 <= n <= spans.len(),
    ensures
        forall|c: int| 0 <= c < channel_starts(b, m, spans, n).len() ==> {
            let x = #[trigger] channel_starts(b, m, spans, n)[c];
            &&& is_start(spans, x)
            &&& n < spans.len() ==> x < spans[n].0
        },
        forall|c: int, d: int|
            0 <= c < d < channel_starts(b, m, spans, n).len() ==> #[trigger] channel_starts(b, m, spans, n)[c]
                < #[trigger] channel_starts(b, m, spans, n)[d],
    decreases n,
{
    lemma_decoding_spans(b, m, 0, spans);
    if n > 0 {
        lemma_channel_starts_sorted(b, m, spans, n - 1);
        let rest = channel_starts(b, m, spans, n - 1);
        let all = channel_starts(b, m, spans, n);
        if n < spans.len() {
            assert(spans[n - 1].0 + spans[n - 1].1 == spans[n].0);
        }
        assert forall|c: int| 0 <= c < all.len() implies {
            let x = #[trigger] all[c];
            &&& is_start(spans, x)
            &&& n < spans.len() ==> x < spans[n].0
        } by {
            if c < rest.len() {
                assert(all[c] == rest[c]);
            } else {
                assert(all[c] == spans[n - 1].0);
            }
        }
        assert forall|c: int, d: int| 0 <= c < d < all.len() implies #[trigger] all[c] < #[trigger] all[d] by {
            assert(all[c] == rest[c]);
            if d < rest.len() {
                assert(all[d] == rest[d]);
            } else {
                assert(rest[c] < spans[n - 1].0);
            }
        }
    }
}

/// Every instruction keeps its length and its class; one that is no channel
/// keeps its bytes.
pub open spec fn spans_kept(b: Seq<u8>, e: Seq<u8>, m: Bitness, spans: Seq<(int, int)>) -> bool {
    forall|j: int| 0 <= j < spans.len() ==> {
        &&& insn_len(e, m, #[trigger] spans[j].0) == spans[j].1
        &&& is_channel(e, m, spans[j].0) == is_channel(b, m, spans[j].0)
        &&& !is_channel(b, m, spans[j].0) ==> agree_on(b, e, spans[j].0, spans[j].0 + spans[j].1)
    }
}

/// The leading channels hold `w`; the others hold what they held in `b`.
pub open spec fn bits_written(b: Seq<u8>, e: Seq<u8>, m: Bitness, w: Seq<bool>) -> bool {
    let starts = channels(b, m);
    forall|c: int| 0 <= c < starts.len() ==> channel_bit(e, m, #[trigger] starts[c]) == if c < w.len() {
        w[c]
    } else {
        channel_bit(b, m, starts[c])
    }
}

/// The channels past the first `n` keep their bytes.
pub open spec fn pending_kept(b: Seq<u8>, e: Seq<u8>, m: Bitness, n: int) -> bool {
    let starts = channels(b, m);
    forall|c: int| n <= c < starts.len() ==> agree_on(b, e, #[trigger] starts[c], starts[c] + insn_len(b, m, starts[c]))
}

/// Bytes outside every channel's span are kept.
pub open spec fn frame_kept(b: Seq<u8>, e: Seq<u8>, m: Bitness) -> bool {
    forall|i: int| 0 <= i < b.len() && !in_channel_span(b, m, i) ==> #[trigger] e[i] == b[i]
}

/// What holds of a buffer after some leading channels were written.
pub open spec fn written(b: Seq<u8>, e: Seq<u8>, m: Bitness, spans: Seq<(int, int)>, w: Seq<bool>) -> bool {
    &&& e.len() == b.len()
    &&& spans_kept(b, e, m, spans)
    &&& bits_written(b, e, m, w)
    &&& pending_kept(b, e, m, w.len() as int)
    &&& frame_kept(b, e, m)
}

/// One step of writing: the channel at `x` takes `v`; every other
/// instruction keeps its bytes.
#[verifier::rlimit(50)]
proof fn lemma_step_local(b: Seq<u8>, m: Bitness, spans: Seq<(int, int)>, e0: Seq<u8>, x: int, v: bool)
    requires
        decoding(b, m) == Ok::<Seq<(int, int)>, int>(spans),
        is_start(spans, x),
        e0.len() == b.len(),
        is_channel(e0, m, x),
        forall|j: int| 0 <= j < spans.len() ==> insn_len(e0, m, #[trigger] spans[j].0) == spans[j].1,
    ensures
        ({
            let e = set_bit(e0, m, x, v);
            &&& e.len() == b.len()
            &&& forall|i: int| 0 <= i < b.len() && !in_span(b, m, x, i) ==> #[trigger] e[i] == e0[i]
            &&& insn_len(e, m, x) == insn_len(b, m, x)
            &&& is_channel(e, m, x)
            &&& channel_bit(e, m, x) == v
            &&& forall|y: int| is_start(spans, y) && y != x ==> {
                &&& agree_on(e0, e, y, y + insn_len(b, m, y))
                &&& insn_len(e, m, y) == insn_len(e0, m, y)
                &&& is_channel(e, m, y) == is_channel(e0, m, y)
                &&& channel_bit(e, m, y) == channel_bit(e0, m, y)
            }
        }),
{
    let e = set_bit(e0, m, x, v);
    lemma_decoding_spans(b, m, 0, spans);
    let jx = choose|j: int| 0 <= j < spans.len() && spans[j].0 == x;
    assert(insn_len(e0, m, spans[jx].0) == spans[jx].1);
    assert(insn_len(b, m, spans[jx].0) == spans[jx].1);
    if channel_bit(e0, m, x) != v {
        lemma_flip(e0, m, x);
    }
    assert forall|y: int| is_start(spans, y) && y != x implies {
        &&& agree_on(e0, e, y, y + insn_len(b, m, y))
        &&& insn_len(e, m, y) == insn_len(e0, m, y)
        &&& is_channel(e, m, y) == is_channel(e0, m, y)
        &&& channel_bit(e, m, y) == channel_bit(e0, m, y)
    } by {
        lemma_starts_disjoint(b, m, spans, x, y);
        let jy = choose|j: int| 0 <= j < spans.len() && spans[j].0 == y;
        assert(insn_len(e0, m, spans[jy].0) == spans[jy].1);
        assert(insn_len(b, m, spans[jy].0) == spans[jy].1);
        assert forall|i: int| y <= i < y + insn_len(b, m, y) implies #[trigger] byte_at(e0, i) == byte_at(e, i) by {
            assert(!in_span(b, m, x, i));
            assert(e[i] == e0[i]);
        }
        lemma_channel_local(e0, e, m, y);
    }
}

/// What a step needs to know of the channel it writes.
pub open spec fn step_ready(b: Seq<u8>, m: Bitness, spans: Seq<(int, int)>, w: Seq<bool>) -> bool {
    let starts = channels(b, m);
    let k = w.len() - 1;
    let e0 = write_bits(b, m, starts, w.drop_last());
    let e = write_bits(b, m, starts, w);
    let x = starts[k];
    &&& decoding(b, m) == Ok::<Seq<(int, int)>, int>(spans)
    &&& 0 < w.len() <= starts.len()
    &&& written(b, e0, m, spans, w.drop_last())
    &&& is_start(spans, x)
    &&& is_channel(b, m, x)
    &&& e.len() == b.len()
    &&& forall|i: int| 0 <= i < b.len() && !in_span(b, m, x, i) ==> #[trigger] e[i] == e0[i]
    &&& insn_len(e, m, x) == insn_len(b, m, x)
    &&& is_channel(e, m, x)
    &&& channel_bit(e, m, x) == w[k]
    &&& forall|y: int| is_start(spans, y) && y != x ==> {
        &&& agree_on(e0, e, y, y + insn_len(b, m, y))
        &&& insn_len(e, m, y) == insn_len(e0, m, y)
        &&& is_channel(e, m, y) == is_channel(e0, m, y)
        &&& channel_bit(e, m, y) == channel_bit(e0, m, y)
    }
    &&& forall|c: int, d: int| 0 <= c < d < starts.len() ==> #[trigger] starts[c] < #[trigger] starts[d]
    &&& forall|c: int| 0 <= c < starts.len() ==> is_start(spans, #[trigger] starts[c])
}

proof fn lemma_step_ready(b: Seq<u8>, m: Bitness, spans: Seq<(int, int)>, w: Seq<bool>)
    requires
        decoding(b, m) == Ok::<Seq<(int, int)>, int>(spans),
        0 < w.len() <= channels(b, m).len(),
        written(b, write_bits(b, m, channels(b, m), w.drop_last()), m, spans, w.drop_last()),
    ensures
        step_ready(b, m, spans, w),
{
    let starts = channels(b, m);
    lemma_decoding_spans(b, m, 0, spans);
    lemma_channel_starts_sorted(b, m, spans, spans.len() as int);
    let k = w.len() - 1;
    let w0 = w.drop_last();
    let e0 = write_bits(b, m, starts, w0);
    let x = starts[k];
    lemma_channel_starts_are_channels(b, m, spans, spans.len() as int, k);
    assert(is_start(spans, x));
    let jx = choose|j: int| 0 <= j < spans.len() && spans[j].0 == x;
    assert(insn_len(b, m, spans[jx].0) == spans[jx].1);
    assert(pending_kept(b, e0, m, w0.len() as int));
    assert(agree_on(b, e0, x, x + insn_len(b, m, x)));
    lemma_channel_local(b, e0, m, x);
    assert(spans_kept(b, e0, m, spans));
    lemma_step_local(b, m, spans, e0, x, w[k]);
}

#[verifier::rlimit(50)]
proof fn lemma_step_spans(b: Seq<u8>, m: Bitness, spans: Seq<(int, int)>, w: Seq<bool>)
    requires
        step_ready(b, m, spans, w),
    ensures
        spans_kept(b, write_bits(b, m, channels(b, m), w), m, spans),
{
    let starts = channels(b, m);
    lemma_decoding_spans(b, m, 0, spans);
    let k = w.len() - 1;
    let e0 = write_bits(b, m, starts, w.drop_last());
    let e = write_bits(b, m, starts, w);
    let x = starts[k];
    assert(spans_kept(b, e0, m, spans));
    assert forall|j: int| 0 <= j < spans.len() implies {
        &&& insn_len(e, m, #[trigger] spans[j].0) == spans[j].1
        &&& is_channel(e, m, spans[j].0) == is_channel(b, m, spans[j].0)
        &&& !is_channel(b, m, spans[j].0) ==> agree_on(b, e, spans[j].0, spans[j].0 + spans[j].1)
    } by {
        let y = spans[j].0;
        assert(is_start(spans, y));
        assert(insn_len(b, m, spans[j].0) == spans[j].1);
        assert(insn_len(e0, m, spans[j].0) == spans[j].1);
        assert(is_channel(e0, m, y) == is_channel(b, m, y));
        if y != x && !is_channel(b, m, y) {
            assert forall|i: int| y <= i < y + spans[j].1 implies #[trigger] byte_at(b, i) == byte_at(e, i) by {
                assert(byte_at(b, i) == byte_at(e0, i));
                assert(byte_at(e0, i) == byte_at(e, i));
            }
        }
    }
}

proof fn lemma_step_bits(b: Seq<u8>, m: Bitness, spans: Seq<(int, int)>, w: Seq<bool>)
    requires
        step_ready(b, m, spans, w),
    ensures
        bits_written(b, write_bits(b, m, channels(b, m), w), m, w),
{
    let starts = channels(b, m);
    let k = w.len() - 1;
    let w0 = w.drop_last();
    let e0 = write_bits(b, m, starts, w0);
    let e = write_bits(b, m, starts, w);
    let x = starts[k];
    assert(bits_written(b, e0, m, w0));
    assert forall|c: int| 0 <= c < starts.len() implies channel_bit(e, m, #[trigger] starts[c]) == if c < w.len() {
        w[c]
    } else {
        channel_bit(b, m, starts[c])
    } by {
        if c != k {
            assert(starts[c] != x) by {
                if c < k {
                    assert(starts[c] < starts[k]);
                } else {
                    assert(starts[k] < starts[c]);
                }
            }
            assert(is_start(spans, starts[c]));
            if c < w0.len() {
                assert(w0[c] == w[c]);
            }
        }
    }
}

proof fn lemma_step_pending(b: Seq<u8>, m: Bitness, spans: Seq<(int, int)>, w: Seq<bool>)
    requires
        step_ready(b, m, spans, w),
    ensures
        pending_kept(b, write_bits(b, m, channels(b, m), w), m, w.len() as int),
{
    let starts = channels(b, m);
    let k = w.len() - 1;
    let e0 = write_bits(b, m, starts, w.drop_last());
    let e = write_bits(b, m, starts, w);
    assert(pending_kept(b, e0, m, k));
    assert forall|c: int| w.len() <= c < starts.len() implies agree_on(b, e, #[trigger] starts[c], starts[c] + insn_len(b, m, starts[c])) by {
        let y = starts[c];
        assert(starts[k] < starts[c]);
        assert(is_start(spans, y));
        assert(agree_on(b, e0, y, y + insn_len(b, m, y)));
        assert forall|i: int| y <= i < y + insn_len(b, m, y) implies #[trigger] byte_at(b, i) == byte_at(e, i) by {
            assert(byte_at(b, i) == byte_at(e0, i));
            assert(byte_at(e0, i) == byte_at(e, i));
        }
    }
}

proof fn lemma_step_frame(b: Seq<u8>, m: Bitness, spans: Seq<(int, int)>, w: Seq<bool>)
    requires
        step_ready(b, m, spans, w),
    ensures
        frame_kept(b, write_bits(b, m, channels(b, m), w), m),
{
    let starts = channels(b, m);
    let k = w.len() - 1;
    let e0 = write_bits(b, m, starts, w.drop_last());
    let e = write_bits(b, m, starts, w);
    assert(frame_kept(b, e0, m));
    assert forall|i: int| 0 <= i < b.len() && !in_channel_span(b, m, i) implies #[trigger] e[i] == b[i] by {
        assert(!in_span(b, m, starts[k], i));
        assert(e0[i] == b[i]);
    }
}

proof fn lemma_write_bits(b: Seq<u8>, m: Bitness, spans: Seq<(int, int)>, w: Seq<bool>)
    requires
        decoding(b, m) == Ok::<Seq<(int, int)>, int>(spans),
        w.len() <= channels(b, m).len(),
    ensures
        written(b, write_bits(b, m, channels(b, m), w), m, spans, w),
    decreases w.len(),
{
    lemma_decoding_spans(b, m, 0, spans);
    if w.len() == 0 {
        let starts = channels(b, m);
        assert forall|j: int| 0 <= j < spans.len() implies agree_on(b, b, spans[j].0, spans[j].0 + spans[j].1) by {}
        assert forall|c: int| 0 <= c < starts.len() implies agree_on(b, b, #[trigger] starts[c], starts[c] + insn_len(b, m, starts[c])) by {}
    } else {
        lemma_write_bits(b, m, spans, w.drop_last());
        lemma_step_ready(b, m, spans, w);
        lemma_step_spans(b, m, spans, w);
        lemma_step_bits(b, m, spans, w);
        lemma_step_pending(b, m, spans, w);
        lemma_step_frame(b, m, spans, w);
    }
}

/// Equal lengths at every instruction start give the same decoding.
proof fn lemma_same_decoding(b: Seq<u8>, e: Seq<u8>, m: Bitness, spans: Seq<(int, int)>, j: int)
    requires
        decoding(b, m) == Ok::<Seq<(int, int)>, int>(spans),
        e.len() == b.len(),
        forall|i: int| 0 <= i < spans.len() ==> insn_len(e, m, #[trigger] spans[i].0) == spans[i].1,
        0 <= j < spans.len(),
    ensures
        decode_from(e, m, spans[j].0) == decode_from(b, m, spans[j].0),
    decreases spans.len() - j,
{
    lemma_decoding_spans(b, m, 0, spans);
    let x = spans[j].0;
    assert(insn_len(e, m, x) == spans[j].1);
    assert(insn_len(b, m, x) == spans[j].1);
    if j + 1 < spans.len() {
        lemma_same_decoding(b, e, m, spans, j + 1);
        assert(x + spans[j].1 == spans[j + 1].0);
    } else {
        assert(x + spans[j].1 == b.len());
        assert(decode_from(e, m, x + spans[j].1) == Ok::<Seq<(int, int)>, int>(Seq::empty()));
        assert(decode_from(b, m, x + spans[j].1) == Ok::<Seq<(int, int)>, int>(Seq::empty()));
    }
}

proof fn lemma_same_channel_starts(b: Seq<u8>, e: Seq<u8>, m: Bitness, spans: Seq<(int, int)>, n: int)
    requires
        0 <= n <= spans.len(),
        forall|j: int| 0 <= j < spans.len() ==> is_channel(e, m, #[trigger] spans[j].0) == is_channel(b, m, spans[j].0),
    ensures
        channel_starts(e, m, spans, n) == channel_starts(b, m, spans, n),
    decreases n,
{
    if n > 0 {
        lemma_same_channel_starts(b, e, m, spans, n - 1);
        assert(is_channel(e, m, spans[n - 1].0) == is_channel(b, m, spans[n - 1].0));
    }
}

/// Writing bits into the leading channels keeps the length of the buffer,
/// its instructions, its channels, and every byte outside the channels'
/// spans; the written channels hold the written bits and the others keep
/// theirs.
#[verifier::rlimit(100)]
pub proof fn law_write_keeps_layout(b: Seq<u8>, m: Bitness, w: Seq<bool>)
    requires
        decoding(b, m) is Ok,
        w.len() <= channels(b, m).len(),
    ensures
        ({
            let e = write_bits(b, m, channels(b, m), w);
            &&& e.len() == b.len()
            &&& decoding(e, m) == decoding(b, m)
            &&& channels(e, m) == channels(b, m)
            &&& channel_bits(e, m).len() == channel_bits(b, m).len()
            &&& forall|c: int| 0 <= c < w.len() ==> #[trigger] channel_bits(e, m)[c] == w[c]
            &&& forall|c: int| w.len() <= c < channel_bits(b, m).len() ==> #[trigger] channel_bits(e, m)[c] == channel_bits(b, m)[c]
            &&& forall|i: int| 0 <= i < b.len() && !in_channel_span(b, m, i) ==> #[trigger] e[i] == b[i]
        }),
{
    let spans = decoding(b, m)->Ok_0;
    let e = write_bits(b, m, channels(b, m), w);
    lemma_write_bits(b, m, spans, w);
    lemma_decoding_spans(b, m, 0, spans);
    if spans.len() > 0 {
        lemma_same_decoding(b, e, m, spans, 0);
    }
    assert(decoding(e, m) == decoding(b, m));
    lemma_same_channel_starts(b, e, m, spans, spans.len() as int);
    assert(channels(e, m) == channels(b, m));
    let starts = channels(b, m);
    assert forall|c: int| 0 <= c < w.len() implies #[trigger] channel_bits(e, m)[c] == w[c] by {
        assert(channel_bits(e, m)[c] == channel_bit(e, m, starts[c]));
    }
    assert forall|c: int| w.len() <= c < channel_bits(b, m).len() implies #[trigger] channel_bits(e, m)[c]
        == channel_bits(b, m)[c] by {
        assert(channel_bits(e, m)[c] == channel_bit(e, m, starts[c]));
        assert(channel_bits(b, m)[c] == channel_bit(b, m, starts[c]));
    }
}

/// Capacity is unchanged by embedding: the channels of the embedded buffer
/// are those of the buffer it was given.
pub proof fn law_capacity_kept(b: Seq<u8>, m: Bitness, p: Seq<u8>)
    requires
        decoding(b, m) is Ok,
        p.len() <= MAX_PAYLOAD_LEN,
        HEADER_BITS + 8 * p.len() <= channels(b, m).len(),
    ensures
        channels(write_bits(b, m, channels(b, m), encoded_payload(p)), m).len() == channels(b, m).len(),
        write_bits(b, m, channels(b, m), encoded_payload(p)).len() == b.len(),
{
    lemma_encoded_len(p);
    law_write_keeps_layout(b, m, encoded_payload(p));
}

/// Decoding fails only at the start of an instruction that the scan from
/// offset 0 reaches and that does not decode: the bytes before it are whole
/// instructions.
pub proof fn law_decode_error_reached(b: Seq<u8>, m: Bitness, pos: int)
    requires
        0 <= pos,
        decode_from(b, m, pos) is Err,
    ensures
        ({
            let e = decode_from(b, m, pos)->Err_0;
            &&& pos <= e < b.len()
            &&& insn_len(b, m, e) == 0
            &&& e == pos || decode_from(b, m, pos + insn_len(b, m, pos)) == decode_from(b, m, pos)
        }),
    decreases b.len() - pos,
{
    let n = insn_len(b, m, pos);
    if n > 0 {
        law_decode_error_reached(b, m, pos + n);
    }
}

/// Embedding a payload that fits and extracting from the result gives the
/// payload back.
pub proof fn law_round_trip(b: Seq<u8>, m: Bitness, p: Seq<u8>)
    requires
        decoding(b, m) is Ok,
        p.len() <= MAX_PAYLOAD_LEN,
        HEADER_BITS + 8 * p.len() <= channels(b, m).len(),
    ensures
        decoding(write_bits(b, m, channels(b, m), encoded_payload(p)), m) is Ok,
        read_payload(channel_bits(write_bits(b, m, channels(b, m), encoded_payload(p)), m)) == Some(p),
{
    let w = encoded_payload(p);
    lemma_encoded_len(p);
    law_write_keeps_layout(b, m, w);
    let e = write_bits(b, m, channels(b, m), w);
    let bits = channel_bits(e, m);
    assert(bits.subrange(0, w.len() as int) =~= w);
    lemma_read_encoded(p, bits);
}

} // verus!
