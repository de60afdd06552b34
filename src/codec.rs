use vstd::prelude::*;

use crate::bits::{
    encoded_payload, lemma_encoded_len, payload_bits, read_payload, unpack_payload, HEADER_BITS, MAX_PAYLOAD_LEN,
};
use crate::channel::{
    channel_bits, channel_matches, channels, enumerate, encode_channel, is_channel, lemma_channel_shape,
    lemma_channel_starts_are_channels, lemma_flip, lists_channels, set_bit, write_bits, Channel,
    channel_bit,
};
use crate::decoder::{
    lemma_insn_len_bounds,
    agree_on, byte_at, decode, decoding, insn_len, lemma_decoding_spans, lemma_insn_local,
    lemma_spans_ordered, opcode_index, spans_of,
};
use crate::error::StegError;
use crate::mode::Bitness;

verus! {

broadcast use lemma_insn_len_bounds;

/// The channel bits that a payload of `n` bytes needs with its header, as
/// reported in `CapacityExceeded` (saturated at `usize::MAX`).
pub open spec fn requested_bits(n: nat) -> usize {
    if HEADER_BITS + 8 * n <= usize::MAX {
        (HEADER_BITS + 8 * n) as usize
    } else {
        usize::MAX
    }
}

/// The embedding capacity of a buffer in bits: the number of its channels.
pub fn profile(b: &Vec<u8>, m: Bitness) -> (r: Result<usize, StegError>)
    ensures
        match decoding(b@, m) {
            Ok(_) => r == Ok::<usize, StegError>(channels(b@, m).len() as usize),
            Err(e) => r == Err::<usize, StegError>(StegError::Decode { offset: e as usize }),
        },
{
    let insns = match decode(b, m) {
        Ok(v) => v,
        Err(e) => return Err(e),
    };
    let chans = enumerate(b, m, &insns);
    Ok(chans.len())
}

/// The bits held by the channels, in order.
fn channel_values(chans: &Vec<Channel>) -> (r: Vec<bool>)
    ensures
        r@ == chans@.map_values(|c: Channel| c.value),
{
    let mut out: Vec<bool> = Vec::new();
    let mut k: usize = 0;
    while k < chans.len()
        invariant
            k <= chans.len(),
            out@ == chans@.take(k as int).map_values(|c: Channel| c.value),
        decreases chans.len() - k,
    {
        proof {
            assert(chans@.take(k + 1).map_values(|c: Channel| c.value) =~= chans@.take(k as int).map_values(
                |c: Channel| c.value,
            ).push(chans@[k as int].value));
        }
        out.push(chans[k].value);
        k = k + 1;
    }
    assert(chans@.take(k as int) =~= chans@);
    out
}

/// Recovers the payload hidden in a buffer: the length header from the first
/// channels, then that many bytes from the channels that follow.
pub fn extract(b: &Vec<u8>, m: Bitness) -> (r: Result<Vec<u8>, StegError>)
    ensures
        match decoding(b@, m) {
            Ok(_) => match read_payload(channel_bits(b@, m)) {
                Some(p) => r.is_ok() && r->Ok_0@ == p,
                None => r == Err::<Vec<u8>, StegError>(StegError::TruncatedPayload),
            },
            Err(e) => r == Err::<Vec<u8>, StegError>(StegError::Decode { offset: e as usize }),
        },
{
    let insns = match decode(b, m) {
        Ok(v) => v,
        Err(e) => return Err(e),
    };
    let chans = enumerate(b, m, &insns);
    let bits = channel_values(&chans);
    proof {
        let spans = spans_of(insns@);
        let starts = chans@.map_values(|c: Channel| c.start as int);
        assert(starts == channels(b@, m));
        assert(bits@ =~= channel_bits(b@, m)) by {
            assert forall|k: int| 0 <= k < bits@.len() implies bits@[k] == channel_bits(b@, m)[k] by {
                assert(channel_matches(b@, m, chans@[k], spans));
                assert(starts[k] == chans@[k].start as int);
            }
        }
    }
    unpack_payload(&bits)
}

/// Hides `payload` in a copy of the buffer: the channels, in order, take the
/// bits of its length header and then of its bytes; all other bytes stay.
#[verifier::rlimit(50)]
pub fn embed(b: &Vec<u8>, m: Bitness, payload: &Vec<u8>) -> (r: Result<Vec<u8>, StegError>)
    ensures
        match decoding(b@, m) {
            Ok(_) => if payload.len() <= MAX_PAYLOAD_LEN && HEADER_BITS + 8 * payload.len() <= channels(b@, m).len() {
                r.is_ok() && r->Ok_0@ == write_bits(b@, m, channels(b@, m), encoded_payload(payload@))
            } else {
                r == Err::<Vec<u8>, StegError>(StegError::CapacityExceeded {
                    requested: requested_bits(payload.len() as nat),
                    available: channels(b@, m).len() as usize,
                })
            },
            Err(e) => r == Err::<Vec<u8>, StegError>(StegError::Decode { offset: e as usize }),
        },
{
    let insns = match decode(b, m) {
        Ok(v) => v,
        Err(e) => return Err(e),
    };
    let chans = enumerate(b, m, &insns);
    let cap = chans.len();
    if payload.len() > MAX_PAYLOAD_LEN {
        let requested = if payload.len() <= (usize::MAX - HEADER_BITS) / 8 {
            HEADER_BITS + 8 * payload.len()
        } else {
            usize::MAX
        };
        return Err(StegError::CapacityExceeded { requested, available: cap });
    }
    let requested = HEADER_BITS + 8 * payload.len();
    if requested > cap {
        return Err(StegError::CapacityExceeded { requested, available: cap });
    }
    let w = payload_bits(payload);
    let ghost spans = spans_of(insns@);
    let ghost starts = channels(b@, m);
    let mut out = b.clone();
    assert(out@ =~= b@);
    proof {
        lemma_decoding_spans(b@, m, 0, spans);
        lemma_encoded_len(payload@);
    }
    let mut k: usize = 0;
    while k < w.len()
        invariant
            k <= w.len() <= chans.len(),
            w@ == encoded_payload(payload@),
            spans == spans_of(insns@),
            decoding(b@, m) == Ok::<Seq<(int, int)>, int>(spans),
            lists_channels(b@, m, spans, chans@),
            starts == channels(b@, m),
            starts == chans@.map_values(|c: Channel| c.start as int),
            forall|j: int| 0 <= j < spans.len() ==> insn_len(b@, m, #[trigger] spans[j].0) == spans[j].1 && spans[j].1 > 0,
            out@ == write_bits(b@, m, starts, w@.take(k as int)),
            out@.len() == b@.len(),
            forall|j: int, i: int|
                #![trigger chans@[j], out@[i]]
                k <= j < chans.len() && chans@[j].start <= i < chans@[j].end ==> out@[i] == b@[i],
        decreases w.len() - k,
    {
        let c = chans[k];
        let ghost pos = c.start as int;
        proof {
            assert(channel_matches(b@, m, chans@[k as int], spans));
            let n = insn_len(b@, m, pos);
            assert(spans[c.index as int].0 == pos);
            assert(n == spans[c.index as int].1);
            assert(agree_on(b@, out@, pos, pos + n)) by {
                assert forall|i: int| pos <= i < pos + n implies #[trigger] byte_at(b@, i) == byte_at(out@, i) by {
                    assert(chans@[k as int].start <= i < chans@[k as int].end);
                    assert(out@[i] == b@[i]);
                }
            }
            lemma_insn_local(b@, out@, m, pos);
            assert(starts[k as int] == pos);
            assert(is_channel(b@, m, pos)) by {
                assert(chans@.map_values(|c: Channel| c.start as int)[k as int] == pos);
                lemma_channel_starts_are_channels(b@, m, spans, spans.len() as int, k as int);
            }
            lemma_channel_shape(b@, m, pos);
            let o = opcode_index(b@, m, pos);
            assert(byte_at(b@, o) == byte_at(out@, o));
            assert(byte_at(b@, o + 1) == byte_at(out@, o + 1));
        }
        let ghost before = out@;
        encode_channel(&mut out, m, c, w[k]);
        proof {
            assert(w@.take(k + 1).drop_last() =~= w@.take(k as int));
            assert(out@ == set_bit(before, m, pos, w@[k as int]));
            assert forall|j: int, i: int|
                #![trigger chans@[j], out@[i]]
                k + 1 <= j < chans.len() && chans@[j].start <= i < chans@[j].end implies out@[i] == b@[i] by {
                assert(chans@[k as int].index < chans@[j].index);
                assert(channel_matches(b@, m, chans@[j], spans));
                lemma_spans_ordered(b@, m, spans, chans@[k as int].index as int, chans@[j].index as int);
                assert(before[i] == b@[i]);
                if channel_bit(before, m, pos) != w@[k as int] {
                    lemma_flip(before, m, pos);
                }
            }
        }
        k = k + 1;
    }
    assert(w@.take(k as int) =~= w@);
    Ok(out)
}

} // verus!
