use vstd::prelude::*;

use crate::decoder::{
    lemma_insn_len_bounds,
    byte_at, byte_or_zero, decoding, insn_len, is_decoding, is_legacy_prefix, is_legacy_prefix_byte, lemma_decoding_spans,
    lemma_insn_local, lemma_prefix_end_bounds, lemma_register_form_len, one_byte_form, opcode_index, prefix_end, span_of, spans_of, Form, Instruction,
};
use crate::mode::Bitness;

verus! {

broadcast use lemma_insn_len_bounds;

// The redundancy class: an ALU or MOV operation between two registers can be
// written with the direction bit (bit 1 of the opcode) clear, naming the
// destination in ModRM.rm, or set, naming it in ModRM.reg. Flipping the bit
// while swapping the two register fields (and REX.R with REX.B) gives the
// same operation in the same number of bytes. The direction bit is the
// channel's value.

/// Opcodes with a direction bit: `00..03`, `08..0b`, ..., `38..3b` and `88..8b`.
pub open spec fn is_direction_opcode(op: u8) -> bool {
    (op < 0x40 && op % 8 < 4) || (0x88 <= op && op <= 0x8b)
}

/// Whether the instruction at `pos` is a register-to-register operation with
/// a direction bit.
pub open spec fn is_channel(b: Seq<u8>, m: Bitness, pos: int) -> bool {
    let o = opcode_index(b, m, pos);
    insn_len(b, m, pos) > 0 && is_direction_opcode(byte_at(b, o)) && byte_at(b, o + 1) >= 0xc0
}

/// The bit that the channel at `pos` holds: its direction bit.
pub open spec fn channel_bit(b: Seq<u8>, m: Bitness, pos: int) -> bool {
    byte_at(b, opcode_index(b, m, pos)) % 4 >= 2
}

/// The starts of the channels among the first `k` spans, in order.
pub open spec fn channel_starts(b: Seq<u8>, m: Bitness, spans: Seq<(int, int)>, k: int) -> Seq<int>
    decreases k,
{
    if k <= 0 {
        Seq::empty()
    } else {
        let rest = channel_starts(b, m, spans, k - 1);
        if is_channel(b, m, spans[k - 1].0) {
            rest.push(spans[k - 1].0)
        } else {
            rest
        }
    }
}

/// The starts of all channels of a buffer that decodes, in canonical order.
pub open spec fn channels(b: Seq<u8>, m: Bitness) -> Seq<int> {
    match decoding(b, m) {
        Ok(s) => channel_starts(b, m, s, s.len() as int),
        Err(_) => Seq::empty(),
    }
}

/// The bits held by the channels at `starts`.
pub open spec fn bits_at(b: Seq<u8>, m: Bitness, starts: Seq<int>) -> Seq<bool> {
    starts.map_values(|s: int| channel_bit(b, m, s))
}

/// The bits held by all channels of a buffer, in canonical order.
pub open spec fn channel_bits(b: Seq<u8>, m: Bitness) -> Seq<bool> {
    bits_at(b, m, channels(b, m))
}

/// One place in the code that holds one bit.
#[derive(Clone, Copy, Debug, PartialEq, Eq, Structural)]
pub struct Channel {
    /// The instruction's position in the decoded sequence.
    pub index: usize,
    /// The byte span `[start, end)` of the instruction.
    pub start: usize,
    pub end: usize,
    /// The position of the opcode byte.
    pub opcode: usize,
    /// Whether a REX prefix stands just before the opcode.
    pub rex: bool,
    /// The bit the current encoding represents.
    pub value: bool,
}

/// Whether `c` describes the channel of the instruction with span `span`
/// at position `index`.
pub open spec fn channel_matches(b: Seq<u8>, m: Bitness, c: Channel, spans: Seq<(int, int)>) -> bool {
    &&& 0 <= c.index < spans.len()
    &&& c.start == spans[c.index as int].0
    &&& c.end == spans[c.index as int].0 + spans[c.index as int].1
    &&& c.opcode == opcode_index(b, m, c.start as int)
    &&& c.rex == (c.opcode == prefix_end(b, c.start as int) + 1)
    &&& c.value == channel_bit(b, m, c.start as int)
}

/// Whether `chans` lists exactly the channels of the decoding `spans`.
pub open spec fn lists_channels(b: Seq<u8>, m: Bitness, spans: Seq<(int, int)>, chans: Seq<Channel>) -> bool {
    &&& chans.map_values(|c: Channel| c.start as int) == channel_starts(b, m, spans, spans.len() as int)
    &&& forall|k: int| 0 <= k < chans.len() ==> channel_matches(b, m, #[trigger] chans[k], spans)
    &&& forall|j: int, k: int| 0 <= j < k < chans.len() ==> #[trigger] chans[j].index < #[trigger] chans[k].index
}

/// The ModRM byte with its `reg` and `rm` fields exchanged.
pub open spec fn swap_modrm(mr: u8) -> u8 {
    (0xc0 + (mr % 8) * 8 + (mr / 8) % 8) as u8
}

/// The REX byte with its `R` and `B` bits exchanged.
pub open spec fn swap_rex(x: u8) -> u8 {
    (x - 4 * ((x / 4) % 2) - x % 2 + 4 * (x % 2) + (x / 4) % 2) as u8
}

/// The opcode with its direction bit flipped.
pub open spec fn flip_opcode(op: u8) -> u8 {
    if op % 4 >= 2 {
        (op - 2) as u8
    } else {
        (op + 2) as u8
    }
}

/// The buffer with the instruction at `pos` re-encoded with the other
/// direction: the opcode's direction bit flipped and the two register
/// fields exchanged.
pub open spec fn flip_at(b: Seq<u8>, m: Bitness, pos: int) -> Seq<u8> {
    let p = prefix_end(b, pos);
    let o = opcode_index(b, m, pos);
    let b1 = b.update(o, flip_opcode(b[o])).update(o + 1, swap_modrm(b[o + 1]));
    if o == p + 1 {
        b1.update(p, swap_rex(b[p]))
    } else {
        b1
    }
}

/// The buffer with the channel at `pos` holding `v`.
pub open spec fn set_bit(b: Seq<u8>, m: Bitness, pos: int, v: bool) -> Seq<u8> {
    if channel_bit(b, m, pos) == v {
        b
    } else {
        flip_at(b, m, pos)
    }
}

/// The buffer with the channels at `starts` holding the bits `w`, one for one.
pub open spec fn write_bits(b: Seq<u8>, m: Bitness, starts: Seq<int>, w: Seq<bool>) -> Seq<u8>
    decreases w.len(),
{
    if w.len() == 0 {
        b
    } else {
        set_bit(write_bits(b, m, starts, w.drop_last()), m, starts[w.len() - 1], w.last())
    }
}

proof fn lemma_prefix_end_keep(b1: Seq<u8>, b2: Seq<u8>, i: int)
    requires
        0 <= i <= prefix_end(b1, i),
        b1.len() == b2.len(),
        forall|k: int| i <= k < prefix_end(b1, i) ==> #[trigger] b1[k] == b2[k],
        prefix_end(b1, i) < b1.len() ==> !is_legacy_prefix(b2[prefix_end(b1, i)]),
    ensures
        prefix_end(b2, i) == prefix_end(b1, i),
    decreases b1.len() - i,
{
    if 0 <= i < b1.len() && is_legacy_prefix(b1[i]) {
        lemma_prefix_end_bounds(b1, i + 1);
        assert(b1[i] == b2[i]);
        lemma_prefix_end_keep(b1, b2, i + 1);
    }
}

/// A channel instruction is its prefixes, its opcode and one ModRM byte.
pub proof fn lemma_channel_shape(b: Seq<u8>, m: Bitness, pos: int)
    requires
        is_channel(b, m, pos),
    ensures
        pos <= prefix_end(b, pos) <= opcode_index(b, m, pos),
        opcode_index(b, m, pos) <= prefix_end(b, pos) + 1,
        insn_len(b, m, pos) == opcode_index(b, m, pos) + 2 - pos,
        pos + insn_len(b, m, pos) <= b.len(),
{
    reveal(insn_len);
    lemma_insn_local(b, b, m, pos);
}

/// An instruction with a direction opcode has a ModRM byte after it.
pub proof fn lemma_direction_modrm(b: Seq<u8>, m: Bitness, pos: int)
    requires
        insn_len(b, m, pos) > 0,
        is_direction_opcode(byte_at(b, opcode_index(b, m, pos))),
    ensures
        opcode_index(b, m, pos) + 2 <= pos + insn_len(b, m, pos),
{
    reveal(insn_len);
    lemma_insn_local(b, b, m, pos);
}

proof fn lemma_flip_opcode(op: u8, m: Bitness)
    requires
        is_direction_opcode(op),
    ensures
        is_direction_opcode(flip_opcode(op)),
        one_byte_form(flip_opcode(op), m) == Form::ModRm,
        flip_opcode(op) != 0x0f,
        !is_legacy_prefix(flip_opcode(op)),
        !(0x40 <= flip_opcode(op) <= 0x4f),
        (flip_opcode(op) % 4 >= 2) == !(op % 4 >= 2),
{
}

proof fn lemma_swap_bytes(x: u8, mr: u8)
    ensures
        swap_modrm(mr) / 64 == 3,
        swap_modrm(mr) >= 0xc0,
        0x40 <= x <= 0x4f ==> 0x40 <= swap_rex(x) <= 0x4f && (swap_rex(x) / 8) % 2 == (x / 8) % 2,
{
}

/// Re-encoding a channel instruction changes only its own bytes, keeps its
/// length and its class, and flips the bit it holds.
pub proof fn lemma_flip(b: Seq<u8>, m: Bitness, pos: int)
    requires
        is_channel(b, m, pos),
    ensures
        flip_at(b, m, pos).len() == b.len(),
        forall|i: int| 0 <= i < b.len() && !(pos <= i < pos + insn_len(b, m, pos)) ==> #[trigger] flip_at(b, m, pos)[i] == b[i],
        insn_len(flip_at(b, m, pos), m, pos) == insn_len(b, m, pos),
        prefix_end(flip_at(b, m, pos), pos) == prefix_end(b, pos),
        opcode_index(flip_at(b, m, pos), m, pos) == opcode_index(b, m, pos),
        is_channel(flip_at(b, m, pos), m, pos),
        channel_bit(flip_at(b, m, pos), m, pos) == !channel_bit(b, m, pos),
{
    lemma_channel_shape(b, m, pos);
    let b2 = flip_at(b, m, pos);
    let p = prefix_end(b, pos);
    let o = opcode_index(b, m, pos);
    let op = b[o];
    let mr = b[o + 1];
    assert(forall|k: int| pos <= k < p ==> #[trigger] b[k] == b2[k]);
    lemma_prefix_end_keep(b, b2, pos);
    assert(b.subrange(pos, p) =~= b2.subrange(pos, p));
    let op2 = flip_opcode(op);
    lemma_flip_opcode(op, m);
    lemma_swap_bytes(b[p], mr);
    assert(byte_at(b2, o) == op2);
    assert(byte_at(b2, o + 1) == swap_modrm(mr));
    assert(opcode_index(b2, m, pos) == o);
    lemma_register_form_len(b2, m, pos);
}

/// Every listed channel start holds a channel.
pub proof fn lemma_channel_starts_are_channels(b: Seq<u8>, m: Bitness, spans: Seq<(int, int)>, n: int, k: int)
    requires
        0 <= k < channel_starts(b, m, spans, n).len(),
    ensures
        is_channel(b, m, channel_starts(b, m, spans, n)[k]),
    decreases n,
{
    if n > 0 {
        let rest = channel_starts(b, m, spans, n - 1);
        if k < rest.len() {
            lemma_channel_starts_are_channels(b, m, spans, n - 1, k);
        }
    }
}

/// Where the opcode of the instruction at `pos` stands.
pub(crate) fn opcode_position(b: &Vec<u8>, m: Bitness, pos: usize) -> (r: (usize, bool))
    requires
        insn_len(b@, m, pos as int) > 0,
    ensures
        r.0 == opcode_index(b@, m, pos as int),
        r.1 == (r.0 == prefix_end(b@, pos as int) + 1),
        r.0 < pos + insn_len(b@, m, pos as int),
        r.0 < b.len(),
{
    let mut p = pos;
    while p < b.len() && is_legacy_prefix_byte(b[p])
        invariant
            pos <= p <= b.len(),
            prefix_end(b@, p as int) == prefix_end(b@, pos as int),
        decreases b.len() - p,
    {
        p = p + 1;
    }
    if p < b.len() && m == Bitness::SixtyFour && 0x40 <= b[p] && b[p] <= 0x4f {
        (p + 1, true)
    } else {
        (p, false)
    }
}

/// The channel of the instruction at `pos`, if it has one.
fn channel_at(b: &Vec<u8>, m: Bitness, index: usize, pos: usize, len: usize) -> (r: Option<Channel>)
    requires
        len == insn_len(b@, m, pos as int),
        len > 0,
    ensures
        r is Some <==> is_channel(b@, m, pos as int),
        r matches Some(c) ==> c.index == index && c.start == pos && c.end == pos + len
            && c.opcode == opcode_index(b@, m, pos as int) && c.rex == (c.opcode == prefix_end(
            b@,
            pos as int,
        ) + 1) && c.value == channel_bit(
            b@,
            m,
            pos as int,
        ),
{
    let (o, rex) = opcode_position(b, m, pos);
    let op = b[o];
    let mr = byte_or_zero(b, o + 1);
    if ((op < 0x40 && op % 8 < 4) || (0x88 <= op && op <= 0x8b)) && mr >= 0xc0 {
        Some(Channel { index, start: pos, end: pos + len, opcode: o, rex, value: op % 4 >= 2 })
    } else {
        None
    }
}

/// Makes the channel `c` hold `bit`.
pub(crate) fn encode_channel(buf: &mut Vec<u8>, m: Bitness, c: Channel, bit: bool)
    requires
        is_channel(old(buf)@, m, c.start as int),
        c.opcode == opcode_index(old(buf)@, m, c.start as int),
        c.rex == (c.opcode == prefix_end(old(buf)@, c.start as int) + 1),
        c.value == channel_bit(old(buf)@, m, c.start as int),
    ensures
        final(buf)@ == set_bit(old(buf)@, m, c.start as int, bit),
{
    proof {
        lemma_channel_shape(buf@, m, c.start as int);
    }
    if c.value != bit {
        let o = c.opcode;
        assert(o + 2 <= buf.len());
        let op = buf[o];
        let mr = buf[o + 1];
        assert(op == byte_at(buf@, o as int));
        let op2: u8 = if op % 4 >= 2 { op - 2 } else { op + 2 };
        let mr2: u8 = 0xc0 + (mr % 8) * 8 + (mr / 8) % 8;
        buf.set(o, op2);
        buf.set(o + 1, mr2);
        if c.rex {
            let x = buf[o - 1];
            let x2: u8 = x - 4 * ((x / 4) % 2) - x % 2 + 4 * (x % 2) + (x / 4) % 2;
            buf.set(o - 1, x2);
        }
    }
}

/// The channels of a decoded buffer, in ascending offset order.
#[verifier::rlimit(50)]
pub fn enumerate(b: &Vec<u8>, m: Bitness, insns: &Vec<Instruction>) -> (r: Vec<Channel>)
    requires
        is_decoding(b@, m, insns@),
    ensures
        lists_channels(b@, m, spans_of(insns@), r@),
        r@.len() == channels(b@, m).len(),
{
    let ghost spans = spans_of(insns@);
    let mut out: Vec<Channel> = Vec::new();
    let mut k: usize = 0;
    proof {
        lemma_decoding_spans(b@, m, 0, spans);
    }
    while k < insns.len()
        invariant
            k <= insns.len(),
            spans == spans_of(insns@),
            is_decoding(b@, m, insns@),
            forall|j: int| 0 <= j < spans.len() ==> insn_len(b@, m, #[trigger] spans[j].0) == spans[j].1 && spans[j].1 > 0,
            out@.map_values(|c: Channel| c.start as int) == channel_starts(b@, m, spans, k as int),
            forall|j: int| 0 <= j < out@.len() ==> channel_matches(b@, m, #[trigger] out@[j], spans),
            forall|j: int| 0 <= j < out@.len() ==> #[trigger] out@[j].index < k,
            forall|j: int, i: int| 0 <= j < i < out@.len() ==> #[trigger] out@[j].index < #[trigger] out@[i].index,
        decreases insns.len() - k,
    {
        let ins = insns[k];
        assert(spans[k as int] == span_of(ins));
        assert(insn_len(b@, m, spans[k as int].0) == spans[k as int].1);
        match channel_at(b, m, k, ins.start, ins.len) {
            Some(c) => {
                assert(out@.push(c).map_values(|c: Channel| c.start as int) =~= out@.map_values(
                    |c: Channel| c.start as int,
                ).push(c.start as int));
                let ghost before = out@;
                out.push(c);
                assert forall|j: int, i: int| 0 <= j < i < out@.len() implies #[trigger] out@[j].index
                    < #[trigger] out@[i].index by {
                    if i < before.len() {
                        assert(out@[i] == before[i]);
                        assert(out@[j] == before[j]);
                    } else {
                        assert(out@[j] == before[j]);
                    }
                }
            },
            None => {},
        }
        k = k + 1;
    }
    proof {
        assert(channel_starts(b@, m, spans, spans.len() as int).len() == out@.map_values(|c: Channel| c.start as int).len());
    }
    out
}

} // verus!
