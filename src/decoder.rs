use vstd::prelude::*;

use crate::error::StegError;
use crate::mode::Bitness;

verus! {

/// The operand bytes that follow an opcode.
#[derive(Clone, Copy, Debug, PartialEq, Eq, Structural)]
pub enum Form {
    Bare,
    Imm8,
    Imm16,
    ImmZ,
    ImmV,
    Moffs,
    Enter,
    ModRm,
    ModRmImm8,
    ModRmImmZ,
    Group3Imm8,
    Group3ImmZ,
    Unsupported,
}

/// One decoded instruction: where it starts and how many bytes it takes.
#[derive(Clone, Copy, Debug, PartialEq, Eq, Structural)]
pub struct Instruction {
    pub start: usize,
    pub len: usize,
}

/// The longest instruction the architecture allows.
pub const MAX_INSN_LEN: usize = 15;

/// The byte at `i`, or zero past either end.
pub open spec fn byte_at(b: Seq<u8>, i: int) -> u8 {
    if 0 <= i < b.len() {
        b[i]
    } else {
        0
    }
}

pub open spec fn is_legacy_prefix(x: u8) -> bool {
    x == 0x26 || x == 0x2e || x == 0x36 || x == 0x3e || x == 0x64 || x == 0x65 || x == 0x66
        || x == 0x67 || x == 0xf0 || x == 0xf2 || x == 0xf3
}

/// The first index at or after `i` that does not hold a legacy prefix.
pub open spec fn prefix_end(b: Seq<u8>, i: int) -> int
    decreases b.len() - i,
{
    if 0 <= i < b.len() && is_legacy_prefix(b[i]) {
        prefix_end(b, i + 1)
    } else {
        i
    }
}

pub open spec fn has_prefix(b: Seq<u8>, pos: int, end: int, x: u8) -> bool {
    b.subrange(pos, end).contains(x)
}

pub open spec fn is_rex(m: Bitness, x: u8) -> bool {
    m == Bitness::SixtyFour && 0x40 <= x <= 0x4f
}

/// Where the opcode of the instruction at `pos` stands.
pub open spec fn opcode_index(b: Seq<u8>, m: Bitness, pos: int) -> int {
    let p = prefix_end(b, pos);
    if is_rex(m, byte_at(b, p)) {
        p + 1
    } else {
        p
    }
}

/// The operand form of an opcode of the one-byte map (`0x0f` escapes to the
/// two-byte map and is not covered here).
pub open spec fn one_byte_form(op: u8, m: Bitness) -> Form {
    if op < 0x40 {
        if op == 0x0f || is_legacy_prefix(op) {
            Form::Unsupported
        } else if op % 8 < 4 {
            Form::ModRm
        } else if op % 8 == 4 {
            Form::Imm8
        } else if op % 8 == 5 {
            Form::ImmZ
        } else if m == Bitness::SixtyFour {
            Form::Unsupported
        } else {
            Form::Bare
        }
    } else if op < 0x50 {
        if m == Bitness::SixtyFour { Form::Unsupported } else { Form::Bare }
    } else if op < 0x60 {
        Form::Bare
    } else if op < 0x63 {
        if m == Bitness::SixtyFour || op == 0x62 { Form::Unsupported } else { Form::Bare }
    } else if op == 0x63 {
        Form::ModRm
    } else if op < 0x68 {
        Form::Unsupported
    } else if op == 0x68 {
        Form::ImmZ
    } else if op == 0x69 {
        Form::ModRmImmZ
    } else if op == 0x6a {
        Form::Imm8
    } else if op == 0x6b {
        Form::ModRmImm8
    } else if op < 0x70 {
        Form::Bare
    } else if op < 0x80 {
        Form::Imm8
    } else if op == 0x80 || op == 0x83 {
        Form::ModRmImm8
    } else if op == 0x81 {
        Form::ModRmImmZ
    } else if op == 0x82 {
        if m == Bitness::SixtyFour { Form::Unsupported } else { Form::ModRmImm8 }
    } else if op < 0x90 {
        Form::ModRm
    } else if op < 0xa0 {
        if op == 0x9a { Form::Unsupported } else { Form::Bare }
    } else if op < 0xa4 {
        Form::Moffs
    } else if op == 0xa8 {
        Form::Imm8
    } else if op == 0xa9 {
        Form::ImmZ
    } else if op < 0xb0 {
        Form::Bare
    } else if op < 0xb8 {
        Form::Imm8
    } else if op < 0xc0 {
        Form::ImmV
    } else if op < 0xc2 {
        Form::ModRmImm8
    } else if op == 0xc2 || op == 0xca {
        Form::Imm16
    } else if op == 0xc4 || op == 0xc5 {
        Form::Unsupported
    } else if op == 0xc6 {
        Form::ModRmImm8
    } else if op == 0xc7 {
        Form::ModRmImmZ
    } else if op == 0xc8 {
        Form::Enter
    } else if op == 0xcd {
        Form::Imm8
    } else if op < 0xd0 {
        Form::Bare
    } else if op < 0xd4 {
        Form::ModRm
    } else if op < 0xd6 {
        if m == Bitness::SixtyFour { Form::Unsupported } else { Form::Imm8 }
    } else if op == 0xd6 {
        Form::Unsupported
    } else if op == 0xd7 {
        Form::Bare
    } else if op < 0xe0 {
        Form::ModRm
    } else if op < 0xe8 {
        Form::Imm8
    } else if op < 0xea {
        Form::ImmZ
    } else if op == 0xea {
        Form::Unsupported
    } else if op == 0xeb {
        Form::Imm8
    } else if op < 0xf0 {
        Form::Bare
    } else if op == 0xf1 || op == 0xf4 || op == 0xf5 {
        Form::Bare
    } else if op == 0xf6 {
        Form::Group3Imm8
    } else if op == 0xf7 {
        Form::Group3ImmZ
    } else if op < 0xf8 {
        Form::Unsupported
    } else if op < 0xfe {
        Form::Bare
    } else {
        Form::ModRm
    }
}

/// The operand form of the opcode that follows a `0x0f` escape.
pub open spec fn two_byte_form(op: u8) -> Form {
    if op == 0x05 || op == 0x0b || op == 0x31 || op == 0xa2 || (0xc8 <= op && op < 0xd0) {
        Form::Bare
    } else if op == 0x1f || (0x40 <= op && op < 0x50) || (0x90 <= op && op < 0xa0) {
        Form::ModRm
    } else if 0x80 <= op && op < 0x90 {
        Form::ImmZ
    } else if op == 0xa3 || op == 0xa5 || op == 0xab || op == 0xad || op == 0xaf || op == 0xb0
        || op == 0xb1 || op == 0xb3 || op == 0xb6 || op == 0xb7 || op == 0xbb || op == 0xbe
        || op == 0xbf || op == 0xc0 || op == 0xc1 {
        Form::ModRm
    } else if op == 0xa4 || op == 0xac || op == 0xba {
        Form::ModRmImm8
    } else {
        Form::Unsupported
    }
}

/// The size of a "z" immediate: two bytes under a 16-bit operand size, else four.
pub open spec fn imm_z(m: Bitness, osz: bool) -> int {
    if (m == Bitness::Sixteen) != osz {
        2
    } else {
        4
    }
}

/// Whether memory operands use the 16-bit ModRM layout.
pub open spec fn addr16(m: Bitness, asz: bool) -> bool {
    (m == Bitness::Sixteen && !asz) || (m == Bitness::ThirtyTwo && asz)
}

/// The size of a direct memory offset.
pub open spec fn moffs_len(m: Bitness, asz: bool) -> int {
    if m == Bitness::SixtyFour {
        if asz { 4 } else { 8 }
    } else if addr16(m, asz) {
        2
    } else {
        4
    }
}

/// Bytes taken by a ModRM byte at `at` with its SIB byte and displacement.
pub open spec fn modrm_len(b: Seq<u8>, at: int, a16: bool) -> int {
    let mr = byte_at(b, at);
    let md = mr / 64;
    let rm = mr % 8;
    if md == 3 {
        1
    } else if a16 {
        if md == 0 {
            if rm == 6 { 3 } else { 1 }
        } else if md == 1 {
            2
        } else {
            3
        }
    } else {
        let sib = rm == 4;
        let base5 = sib && byte_at(b, at + 1) % 8 == 5;
        let disp = if md == 0 {
            if rm == 5 || base5 { 4int } else { 0int }
        } else if md == 1 {
            1int
        } else {
            4int
        };
        1 + (if sib { 1int } else { 0int }) + disp
    }
}

/// Bytes after the opcode for an operand form, or -1 for an unsupported form.
pub open spec fn tail_len(b: Seq<u8>, m: Bitness, at: int, f: Form, osz: bool, asz: bool, w: bool) -> int {
    let z = imm_z(m, osz);
    let a16 = addr16(m, asz);
    let reg = (byte_at(b, at) / 8) % 8;
    match f {
        Form::Bare => 0,
        Form::Imm8 => 1,
        Form::Imm16 => 2,
        Form::ImmZ => z,
        Form::ImmV => if w { 8 } else { z },
        Form::Moffs => moffs_len(m, asz),
        Form::Enter => 3,
        Form::ModRm => modrm_len(b, at, a16),
        Form::ModRmImm8 => modrm_len(b, at, a16) + 1,
        Form::ModRmImmZ => modrm_len(b, at, a16) + z,
        Form::Group3Imm8 => modrm_len(b, at, a16) + if reg < 2 { 1int } else { 0int },
        Form::Group3ImmZ => modrm_len(b, at, a16) + if reg < 2 { z } else { 0int },
        Form::Unsupported => -1,
    }
}

/// Bytes from the opcode at `o` to the end of the instruction, or -1.
pub open spec fn opcode_tail_len(b: Seq<u8>, m: Bitness, o: int, osz: bool, asz: bool, w: bool) -> int {
    let op = byte_at(b, o);
    if op == 0x0f {
        let t = tail_len(b, m, o + 2, two_byte_form(byte_at(b, o + 1)), osz, asz, w);
        if t < 0 { -1 } else { 2 + t }
    } else {
        let t = tail_len(b, m, o + 1, one_byte_form(op, m), osz, asz, w);
        if t < 0 { -1 } else { 1 + t }
    }
}

/// The length of the instruction that starts at `pos`, or 0 where no
/// instruction of the grammar starts there or it would run past the end.
#[verifier::opaque]
pub open spec fn insn_len(b: Seq<u8>, m: Bitness, pos: int) -> int {
    let p = prefix_end(b, pos);
    let o = opcode_index(b, m, pos);
    let osz = has_prefix(b, pos, p, 0x66);
    let asz = has_prefix(b, pos, p, 0x67);
    let w = o == p + 1 && (byte_at(b, p) / 8) % 2 == 1;
    let n = opcode_tail_len(b, m, o, osz, asz, w);
    if 0 <= pos < b.len() && n > 0 && o + n <= b.len() && o + n - pos <= MAX_INSN_LEN {
        o + n - pos
    } else {
        0
    }
}

pub(crate) fn is_legacy_prefix_byte(x: u8) -> (r: bool)
    ensures
        r == is_legacy_prefix(x),
{
    x == 0x26 || x == 0x2e || x == 0x36 || x == 0x3e || x == 0x64 || x == 0x65 || x == 0x66
        || x == 0x67 || x == 0xf0 || x == 0xf2 || x == 0xf3
}

proof fn lemma_push_contains(s: Seq<u8>, x: u8, v: u8)
    ensures
        s.push(x).contains(v) == (s.contains(v) || x == v),
{
    let t = s.push(x);
    if t.contains(v) {
        let k = choose|k: int| 0 <= k < t.len() && t[k] == v;
        if k < s.len() {
            assert(s[k] == v);
        }
    }
    if s.contains(v) {
        let k = choose|k: int| 0 <= k < s.len() && s[k] == v;
        assert(t[k] == v);
    }
    if x == v {
        assert(t[s.len() as int] == v);
    }
}

pub(crate) fn byte_or_zero(b: &Vec<u8>, i: usize) -> (r: u8)
    ensures
        r == byte_at(b@, i as int),
{
    if i < b.len() {
        b[i]
    } else {
        0
    }
}

fn one_byte_form_of(op: u8, m: Bitness) -> (r: Form)
    ensures
        r == one_byte_form(op, m),
{
    if op < 0x40 {
        if op == 0x0f || is_legacy_prefix_byte(op) {
            Form::Unsupported
        } else if op % 8 < 4 {
            Form::ModRm
        } else if op % 8 == 4 {
            Form::Imm8
        } else if op % 8 == 5 {
            Form::ImmZ
        } else if m == Bitness::SixtyFour {
            Form::Unsupported
        } else {
            Form::Bare
        }
    } else if op < 0x50 {
        if m == Bitness::SixtyFour { Form::Unsupported } else { Form::Bare }
    } else if op < 0x60 {
        Form::Bare
    } else if op < 0x63 {
        if m == Bitness::SixtyFour || op == 0x62 { Form::Unsupported } else { Form::Bare }
    } else if op == 0x63 {
        Form::ModRm
    } else if op < 0x68 {
        Form::Unsupported
    } else if op == 0x68 {
        Form::ImmZ
    } else if op == 0x69 {
        Form::ModRmImmZ
    } else if op == 0x6a {
        Form::Imm8
    } else if op == 0x6b {
        Form::ModRmImm8
    } else if op < 0x70 {
        Form::Bare
    } else if op < 0x80 {
        Form::Imm8
    } else if op == 0x80 || op == 0x83 {
        Form::ModRmImm8
    } else if op == 0x81 {
        Form::ModRmImmZ
    } else if op == 0x82 {
        if m == Bitness::SixtyFour { Form::Unsupported } else { Form::ModRmImm8 }
    } else if op < 0x90 {
        Form::ModRm
    } else if op < 0xa0 {
        if op == 0x9a { Form::Unsupported } else { Form::Bare }
    } else if op < 0xa4 {
        Form::Moffs
    } else if op == 0xa8 {
        Form::Imm8
    } else if op == 0xa9 {
        Form::ImmZ
    } else if op < 0xb0 {
        Form::Bare
    } else if op < 0xb8 {
        Form::Imm8
    } else if op < 0xc0 {
        Form::ImmV
    } else if op < 0xc2 {
        Form::ModRmImm8
    } else if op == 0xc2 || op == 0xca {
        Form::Imm16
    } else if op == 0xc4 || op == 0xc5 {
        Form::Unsupported
    } else if op == 0xc6 {
        Form::ModRmImm8
    } else if op == 0xc7 {
        Form::ModRmImmZ
    } else if op == 0xc8 {
        Form::Enter
    } else if op == 0xcd {
        Form::Imm8
    } else if op < 0xd0 {
        Form::Bare
    } else if op < 0xd4 {
        Form::ModRm
    } else if op < 0xd6 {
        if m == Bitness::SixtyFour { Form::Unsupported } else { Form::Imm8 }
    } else if op == 0xd6 {
        Form::Unsupported
    } else if op == 0xd7 {
        Form::Bare
    } else if op < 0xe0 {
        Form::ModRm
    } else if op < 0xe8 {
        Form::Imm8
    } else if op < 0xea {
        Form::ImmZ
    } else if op == 0xea {
        Form::Unsupported
    } else if op == 0xeb {
        Form::Imm8
    } else if op < 0xf0 {
        Form::Bare
    } else if op == 0xf1 || op == 0xf4 || op == 0xf5 {
        Form::Bare
    } else if op == 0xf6 {
        Form::Group3Imm8
    } else if op == 0xf7 {
        Form::Group3ImmZ
    } else if op < 0xf8 {
        Form::Unsupported
    } else if op < 0xfe {
        Form::Bare
    } else {
        Form::ModRm
    }
}

fn two_byte_form_of(op: u8) -> (r: Form)
    ensures
        r == two_byte_form(op),
{
    if op == 0x05 || op == 0x0b || op == 0x31 || op == 0xa2 || (0xc8 <= op && op < 0xd0) {
        Form::Bare
    } else if op == 0x1f || (0x40 <= op && op < 0x50) || (0x90 <= op && op < 0xa0) {
        Form::ModRm
    } else if 0x80 <= op && op < 0x90 {
        Form::ImmZ
    } else if op == 0xa3 || op == 0xa5 || op == 0xab || op == 0xad || op == 0xaf || op == 0xb0
        || op == 0xb1 || op == 0xb3 || op == 0xb6 || op == 0xb7 || op == 0xbb || op == 0xbe
        || op == 0xbf || op == 0xc0 || op == 0xc1 {
        Form::ModRm
    } else if op == 0xa4 || op == 0xac || op == 0xba {
        Form::ModRmImm8
    } else {
        Form::Unsupported
    }
}

fn modrm_length(b: &Vec<u8>, at: usize, a16: bool) -> (r: usize)
    requires
        at <= b.len(),
    ensures
        r == modrm_len(b@, at as int, a16),
        1 <= r <= 6,
{
    let mr = byte_or_zero(b, at);
    let md = mr / 64;
    let rm = mr % 8;
    if md == 3 {
        1
    } else if a16 {
        if md == 0 {
            if rm == 6 { 3 } else { 1 }
        } else if md == 1 {
            2
        } else {
            3
        }
    } else {
        let sib = rm == 4;
        let base5 = sib && byte_or_zero(b, at + 1) % 8 == 5;
        let disp: usize = if md == 0 {
            if rm == 5 || base5 { 4 } else { 0 }
        } else if md == 1 {
            1
        } else {
            4
        };
        1 + (if sib { 1 } else { 0 }) + disp
    }
}

/// Bytes after the opcode, or `None` for an unsupported form.
fn tail_length(b: &Vec<u8>, m: Bitness, at: usize, f: Form, osz: bool, asz: bool, w: bool) -> (r: Option<usize>)
    requires
        at <= b.len(),
    ensures
        match r {
            Some(n) => n == tail_len(b@, m, at as int, f, osz, asz, w) && n <= 14,
            None => tail_len(b@, m, at as int, f, osz, asz, w) == -1,
        },
{
    let z: usize = if (m == Bitness::Sixteen) != osz { 2 } else { 4 };
    let a16 = (m == Bitness::Sixteen && !asz) || (m == Bitness::ThirtyTwo && asz);
    let reg = (byte_or_zero(b, at) / 8) % 8;
    match f {
        Form::Bare => Some(0),
        Form::Imm8 => Some(1),
        Form::Imm16 => Some(2),
        Form::ImmZ => Some(z),
        Form::ImmV => Some(if w { 8 } else { z }),
        Form::Moffs => Some(
            if m == Bitness::SixtyFour {
                if asz { 4 } else { 8 }
            } else if a16 {
                2
            } else {
                4
            },
        ),
        Form::Enter => Some(3),
        Form::ModRm => Some(modrm_length(b, at, a16)),
        Form::ModRmImm8 => Some(modrm_length(b, at, a16) + 1),
        Form::ModRmImmZ => Some(modrm_length(b, at, a16) + z),
        Form::Group3Imm8 => Some(modrm_length(b, at, a16) + if reg < 2 { 1 } else { 0 }),
        Form::Group3ImmZ => Some(modrm_length(b, at, a16) + if reg < 2 { z } else { 0 }),
        Form::Unsupported => None,
    }
}

/// The length of the instruction that starts at `pos` under mode `m`, or 0
/// where no instruction of the supported grammar starts there or it would run
/// past the end of the buffer.
pub fn instruction_length(b: &Vec<u8>, m: Bitness, pos: usize) -> (r: usize)
    ensures
        r == insn_len(b@, m, pos as int),
        r <= MAX_INSN_LEN,
        r > 0 ==> pos + r <= b.len(),
{
    reveal(insn_len);
    if pos >= b.len() {
        return 0;
    }
    let mut p = pos;
    let mut osz = false;
    let mut asz = false;
    while p < b.len() && is_legacy_prefix_byte(b[p])
        invariant
            pos <= p <= b.len(),
            prefix_end(b@, p as int) == prefix_end(b@, pos as int),
            osz == has_prefix(b@, pos as int, p as int, 0x66),
            asz == has_prefix(b@, pos as int, p as int, 0x67),
        decreases b.len() - p,
    {
        proof {
            let s = b@.subrange(pos as int, p as int);
            assert(b@.subrange(pos as int, p + 1) =~= s.push(b@[p as int]));
            lemma_push_contains(s, b@[p as int], 0x66);
            lemma_push_contains(s, b@[p as int], 0x67);
        }
        if b[p] == 0x66 {
            osz = true;
        }
        if b[p] == 0x67 {
            asz = true;
        }
        p = p + 1;
    }
    assert(p as int == prefix_end(b@, p as int));
    if p >= b.len() || p - pos >= MAX_INSN_LEN {
        return 0;
    }
    let x = byte_or_zero(b, p);
    let rex = m == Bitness::SixtyFour && 0x40 <= x && x <= 0x4f;
    let o = if rex { p + 1 } else { p };
    let w = rex && (x / 8) % 2 == 1;
    if o >= b.len() {
        return 0;
    }
    let op = b[o];
    let t = if op == 0x0f {
        if o + 1 >= b.len() {
            return 0;
        }
        let op2 = byte_or_zero(b, o + 1);
        match tail_length(b, m, o + 2, two_byte_form_of(op2), osz, asz, w) {
            Some(t) => 2 + t,
            None => return 0,
        }
    } else {
        match tail_length(b, m, o + 1, one_byte_form_of(op, m), osz, asz, w) {
            Some(t) => 1 + t,
            None => return 0,
        }
    };
    if t <= b.len() - o && t <= MAX_INSN_LEN - (o - pos) {
        o + t - pos
    } else {
        0
    }
}

/// The spans `(start, length)` of the instructions from `pos` to the end of
/// the buffer, or the offset of the first one that does not decode.
pub open spec fn decode_from(b: Seq<u8>, m: Bitness, pos: int) -> Result<Seq<(int, int)>, int>
    decreases b.len() - pos,
{
    if pos < 0 || pos >= b.len() {
        Ok(Seq::empty())
    } else {
        let n = insn_len(b, m, pos);
        if n <= 0 || n > b.len() - pos {
            Err(pos)
        } else {
            match decode_from(b, m, pos + n) {
                Ok(rest) => Ok(seq![(pos, n)] + rest),
                Err(e) => Err(e),
            }
        }
    }
}

/// The decoding of a whole buffer.
pub open spec fn decoding(b: Seq<u8>, m: Bitness) -> Result<Seq<(int, int)>, int> {
    decode_from(b, m, 0)
}

pub open spec fn span_of(i: Instruction) -> (int, int) {
    (i.start as int, i.len as int)
}

pub open spec fn spans_of(v: Seq<Instruction>) -> Seq<(int, int)> {
    v.map_values(|i: Instruction| span_of(i))
}

pub open spec fn prepend(a: Seq<(int, int)>, r: Result<Seq<(int, int)>, int>) -> Result<Seq<(int, int)>, int> {
    match r {
        Ok(s) => Ok(a + s),
        Err(e) => Err(e),
    }
}

/// Whether `insns` is the decoding of `b` under `m`.
pub open spec fn is_decoding(b: Seq<u8>, m: Bitness, insns: Seq<Instruction>) -> bool {
    decoding(b, m) == Ok::<Seq<(int, int)>, int>(spans_of(insns))
}

/// An instruction lies inside the buffer, its opcode inside the instruction.
pub broadcast proof fn lemma_insn_len_bounds(b: Seq<u8>, m: Bitness, pos: int)
    ensures
        0 <= #[trigger] insn_len(b, m, pos) <= MAX_INSN_LEN,
        insn_len(b, m, pos) > 0 ==> 0 <= pos && pos + insn_len(b, m, pos) <= b.len() && pos <= prefix_end(
            b,
            pos,
        ) <= opcode_index(b, m, pos) < pos + insn_len(b, m, pos),
{
    reveal(insn_len);
    lemma_prefix_end_bounds(b, pos);
}

/// An instruction whose opcode takes a ModRM byte naming two registers is
/// its prefixes, its opcode and that byte.
pub proof fn lemma_register_form_len(b: Seq<u8>, m: Bitness, pos: int)
    requires
        0 <= pos < b.len(),
        byte_at(b, opcode_index(b, m, pos)) != 0x0f,
        one_byte_form(byte_at(b, opcode_index(b, m, pos)), m) == Form::ModRm,
        byte_at(b, opcode_index(b, m, pos) + 1) / 64 == 3,
        opcode_index(b, m, pos) + 2 <= b.len(),
        opcode_index(b, m, pos) + 2 - pos <= MAX_INSN_LEN,
    ensures
        insn_len(b, m, pos) == opcode_index(b, m, pos) + 2 - pos,
{
    reveal(insn_len);
}

/// Two buffers of one length that agree on `[lo, hi)` agree on `byte_at` there.
pub open spec fn agree_on(b1: Seq<u8>, b2: Seq<u8>, lo: int, hi: int) -> bool {
    &&& b1.len() == b2.len()
    &&& forall|i: int| lo <= i < hi ==> #[trigger] byte_at(b1, i) == byte_at(b2, i)
}

proof fn lemma_prefix_end_local(b1: Seq<u8>, b2: Seq<u8>, i: int, hi: int)
    requires
        0 <= i,
        agree_on(b1, b2, i, hi),
        prefix_end(b1, i) < hi,
    ensures
        prefix_end(b1, i) == prefix_end(b2, i),
    decreases b1.len() - i,
{
    lemma_prefix_end_bounds(b1, i);
    assert(byte_at(b1, i) == byte_at(b2, i));
    if 0 <= i < b1.len() && is_legacy_prefix(b1[i]) {
        lemma_prefix_end_local(b1, b2, i + 1, hi);
    }
}

pub proof fn lemma_prefix_end_bounds(b: Seq<u8>, i: int)
    ensures
        prefix_end(b, i) >= i,
    decreases b.len() - i,
{
    if 0 <= i < b.len() && is_legacy_prefix(b[i]) {
        lemma_prefix_end_bounds(b, i + 1);
    }
}

proof fn lemma_modrm_len_local(b1: Seq<u8>, b2: Seq<u8>, at: int, a16: bool)
    requires
        agree_on(b1, b2, at, at + modrm_len(b1, at, a16)),
    ensures
        modrm_len(b1, at, a16) == modrm_len(b2, at, a16),
        modrm_len(b1, at, a16) >= 1,
{
    assert(byte_at(b1, at) == byte_at(b2, at));
    let mr = byte_at(b1, at);
    if mr / 64 != 3 && !a16 && mr % 8 == 4 {
        assert(byte_at(b1, at + 1) == byte_at(b2, at + 1));
    }
}

proof fn lemma_tail_len_local(b1: Seq<u8>, b2: Seq<u8>, m: Bitness, at: int, f: Form, osz: bool, asz: bool, w: bool)
    requires
        tail_len(b1, m, at, f, osz, asz, w) >= 0,
        agree_on(b1, b2, at, at + tail_len(b1, m, at, f, osz, asz, w)),
    ensures
        tail_len(b1, m, at, f, osz, asz, w) == tail_len(b2, m, at, f, osz, asz, w),
{
    let a16 = addr16(m, asz);
    match f {
        Form::ModRm | Form::ModRmImm8 | Form::ModRmImmZ | Form::Group3Imm8 | Form::Group3ImmZ => {
            assert(byte_at(b1, at) == byte_at(b2, at));
            lemma_modrm_len_local(b1, b2, at, a16);
        },
        _ => {},
    }
}

/// The length of an instruction, where its prefixes end and where its opcode
/// stands depend only on the instruction's own bytes.
pub proof fn lemma_insn_local(b1: Seq<u8>, b2: Seq<u8>, m: Bitness, pos: int)
    requires
        insn_len(b1, m, pos) > 0,
        agree_on(b1, b2, pos, pos + insn_len(b1, m, pos)),
    ensures
        insn_len(b2, m, pos) == insn_len(b1, m, pos),
        prefix_end(b2, pos) == prefix_end(b1, pos),
        opcode_index(b2, m, pos) == opcode_index(b1, m, pos),
        pos <= prefix_end(b1, pos) <= opcode_index(b1, m, pos) < pos + insn_len(b1, m, pos),
{
    reveal(insn_len);
    let n = insn_len(b1, m, pos);
    let p = prefix_end(b1, pos);
    let o = opcode_index(b1, m, pos);
    lemma_prefix_end_bounds(b1, pos);
    lemma_prefix_end_local(b1, b2, pos, pos + n);
    assert(byte_at(b1, p) == byte_at(b2, p));
    assert(b1.subrange(pos, p) =~= b2.subrange(pos, p)) by {
        assert forall|i: int| 0 <= i < p - pos implies b1.subrange(pos, p)[i] == b2.subrange(pos, p)[i] by {
            assert(byte_at(b1, pos + i) == byte_at(b2, pos + i));
        }
    }
    let osz = has_prefix(b1, pos, p, 0x66);
    let asz = has_prefix(b1, pos, p, 0x67);
    let w = o == p + 1 && (byte_at(b1, p) / 8) % 2 == 1;
    assert(byte_at(b1, o) == byte_at(b2, o));
    let op = byte_at(b1, o);
    if op == 0x0f {
        assert(byte_at(b1, o + 1) == byte_at(b2, o + 1));
        lemma_tail_len_local(b1, b2, m, o + 2, two_byte_form(byte_at(b1, o + 1)), osz, asz, w);
    } else {
        lemma_tail_len_local(b1, b2, m, o + 1, one_byte_form(op, m), osz, asz, w);
    }
}

/// A successful decoding from `pos` partitions `[pos, b.len())` into
/// contiguous instructions, each as long as the grammar says.
pub proof fn lemma_decoding_spans(b: Seq<u8>, m: Bitness, pos: int, s: Seq<(int, int)>)
    requires
        0 <= pos,
        decode_from(b, m, pos) == Ok::<Seq<(int, int)>, int>(s),
    ensures
        s.len() == 0 <==> pos >= b.len(),
        s.len() > 0 ==> s[0].0 == pos && s[s.len() - 1].0 + s[s.len() - 1].1 == b.len(),
        forall|j: int| 0 <= j < s.len() ==> insn_len(b, m, #[trigger] s[j].0) == s[j].1 && s[j].1 > 0
            && pos <= s[j].0 && s[j].0 + s[j].1 <= b.len(),
        forall|j: int| 0 <= j < s.len() - 1 ==> #[trigger] s[j].0 + s[j].1 == s[j + 1].0,
    decreases b.len() - pos,
{
    if pos < b.len() {
        let n = insn_len(b, m, pos);
        let rest = decode_from(b, m, pos + n)->Ok_0;
        lemma_decoding_spans(b, m, pos + n, rest);
        assert(s == seq![(pos, n)] + rest);
        assert forall|j: int| 0 <= j < s.len() - 1 implies #[trigger] s[j].0 + s[j].1 == s[j + 1].0 by {
            if j > 0 {
                assert(s[j] == rest[j - 1]);
                assert(s[j + 1] == rest[j]);
            }
        }
        assert forall|j: int| 0 <= j < s.len() implies insn_len(b, m, #[trigger] s[j].0) == s[j].1 && s[j].1 > 0
            && pos <= s[j].0 && s[j].0 + s[j].1 <= b.len() by {
            if j > 0 {
                assert(s[j] == rest[j - 1]);
            }
        }
        if rest.len() > 0 {
            assert(s[s.len() - 1] == rest[rest.len() - 1]);
        }
    }
}

/// Spans of a successful decoding come in ascending order without overlap.
pub proof fn lemma_spans_ordered(b: Seq<u8>, m: Bitness, s: Seq<(int, int)>, i: int, j: int)
    requires
        decoding(b, m) == Ok::<Seq<(int, int)>, int>(s),
        0 <= i < j < s.len(),
    ensures
        s[i].0 + s[i].1 <= s[j].0,
    decreases j - i,
{
    lemma_decoding_spans(b, m, 0, s);
    if j > i + 1 {
        lemma_spans_ordered(b, m, s, i, j - 1);
        assert(s[j - 1].0 + s[j - 1].1 == s[j].0);
    } else {
        assert(s[i].0 + s[i].1 == s[i + 1].0);
    }
}

/// Decodes the whole buffer from offset 0, one instruction after the other.
pub fn decode(b: &Vec<u8>, m: Bitness) -> (r: Result<Vec<Instruction>, StegError>)
    ensures
        match decoding(b@, m) {
            Ok(s) => r.is_ok() && spans_of(r->Ok_0@) == s,
            Err(e) => r == Err::<Vec<Instruction>, StegError>(StegError::Decode { offset: e as usize }),
        },
{
    let mut acc: Vec<Instruction> = Vec::new();
    let mut pos: usize = 0;
    while pos < b.len()
        invariant
            pos <= b.len(),
            decoding(b@, m) == prepend(spans_of(acc@), decode_from(b@, m, pos as int)),
        decreases b.len() - pos,
    {
        let n = instruction_length(b, m, pos);
        if n == 0 {
            proof {
                assert(decode_from(b@, m, pos as int) == Err::<Seq<(int, int)>, int>(pos as int));
            }
            return Err(StegError::Decode { offset: pos });
        }
        proof {
            let x = (pos as int, n as int);
            let rest = decode_from(b@, m, pos + n);
            assert(decode_from(b@, m, pos as int) == prepend(seq![x], rest));
            let acc2 = acc@.push(Instruction { start: pos, len: n });
            assert(spans_of(acc2) =~= spans_of(acc@).push(x));
            match rest {
                Ok(s) => {
                    assert(spans_of(acc@) + (seq![x] + s) =~= spans_of(acc2) + s);
                },
                Err(_) => {},
            }
        }
        acc.push(Instruction { start: pos, len: n });
        pos = pos + n;
    }
    proof {
        assert(spans_of(acc@) + Seq::<(int, int)>::empty() =~= spans_of(acc@));
    }
    Ok(acc)
}

} // verus!
