use vstd::prelude::*;

use crate::error::StegError;

verus! {

// A payload travels as a 16-bit length header followed by its bytes; every
// number is written most-significant bit first.

/// Bits of the length header.
pub const HEADER_BITS: usize = 16;

/// The longest payload the header can describe.
pub const MAX_PAYLOAD_LEN: usize = 65535;

pub open spec fn two_pow(n: nat) -> nat
    decreases n,
{
    if n == 0 {
        1
    } else {
        2 * two_pow((n - 1) as nat)
    }
}

/// The lowest `n` bits of `v`, most significant first.
pub open spec fn nat_bits(v: nat, n: nat) -> Seq<bool>
    decreases n,
{
    if n == 0 {
        Seq::empty()
    } else {
        nat_bits(v / 2, (n - 1) as nat).push(v % 2 == 1)
    }
}

/// The bits of the bytes of `p`, one byte after the other.
pub open spec fn data_bits(p: Seq<u8>) -> Seq<bool>
    decreases p.len(),
{
    if p.len() == 0 {
        Seq::empty()
    } else {
        data_bits(p.drop_last()) + nat_bits(p.last() as nat, 8)
    }
}

/// The bits that carry payload `p`: its length header, then its bytes.
pub open spec fn encoded_payload(p: Seq<u8>) -> Seq<bool> {
    nat_bits(p.len(), HEADER_BITS as nat) + data_bits(p)
}

/// The number written in `bits[from..from + n]`, most significant bit first.
pub open spec fn bits_value(bits: Seq<bool>, from: int, n: nat) -> nat
    decreases n,
{
    if n == 0 {
        0
    } else {
        2 * bits_value(bits, from, (n - 1) as nat) + if bits[from + n - 1] { 1nat } else { 0nat }
    }
}

/// The `count` bytes written from `bits[from]` on.
pub open spec fn unpack(bits: Seq<bool>, from: int, count: nat) -> Seq<u8>
    decreases count,
{
    if count == 0 {
        Seq::empty()
    } else {
        unpack(bits, from, (count - 1) as nat).push(
            bits_value(bits, from + 8 * (count - 1), 8) as u8,
        )
    }
}

/// The payload that a bit sequence declares and holds, or `None` where the
/// header is missing or declares more bytes than follow it.
pub open spec fn read_payload(bits: Seq<bool>) -> Option<Seq<u8>> {
    if bits.len() < HEADER_BITS {
        None
    } else {
        let l = bits_value(bits, 0, HEADER_BITS as nat);
        if HEADER_BITS + 8 * l <= bits.len() {
            Some(unpack(bits, HEADER_BITS as int, l))
        } else {
            None
        }
    }
}

/// A number depends only on the bits it is read from.
pub proof fn lemma_bits_value_local(a: Seq<bool>, fa: int, c: Seq<bool>, fc: int, n: nat)
    requires
        forall|i: int| 0 <= i < n ==> #[trigger] a[fa + i] == c[fc + i],
    ensures
        bits_value(a, fa, n) == bits_value(c, fc, n),
    decreases n,
{
    if n > 0 {
        lemma_bits_value_local(a, fa, c, fc, (n - 1) as nat);
        assert(a[fa + (n - 1)] == c[fc + (n - 1)]);
    }
}

pub proof fn lemma_bits_value_bound(bits: Seq<bool>, from: int, n: nat)
    ensures
        bits_value(bits, from, n) < two_pow(n),
    decreases n,
{
    if n > 0 {
        lemma_bits_value_bound(bits, from, (n - 1) as nat);
    }
}

/// Reading back the bits of a number gives the number.
pub proof fn lemma_nat_bits_value(v: nat, n: nat)
    requires
        v < two_pow(n),
    ensures
        nat_bits(v, n).len() == n,
        bits_value(nat_bits(v, n), 0, n) == v,
    decreases n,
{
    if n > 0 {
        let h = (v / 2) as nat;
        lemma_nat_bits_value(h, (n - 1) as nat);
        let s = nat_bits(v, n);
        let t = nat_bits(h, (n - 1) as nat);
        assert(s == t.push(v % 2 == 1));
        lemma_bits_value_local(s, 0, t, 0, (n - 1) as nat);
    }
}

pub proof fn lemma_data_bits(p: Seq<u8>)
    ensures
        data_bits(p).len() == 8 * p.len(),
        forall|i: int, j: int|
            0 <= i < p.len() && 0 <= j < 8 ==> data_bits(p)[8 * i + j] == #[trigger] nat_bits(
                p[i] as nat,
                8,
            )[j],
    decreases p.len(),
{
    if p.len() > 0 {
        let q = p.drop_last();
        lemma_data_bits(q);
        lemma_two_pow_values();
        lemma_nat_bits_value(p.last() as nat, 8);
        assert forall|i: int, j: int|
            0 <= i < p.len() && 0 <= j < 8 implies data_bits(p)[8 * i + j] == #[trigger] nat_bits(
            p[i] as nat,
            8,
        )[j] by {
            if i < q.len() {
                assert(q[i] == p[i]);
                assert(data_bits(q)[8 * i + j] == nat_bits(q[i] as nat, 8)[j]);
            }
        }
    }
}

/// The header and the payload's bytes take `16 + 8 * len` bits.
pub proof fn lemma_encoded_len(p: Seq<u8>)
    requires
        p.len() <= MAX_PAYLOAD_LEN,
    ensures
        encoded_payload(p).len() == HEADER_BITS + 8 * p.len(),
{
    lemma_two_pow_values();
    lemma_nat_bits_value(p.len(), HEADER_BITS as nat);
    lemma_data_bits(p);
}

/// The payload written by `encoded_payload` is read back from any bit
/// sequence that begins with it.
pub proof fn lemma_read_encoded(p: Seq<u8>, bits: Seq<bool>)
    requires
        p.len() <= MAX_PAYLOAD_LEN,
        bits.len() >= encoded_payload(p).len(),
        bits.subrange(0, encoded_payload(p).len() as int) == encoded_payload(p),
    ensures
        encoded_payload(p).len() == HEADER_BITS + 8 * p.len(),
        read_payload(bits) == Some(p),
{
    let e = encoded_payload(p);
    let h = nat_bits(p.len(), HEADER_BITS as nat);
    lemma_two_pow_values();
    lemma_nat_bits_value(p.len(), HEADER_BITS as nat);
    lemma_data_bits(p);
    let d = data_bits(p);
    assert forall|i: int| 0 <= i < HEADER_BITS implies #[trigger] bits[0 + i] == h[0 + i] by {
        assert(bits[i] == bits.subrange(0, e.len() as int)[i]);
        assert(e[i] == h[i]);
    }
    lemma_bits_value_local(bits, 0, h, 0, HEADER_BITS as nat);
    lemma_unpack_data(p, bits, p.len());
    assert(unpack(bits, HEADER_BITS as int, p.len()) =~= p);
}

proof fn lemma_unpack_data(p: Seq<u8>, bits: Seq<bool>, count: nat)
    requires
        count <= p.len() <= MAX_PAYLOAD_LEN,
        bits.len() >= encoded_payload(p).len(),
        bits.subrange(0, encoded_payload(p).len() as int) == encoded_payload(p),
        data_bits(p).len() == 8 * p.len(),
        forall|i: int, j: int|
            0 <= i < p.len() && 0 <= j < 8 ==> data_bits(p)[8 * i + j] == #[trigger] nat_bits(
                p[i] as nat,
                8,
            )[j],
    ensures
        unpack(bits, HEADER_BITS as int, count) == p.take(count as int),
    decreases count,
{
    if count > 0 {
        let k = count - 1;
        lemma_unpack_data(p, bits, k as nat);
        let e = encoded_payload(p);
        let h = nat_bits(p.len(), HEADER_BITS as nat);
        lemma_two_pow_values();
        lemma_nat_bits_value(p.len(), HEADER_BITS as nat);
        lemma_nat_bits_value(p[k] as nat, 8);
        let nb = nat_bits(p[k] as nat, 8);
        assert forall|j: int| 0 <= j < 8 implies #[trigger] bits[(HEADER_BITS + 8 * k) + j] == nb[0 + j] by {
            let x = HEADER_BITS + 8 * k + j;
            assert(bits[x] == bits.subrange(0, e.len() as int)[x]);
            assert(e[x] == data_bits(p)[8 * k + j]);
        }
        lemma_bits_value_local(bits, HEADER_BITS + 8 * k, nb, 0, 8);
        assert(p.take(count as int) =~= p.take(k as int).push(p[k]));
    }
}

/// Appends the lowest `n` bits of `v`, most significant first.
fn push_bits(out: &mut Vec<bool>, v: u32, n: u32)
    ensures
        final(out)@ == old(out)@ + nat_bits(v as nat, n as nat),
    decreases n,
{
    if n > 0 {
        push_bits(out, v / 2, n - 1);
        out.push(v % 2 == 1);
        proof {
            assert(nat_bits(v as nat, n as nat) == nat_bits((v / 2) as nat, (n - 1) as nat).push(v % 2 == 1));
        }
    }
}

/// The bits that carry `payload`: a 16-bit length header, then each byte,
/// most significant bit first.
pub fn payload_bits(payload: &Vec<u8>) -> (r: Vec<bool>)
    requires
        payload.len() <= MAX_PAYLOAD_LEN,
    ensures
        r@ == encoded_payload(payload@),
{
    let mut out: Vec<bool> = Vec::new();
    push_bits(&mut out, payload.len() as u32, HEADER_BITS as u32);
    let mut i: usize = 0;
    while i < payload.len()
        invariant
            i <= payload.len(),
            out@ == nat_bits(payload@.len(), HEADER_BITS as nat) + data_bits(payload@.take(i as int)),
        decreases payload.len() - i,
    {
        proof {
            assert(payload@.take(i + 1).drop_last() =~= payload@.take(i as int));
        }
        push_bits(&mut out, payload[i] as u32, 8);
        i = i + 1;
    }
    assert(payload@.take(i as int) =~= payload@);
    out
}

/// The number in `bits[from..from + n]`.
fn read_value(bits: &Vec<bool>, from: usize, n: usize) -> (r: u32)
    requires
        n <= HEADER_BITS,
        from + n <= bits.len(),
    ensures
        r == bits_value(bits@, from as int, n as nat),
{
    let mut v: u32 = 0;
    let mut i: usize = 0;
    proof {
        lemma_two_pow_values();
    }
    while i < n
        invariant
            i <= n <= HEADER_BITS,
            from + n <= bits.len(),
            two_pow(16) == 65536,
            v == bits_value(bits@, from as int, i as nat),
        decreases n - i,
    {
        proof {
            lemma_bits_value_bound(bits@, from as int, (i + 1) as nat);
            lemma_two_pow_mono((i + 1) as nat, 16);
        }
        v = 2 * v + if bits[from + i] { 1 } else { 0 };
        i = i + 1;
    }
    v
}

proof fn lemma_two_pow_values()
    ensures
        two_pow(8) == 256,
        two_pow(16) == 65536,
{
    reveal_with_fuel(two_pow, 17);
}

proof fn lemma_two_pow_mono(a: nat, b: nat)
    requires
        a <= b,
    ensures
        two_pow(a) <= two_pow(b),
    decreases b,
{
    if a < b {
        lemma_two_pow_mono(a, (b - 1) as nat);
    }
}

/// Reads the payload that `bits` declares in its header.
pub fn unpack_payload(bits: &Vec<bool>) -> (r: Result<Vec<u8>, StegError>)
    ensures
        match read_payload(bits@) {
            Some(p) => r.is_ok() && r->Ok_0@ == p,
            None => r == Err::<Vec<u8>, StegError>(StegError::TruncatedPayload),
        },
{
    if bits.len() < HEADER_BITS {
        return Err(StegError::TruncatedPayload);
    }
    let l = read_value(bits, 0, HEADER_BITS) as usize;
    if l > (bits.len() - HEADER_BITS) / 8 {
        return Err(StegError::TruncatedPayload);
    }
    let mut out: Vec<u8> = Vec::new();
    let mut k: usize = 0;
    while k < l
        invariant
            k <= l,
            HEADER_BITS + 8 * l <= bits.len(),
            out@ == unpack(bits@, HEADER_BITS as int, k as nat),
        decreases l - k,
    {
        proof {
            lemma_two_pow_values();
            lemma_bits_value_bound(bits@, HEADER_BITS + 8 * k, 8);
        }
        let byte = read_value(bits, HEADER_BITS + 8 * k, 8);
        out.push(byte as u8);
        k = k + 1;
    }
    Ok(out)
}

} // verus!
