use steg86::{
    decode, embed, enumerate, extract, instruction_length, payload_bits, profile, unpack_payload,
    Bitness, StegError, HEADER_BITS,
};

/// Register-to-register instructions, each of which carries one channel.
fn channel_insns(count: usize) -> Vec<u8> {
    let forms: [&[u8]; 4] = [&[0x01, 0xd8], &[0x48, 0x89, 0xc8], &[0x4c, 0x01, 0xc0], &[0x30, 0xe4]];
    let mut out = Vec::new();
    for i in 0..count {
        out.extend_from_slice(forms[i % forms.len()]);
    }
    out
}

fn channel_values(b: &Vec<u8>, m: Bitness) -> Vec<bool> {
    let insns = decode(b, m).unwrap();
    enumerate(b, m, &insns).iter().map(|c| c.value).collect()
}

#[test]
fn bitness_from_width() {
    assert_eq!(Bitness::from_width(16), Ok(Bitness::Sixteen));
    assert_eq!(Bitness::from_width(32), Ok(Bitness::ThirtyTwo));
    assert_eq!(Bitness::from_width(64), Ok(Bitness::SixtyFour));
    assert_eq!(Bitness::from_width(8), Err(StegError::UnsupportedBitness));
    assert_eq!(Bitness::SixtyFour.width(), 64);
}

#[test]
fn lengths_of_operand_forms() {
    let cases: Vec<(Bitness, Vec<u8>, usize)> = vec![
        (Bitness::Sixteen, vec![0xb8, 0x34, 0x12], 3),
        (Bitness::ThirtyTwo, vec![0xb8, 0x78, 0x56, 0x34, 0x12], 5),
        (Bitness::ThirtyTwo, vec![0x66, 0xb8, 0x34, 0x12], 4),
        (Bitness::SixtyFour, vec![0x48, 0xb8, 1, 2, 3, 4, 5, 6, 7, 8], 10),
        (Bitness::SixtyFour, vec![0x8b, 0x04, 0x24], 3),
        (Bitness::SixtyFour, vec![0x8b, 0x05, 1, 2, 3, 4], 6),
        (Bitness::SixtyFour, vec![0x8b, 0x44, 0x24, 0x08], 4),
        (Bitness::Sixteen, vec![0x8b, 0x06, 0x34, 0x12], 4),
        (Bitness::ThirtyTwo, vec![0x0f, 0x84, 1, 2, 3, 4], 6),
        (Bitness::SixtyFour, vec![0xf6, 0xc0, 0x01], 3),
        (Bitness::SixtyFour, vec![0xf6, 0xd0], 2),
        (Bitness::SixtyFour, vec![0xa1, 1, 2, 3, 4, 5, 6, 7, 8], 9),
        (Bitness::SixtyFour, vec![0xc8, 0x10, 0x00, 0x00], 4),
        (Bitness::SixtyFour, vec![0xc3], 1),
        (Bitness::ThirtyTwo, vec![0x40], 1),
    ];
    for (m, bytes, len) in cases {
        assert_eq!(instruction_length(&bytes, m, 0), len, "{:02x?}", bytes);
    }
}

#[test]
fn rejects_unsupported_and_overrunning_instructions() {
    assert_eq!(instruction_length(&vec![0x06], Bitness::SixtyFour, 0), 0);
    assert_eq!(instruction_length(&vec![0x06], Bitness::ThirtyTwo, 0), 1);
    assert_eq!(instruction_length(&vec![0x89], Bitness::SixtyFour, 0), 0);
    assert_eq!(instruction_length(&vec![0x40], Bitness::SixtyFour, 0), 0);
    assert_eq!(instruction_length(&vec![0x66; 15], Bitness::SixtyFour, 0), 0);
}

#[test]
fn decode_partitions_the_buffer() {
    let b = vec![0x90, 0x48, 0x89, 0xd8, 0xc3];
    let insns = decode(&b, Bitness::SixtyFour).unwrap();
    let spans: Vec<(usize, usize)> = insns.iter().map(|i| (i.start, i.len)).collect();
    assert_eq!(spans, vec![(0, 1), (1, 3), (4, 1)]);
    assert_eq!(decode(&vec![], Bitness::SixtyFour).unwrap().len(), 0);
}

#[test]
fn enumerate_finds_register_forms_only() {
    // mov rax, rbx; mov eax, [rbx]; nop; add al, cl (direction set)
    let b = vec![0x48, 0x89, 0xd8, 0x8b, 0x03, 0x90, 0x02, 0xc1];
    let insns = decode(&b, Bitness::SixtyFour).unwrap();
    let chans = enumerate(&b, Bitness::SixtyFour, &insns);
    assert_eq!(chans.len(), 2);
    assert_eq!((chans[0].index, chans[0].start, chans[0].end, chans[0].opcode), (0, 0, 3, 1));
    assert!(chans[0].rex);
    assert!(!chans[0].value);
    assert_eq!((chans[1].index, chans[1].start, chans[1].end), (3, 6, 8));
    assert!(chans[1].value);
    assert_eq!(profile(&b, Bitness::SixtyFour), Ok(2));
}

#[test]
fn payload_bits_are_msb_first_after_header() {
    let bits = payload_bits(&vec![0x5a]);
    assert_eq!(bits.len(), HEADER_BITS + 8);
    let header: Vec<bool> = (0..16).map(|i| i == 15).collect();
    assert_eq!(bits[..16].to_vec(), header);
    assert_eq!(bits[16..].to_vec(), vec![false, true, false, true, true, false, true, false]);
    assert_eq!(unpack_payload(&bits), Ok(vec![0x5a]));
}

#[test]
fn unpack_rejects_short_or_overlong_headers() {
    assert_eq!(unpack_payload(&vec![false; 15]), Err(StegError::TruncatedPayload));
    let mut bits = vec![false; 16];
    bits[15] = true;
    assert_eq!(unpack_payload(&bits), Err(StegError::TruncatedPayload));
    assert_eq!(unpack_payload(&vec![false; 16]), Ok(vec![]));
}

#[test]
fn scenario_one_byte_payload() {
    let b = channel_insns(HEADER_BITS + 16);
    let m = Bitness::SixtyFour;
    assert_eq!(profile(&b, m), Ok(32));
    let out = embed(&b, m, &vec![0x5a]).unwrap();
    let vals = channel_values(&out, m);
    let expected = [false, true, false, true, true, false, true, false];
    assert_eq!(vals[HEADER_BITS..HEADER_BITS + 8].to_vec(), expected.to_vec());
    assert_eq!(extract(&out, m), Ok(vec![0x5a]));
}

#[test]
fn scenario_payload_over_capacity() {
    let b = channel_insns(HEADER_BITS + 16);
    assert_eq!(
        embed(&b, Bitness::SixtyFour, &vec![1, 2, 3]),
        Err(StegError::CapacityExceeded { requested: 40, available: 32 })
    );
}

#[test]
fn embed_rewrites_direction_and_registers() {
    // add eax, ebx written as 01 d8 becomes 03 c3; add rax, r8 as 4c 01 c0
    // becomes 49 03 c0.
    let m = Bitness::SixtyFour;
    let mut b = Vec::new();
    for _ in 0..16 {
        b.extend_from_slice(&[0x01, 0xd8]);
    }
    b.extend_from_slice(&[0x4c, 0x01, 0xc0]);
    let out = embed(&b, m, &vec![]).unwrap();
    assert_eq!(out[..32], b[..32]);
    assert_eq!(out[32..].to_vec(), vec![0x4c, 0x01, 0xc0]);
    let out = embed(&b, m, &vec![0x80]).unwrap_err();
    assert_eq!(out, StegError::CapacityExceeded { requested: 24, available: 17 });
    let mut b2 = b.clone();
    for _ in 0..7 {
        b2.extend_from_slice(&[0x4c, 0x01, 0xc0]);
    }
    let out = embed(&b2, m, &vec![0x80]).unwrap();
    assert_eq!(out[30..32].to_vec(), vec![0x03, 0xc3]);
    assert_eq!(out[32..35].to_vec(), vec![0x49, 0x03, 0xc0]);
    assert_eq!(out[35..38].to_vec(), vec![0x4c, 0x01, 0xc0]);
    assert_eq!(extract(&out, m), Ok(vec![0x80]));
}

#[test]
fn round_trip_keeps_length_capacity_and_other_bytes() {
    let m = Bitness::SixtyFour;
    let mut b = Vec::new();
    for i in 0..80usize {
        b.extend_from_slice(&[0x90, 0x48, 0x8b, 0x44, 0x24, 0x08]);
        if i % 2 == 0 {
            b.extend_from_slice(&[0x48, 0x8b, 0xc1]);
        } else {
            b.extend_from_slice(&[0x31, 0xd2]);
        }
    }
    let payload = b"hidden".to_vec();
    let cap = profile(&b, m).unwrap();
    assert_eq!(cap, 80);
    let out = embed(&b, m, &payload).unwrap();
    assert_eq!(out.len(), b.len());
    assert_eq!(profile(&out, m), Ok(cap));
    assert_eq!(profile(&b, m), Ok(cap));
    assert_eq!(extract(&out, m), Ok(payload));
    let insns = decode(&b, m).unwrap();
    let chans = enumerate(&b, m, &insns);
    for i in 0..b.len() {
        if !chans.iter().any(|c| c.start <= i && i < c.end) {
            assert_eq!(out[i], b[i], "byte {}", i);
        }
    }
    let out_insns = decode(&out, m).unwrap();
    assert_eq!(out_insns, insns);
}

#[test]
fn unused_channels_keep_their_values() {
    let m = Bitness::SixtyFour;
    let mut b = channel_insns(40);
    b.extend_from_slice(&[0x48, 0x8b, 0xc1]);
    let before = channel_values(&b, m);
    let out = embed(&b, m, &vec![0xff]).unwrap();
    let after = channel_values(&out, m);
    assert_eq!(after[24..], before[24..]);
}

#[test]
fn undecodable_input_fails_everywhere_at_one_offset() {
    let m = Bitness::SixtyFour;
    let mut b = channel_insns(20);
    let offset = b.len();
    b.push(0x06);
    b.extend_from_slice(&[0x01, 0xd8]);
    let err = StegError::Decode { offset };
    assert_eq!(profile(&b, m), Err(err));
    assert_eq!(embed(&b, m, &vec![1]), Err(err));
    assert_eq!(extract(&b, m), Err(err));
    let mut t = channel_insns(3);
    t.push(0x01);
    assert_eq!(profile(&t, m), Err(StegError::Decode { offset: 8 }));
}

#[test]
fn extract_from_plain_code_is_truncated() {
    let m = Bitness::SixtyFour;
    assert_eq!(extract(&channel_insns(10), m), Err(StegError::TruncatedPayload));
    let mut b = Vec::new();
    for _ in 0..20 {
        b.extend_from_slice(&[0x03, 0xc3]);
    }
    assert_eq!(extract(&b, m), Err(StegError::TruncatedPayload));
}

#[test]
fn sixteen_and_thirty_two_bit_modes() {
    for m in [Bitness::Sixteen, Bitness::ThirtyTwo] {
        let mut b = Vec::new();
        for _ in 0..24 {
            b.extend_from_slice(&[0x40, 0x89, 0xd8, 0x8b, 0x46, 0x10]);
        }
        assert_eq!(profile(&b, m), Ok(24));
        let out = embed(&b, m, &vec![0xa5]).unwrap();
        assert_eq!(extract(&out, m), Ok(vec![0xa5]));
    }
}

#[test]
fn error_messages_are_readable() {
    assert!(StegError::TruncatedPayload.message().contains("payload"));
    assert!(StegError::Decode { offset: 3 }.message().contains("undecodable"));
}
