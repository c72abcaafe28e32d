use ghostframe_transport::fec::{
    decode_parity_payload, generate_parity, recover_fragment, xor_payloads,
};

#[test]
fn xor_payloads_basic() {
    let a = &[0x0Fu8, 0xF0u8, 0xAAu8][..];
    let b = &[0xF0u8, 0x0Fu8, 0x55u8][..];
    let result = xor_payloads(&[a, b], 3);
    assert_eq!(result, vec![0xFF, 0xFF, 0xFF]);
}

#[test]
fn xor_payloads_zero_pads_shorter() {
    let a = &[0xFFu8, 0xFFu8, 0xFFu8][..];
    let b = &[0xFFu8][..];
    let result = xor_payloads(&[a, b], 3);
    assert_eq!(result, vec![0x00, 0xFF, 0xFF]);
}

#[test]
fn generate_parity_k4_eight_fragments() {
    let payloads: Vec<Vec<u8>> = (0u8..8).map(|i| vec![i * 10]).collect();
    let refs: Vec<&[u8]> = payloads.iter().map(|v| v.as_slice()).collect();

    let parity = generate_parity(&refs, 4);
    assert_eq!(parity.len(), 2);

    let (gs0, pp0) = &parity[0];
    assert_eq!(*gs0, 0u16);
    let (g_start, g_len, xor_data) = decode_parity_payload(pp0).unwrap();
    assert_eq!(g_start, 0);
    assert_eq!(g_len, 4);
    let expected_xor0 = 0u8 ^ 10 ^ 20 ^ 30;
    assert_eq!(xor_data, &[expected_xor0]);

    let (gs1, pp1) = &parity[1];
    assert_eq!(*gs1, 4u16);
    let (g_start1, g_len1, xor_data1) = decode_parity_payload(pp1).unwrap();
    assert_eq!(g_start1, 4);
    assert_eq!(g_len1, 4);
    let expected_xor1 = 40u8 ^ 50 ^ 60 ^ 70;
    assert_eq!(xor_data1, &[expected_xor1]);
}

#[test]
fn generate_parity_skips_group_of_one() {
    let payloads: Vec<Vec<u8>> = vec![vec![0xAB]];
    let refs: Vec<&[u8]> = payloads.iter().map(|v| v.as_slice()).collect();
    let parity = generate_parity(&refs, 4);
    assert!(parity.is_empty(), "group of 1 should produce no parity");
}

#[test]
fn generate_parity_trailing_short_group() {
    let payloads: Vec<Vec<u8>> = (0u8..5).map(|i| vec![i]).collect();
    let refs: Vec<&[u8]> = payloads.iter().map(|v| v.as_slice()).collect();
    let parity = generate_parity(&refs, 4);
    assert_eq!(parity.len(), 1, "only first group of 4 should produce parity");
    assert_eq!(parity[0].0, 0u16);
}

#[test]
fn recover_single_lost_fragment() {
    let frags: Vec<Vec<u8>> = vec![
        vec![0x01, 0x02],
        vec![0x03, 0x04],
        vec![0x05, 0x06],
        vec![0x07, 0x08],
    ];
    let refs: Vec<&[u8]> = frags.iter().map(|v| v.as_slice()).collect();

    let parity = generate_parity(&refs, 4);
    assert_eq!(parity.len(), 1);

    let (_, parity_payload) = &parity[0];
    let (_, _, xor_data) = decode_parity_payload(parity_payload).unwrap();

    let received: Vec<&[u8]> = vec![frags[0].as_slice(), frags[1].as_slice(), frags[3].as_slice()];
    let recovered = recover_fragment(&received, xor_data);

    assert_eq!(recovered, frags[2], "recovered fragment should match original");
}

#[test]
fn recover_first_fragment() {
    let frags: Vec<Vec<u8>> = vec![
        vec![0xDE, 0xAD],
        vec![0xBE, 0xEF],
        vec![0xCA, 0xFE],
        vec![0xBA, 0xBE],
    ];
    let refs: Vec<&[u8]> = frags.iter().map(|v| v.as_slice()).collect();

    let parity = generate_parity(&refs, 4);
    let (_, parity_payload) = &parity[0];
    let (_, _, xor_data) = decode_parity_payload(parity_payload).unwrap();

    let received: Vec<&[u8]> = vec![frags[1].as_slice(), frags[2].as_slice(), frags[3].as_slice()];
    let recovered = recover_fragment(&received, xor_data);

    assert_eq!(recovered, frags[0]);
}

#[test]
fn recover_with_variable_length_fragments() {
    let frags: Vec<Vec<u8>> = vec![
        vec![0x01],
        vec![0x02, 0x03],
        vec![0x04, 0x05, 0x06],
    ];
    let refs: Vec<&[u8]> = frags.iter().map(|v| v.as_slice()).collect();

    let parity = generate_parity(&refs, 3);
    assert_eq!(parity.len(), 1);

    let (_, parity_payload) = &parity[0];
    let (_, _, xor_data) = decode_parity_payload(parity_payload).unwrap();

    assert_eq!(xor_data, &[0x07, 0x06, 0x06]);

    let received: Vec<&[u8]> = vec![frags[1].as_slice(), frags[2].as_slice()];
    let recovered = recover_fragment(&received, xor_data);

    assert_eq!(recovered[0], 0x01, "first byte should match original fragment");
    assert_eq!(recovered[1], 0x00);
    assert_eq!(recovered[2], 0x00);
}

#[test]
fn decode_parity_payload_too_short() {
    assert!(decode_parity_payload(&[]).is_none());
    assert!(decode_parity_payload(&[0x00]).is_none());
    assert!(decode_parity_payload(&[0x00, 0x01]).is_none());
    assert!(decode_parity_payload(&[0x00, 0x01, 0x02]).is_some());
}

#[test]
fn empty_input() {
    let empty: Vec<&[u8]> = vec![];
    assert!(generate_parity(&empty, 4).is_empty());

    let payloads: Vec<Vec<u8>> = vec![vec![0x01], vec![0x02]];
    let refs: Vec<&[u8]> = payloads.iter().map(|v| v.as_slice()).collect();
    assert!(generate_parity(&refs, 0).is_empty());
}

#[test]
fn a_lost_fragment_is_recovered_in_any_order() {
    let frags: Vec<&[u8]> = vec![&[1, 2, 3], &[40], &[5, 60, 7, 8, 9], &[10, 11]];
    let parities = generate_parity(&frags, frags.len());
    assert_eq!(parities.len(), 1);
    let (_, _, xor) = decode_parity_payload(&parities[0].1).unwrap();
    for order in [[0, 2, 3], [3, 2, 0], [2, 0, 3]] {
        let received: Vec<&[u8]> = order.iter().map(|i| frags[*i]).collect();
        assert_eq!(recover_fragment(&received, xor), vec![40, 0, 0, 0, 0]);
    }
}
