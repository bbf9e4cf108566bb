use shogi_wasm::eval::features::N_FEATURES;
use shogi_wasm::eval::network::{Network, L0, NET_BYTES};

#[test]
fn roundtrip_bytes() {
    let mut net = Network::zeroed();
    net.ft_weight[0] = 123;
    net.ft_weight[N_FEATURES * L0 - 1] = -45;
    net.ft_bias[3] = 7;
    net.l1_weight[0][0] = 9;
    net.l1_bias[1] = 1000;
    net.l2_weight[5] = -3;
    net.l2_bias = 42;
    let bytes = net.to_bytes();
    let back = Network::from_bytes(&bytes).expect("loads");
    assert_eq!(back.ft_weight, net.ft_weight);
    assert_eq!(back.ft_bias, net.ft_bias);
    assert_eq!(back.l1_weight, net.l1_weight);
    assert_eq!(back.l1_bias, net.l1_bias);
    assert_eq!(back.l2_weight, net.l2_weight);
    assert_eq!(back.l2_bias, net.l2_bias);
}

#[test]
fn rejects_bad_magic() {
    let bytes = vec![0u8; 64];
    assert!(Network::from_bytes(&bytes).is_err());
}

#[test]
fn accumulator_cannot_overflow_i16_even_at_max_weight_and_max_active_features() {
    let ft_weight_clamp: f32 = 2.0;
    let ft_bias_clamp: f32 = 4.0;
    let ft_scale: f32 = 127.0;
    let max_w = (ft_weight_clamp * ft_scale) as i32;
    let max_b = (ft_bias_clamp * ft_scale) as i32;
    let worst = 40 * max_w + max_b;
    assert!(worst < i16::MAX as i32, "worst-case accumulator value {worst} would overflow i16");
}

#[test]
fn header_layout_and_refusals() {
    let net = Network::zeroed();
    let bytes = net.to_bytes();
    assert_eq!(bytes.len(), NET_BYTES);
    assert_eq!(&bytes[0..4], b"SNN1");
    assert_eq!(&bytes[4..8], &[1, 0, 0, 0]);
    assert_eq!(u32::from_le_bytes([bytes[12], bytes[13], bytes[14], bytes[15]]), 2344);
    assert_eq!(&bytes[16..20], &[128, 0, 16, 0]);
    let mut h: u32 = 2166136261;
    for &b in b"N=2344,L0=128,L1=16" {
        h ^= b as u32;
        h = h.wrapping_mul(16777619);
    }
    assert_eq!(u32::from_le_bytes([bytes[8], bytes[9], bytes[10], bytes[11]]), h);
    assert!(Network::from_bytes(&bytes[..31]).is_err());
    let mut wrong_version = bytes.clone();
    wrong_version[4] = 2;
    assert!(Network::from_bytes(&wrong_version).is_err());
    let mut wrong_hash = bytes.clone();
    wrong_hash[9] ^= 1;
    assert!(Network::from_bytes(&wrong_hash).is_err());
    let mut wrong_dims = bytes.clone();
    wrong_dims[16] = 64;
    assert!(Network::from_bytes(&wrong_dims).is_err());
}

#[test]
fn forward_on_known_weights() {
    let mut net = Network::zeroed();
    // One hidden unit reads the first input with weight 64: y = 100 * 64 = 6400, >> 6 = 100.
    net.l1_weight[0][0] = 64;
    net.l2_weight[0] = 127;
    let mut acc = [[0i16; 128]; 2];
    acc[0][0] = 100;
    // output = 100 * 127 = 12700; 12700 * 100 / 8128 = 156
    assert_eq!(net.forward(&acc), 156);
    net.l2_bias = -2_000_000;
    // (-2_000_000 + 12700) * 100 / 8128 rounds toward zero: -24450
    assert_eq!(net.forward(&acc), -24450);
    acc[0][0] = 300; // clipped to 127: 127 * 64 >> 6 = 127
    net.l2_bias = 0;
    assert_eq!(net.forward(&acc), 127 * 127 * 100 / 8128);
}

#[test]
fn truncated_or_garbage_net_files_are_rejected() {
    let b1 = vec![0u8; 64];
    assert!(Network::from_bytes(&b1).is_err());
    let full = Network::zeroed().to_bytes();
    let b2 = full[..1000].to_vec();
    assert!(Network::from_bytes(&b2).is_err());
    assert!(Network::from_bytes(&full).is_ok());
}
