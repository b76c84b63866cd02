use half::f16;
use rsllm::gguf::dequant::q5_k::{BYTES_PER_BLOCK, ELEMENTS_PER_BLOCK};
use rsllm::gguf::error::Error;

fn dequant_q5_k(src: &[u8], dst: &mut [f32]) -> Result<(), Error> {
    let mut out: Vec<u32> = dst.iter().map(|v| v.to_bits()).collect();
    let r = rsllm::gguf::dequant::q5_k::dequant_q5_k(src, &mut out);
    for (d, o) in dst.iter_mut().zip(out) {
        *d = f32::from_bits(o);
    }
    r
}


fn pack_scales(sc: [u8; 8], m: [u8; 8]) -> [u8; 12] {
    // Reuse Q4_K's pack logic (inverse of `q4_k_scale_min`).
    let mut q = [0u8; 12];
    q[..4].copy_from_slice(&sc[..4]);
    q[4..8].copy_from_slice(&m[..4]);
    for j in 4..8 {
        let sc_low = sc[j] & 0x0F;
        let sc_high = (sc[j] >> 4) & 0x03;
        let m_low = m[j] & 0x0F;
        let m_high = (m[j] >> 4) & 0x03;
        q[j + 4] = (m_low << 4) | sc_low;
        q[j - 4] |= sc_high << 6;
        q[j] |= m_high << 6;
    }
    q
}

/// Pack one Q5_K block.
/// `q5[i]` is the 5-bit value for element i (range 0..32).
fn pack_block(d: f32, dmin: f32, sc: [u8; 8], m: [u8; 8], q5: [u8; 256]) -> Vec<u8> {
    let mut out = f16::from_f32(d).to_le_bytes().to_vec();
    out.extend_from_slice(&f16::from_f32(dmin).to_le_bytes());
    out.extend_from_slice(&pack_scales(sc, m));

    // qh[32]: bit b of qh[l] is the high bit for some element. The
    // mapping follows the dequant loop: sub-block pair (2k, 2k+1) uses
    //   u1 = 1 << (2k)  → bit 2k for elements (2k)*32 + l
    //   u2 = 1 << (2k+1)→ bit 2k+1 for elements (2k+1)*32 + l
    // i.e. `l` is the byte index, the sub-block determines which bit.
    let mut qh = [0u8; 32];
    for k in 0..4 {
        for (l, slot) in qh.iter_mut().enumerate() {
            let lo_elem = (2 * k) * 32 + l;
            let hi_elem = (2 * k + 1) * 32 + l;
            if q5[lo_elem] >= 16 {
                *slot |= 1 << (2 * k);
            }
            if q5[hi_elem] >= 16 {
                *slot |= 1 << (2 * k + 1);
            }
        }
    }
    out.extend_from_slice(&qh);

    // qs[128]: low 4 bits of each element (same packing as Q4_K).
    let mut qs = [0u8; 128];
    for k in 0..4 {
        for l in 0..32 {
            let lo = q5[(2 * k) * 32 + l] & 0x0F;
            let hi = q5[(2 * k + 1) * 32 + l] & 0x0F;
            qs[k * 32 + l] = (hi << 4) | lo;
        }
    }
    out.extend_from_slice(&qs);
    out
}

#[test]
fn q5_k_block_size_matches_ds4_table() {
    assert_eq!(BYTES_PER_BLOCK, 176);
    assert_eq!(ELEMENTS_PER_BLOCK, 256);
}

#[test]
fn five_bit_range_zero_min() {
    // d = 1, dmin = 0; sc[j] = 1, m = 0; q5 covers 0..32.
    let sc = [1u8; 8];
    let m = [0u8; 8];
    let mut q5 = [0u8; 256];
    for (i, v) in q5.iter_mut().enumerate() {
        *v = (i % 32) as u8;
    }
    let block = pack_block(1.0, 0.0, sc, m, q5);
    let mut dst = vec![0.0f32; 256];
    dequant_q5_k(&block, &mut dst).unwrap();
    for i in 0..256 {
        let want = f32::from(q5[i]);
        let got = dst[i];
        assert!((got - want).abs() < 1e-2, "i={i}: got {got}, want {want}");
    }
}

#[test]
fn full_range_with_offset() {
    // d = 0.5, dmin = 0.5; sc[j] = 2, m[j] = 1.
    // real_scale = 1.0, real_min = 0.5; dst = q5 - 0.5.
    let block = pack_block(0.5, 0.5, [2u8; 8], [1u8; 8], [31u8; 256]);
    let mut dst = vec![0.0f32; 256];
    dequant_q5_k(&block, &mut dst).unwrap();
    for v in &dst {
        assert!((v - 30.5).abs() < 1e-2, "got {v}, want 30.5");
    }
}

#[test]
fn q5_k_wrong_src_size_errors() {
    let src = vec![0u8; 175];
    let mut dst = vec![0.0f32; 256];
    assert!(matches!(
        dequant_q5_k(&src, &mut dst),
        Err(Error::DequantSizeMismatch { .. })
    ));
}
