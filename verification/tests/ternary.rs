use bitnet_rs::i2::{pack_codes, peak, unpack_wide};
use bitnet_rs::linear::{check_rows_fit, gather, linear_rows_q, row_shares};
use bitnet_rs::record::dot_record;
use bitnet_rs::{
    i2_matvec_parallel, linear, linear_row, linear_row_q, quantize_i2_s, quantize_i8,
    quantize_i8_blocks, row_bytes, vec_dot_i2_i8_s_1x1, Arith, I2Tensor, GROUP_SIZE, QK_I2_S,
};

struct Native;

fn f(bits: u32) -> f32 {
    f32::from_bits(bits)
}

impl Arith for Native {
    fn plus(&self, a: u32, b: u32) -> u32 {
        (f(a) + f(b)).to_bits()
    }
    fn minus(&self, a: u32, b: u32) -> u32 {
        (f(a) - f(b)).to_bits()
    }
    fn times(&self, a: u32, b: u32) -> u32 {
        (f(a) * f(b)).to_bits()
    }
    fn over(&self, a: u32, b: u32) -> u32 {
        (f(a) / f(b)).to_bits()
    }
    fn root(&self, a: u32) -> u32 {
        f(a).sqrt().to_bits()
    }
    fn exponential(&self, a: u32) -> u32 {
        f(a).exp().to_bits()
    }
    fn power(&self, a: u32, b: u32) -> u32 {
        f(a).powf(f(b)).to_bits()
    }
    fn sin_cos(&self, a: u32) -> (u32, u32) {
        let (s, c) = f(a).sin_cos();
        (s.to_bits(), c.to_bits())
    }
    fn total(&self, xs: &[u32]) -> u32 {
        xs.iter().map(|x| f(*x)).sum::<f32>().to_bits()
    }
    fn from_int(&self, v: i32) -> u32 {
        (v as f32).to_bits()
    }
    fn from_count(&self, v: u64) -> u32 {
        (v as f32).to_bits()
    }
    fn narrow(&self, v: u64) -> u32 {
        (f64::from_bits(v) as f32).to_bits()
    }
    fn floor(&self, a: u32) -> u32 {
        libm::floorf(f(a)).to_bits()
    }
    fn rint(&self, a: u32) -> u32 {
        libm::rintf(f(a)).to_bits()
    }
    fn to_i8(&self, a: u32) -> i8 {
        f(a) as i8
    }
}

fn bits(v: &[f32]) -> Vec<u32> {
    v.iter().map(|x| x.to_bits()).collect()
}

fn floats(v: &[u32]) -> Vec<f32> {
    v.iter().map(|x| f32::from_bits(*x)).collect()
}

fn pattern(n: usize) -> Vec<f32> {
    (0..n)
        .map(|j| match j % 3 {
            0 => 0.5,
            1 => -2.0,
            _ => 1e-7,
        })
        .collect()
}

#[test]
fn weights_become_ternary() {
    let t = quantize_i2_s(&bits(&pattern(128)));
    assert_eq!((t.n, t.packed.len(), QK_I2_S, GROUP_SIZE), (128, 32, 64, 16));
    assert_eq!(floats(&t.scales), vec![2.0, 2.0]);
    for i in 0..128 {
        assert_eq!(t.get_code(i), [1, -1, 0][i % 3]);
        assert_eq!(f(t.scale_of(i)), 2.0);
    }
    let back = floats(&t.dequantize(&Native));
    assert_eq!(&back[..3], &[2.0, -2.0, 0.0]);
}

#[test]
fn codes_lie_in_fields_of_two_bits() {
    let t = quantize_i2_s(&bits(&pattern(64)));
    for p in 0..16 {
        let mut byte = 0u8;
        for g in 0..4 {
            byte |= [2u8, 0, 1][(16 * g + p) % 3] << (6 - 2 * g);
        }
        assert_eq!(t.packed[p], byte);
    }
    assert_eq!(t.packed[0], 0b10_00_01_10);
}

#[test]
fn what_is_not_a_number_becomes_minus_one() {
    let mut w = vec![0.25f32; 64];
    w[5] = f32::NAN;
    w[6] = f32::INFINITY;
    let t = quantize_i2_s(&bits(&w));
    assert_eq!(t.get_code(5), -1);
    assert_eq!(t.get_code(6), 1);
    assert_eq!(f(t.scales[0]), f32::INFINITY);
}

#[test]
fn zeros_quantise_to_zero() {
    let t = quantize_i2_s(&bits(&[0.0; 64]));
    assert_eq!(t.packed, vec![0b01_01_01_01u8; 16]);
    assert_eq!(t.scales, vec![0]);
    assert_eq!(peak(&bits(&[f32::NAN])), 0);
}

#[test]
fn packing_loses_nothing() {
    let codes: Vec<u8> = (0..128).map(|i| (i * 7 % 3) as u8).collect();
    let packed = pack_codes(&codes);
    let t = I2Tensor::from_blocks(packed, bits(&[1.0, 1.0]));
    assert_eq!(t.n, 128);
    for i in 0..128 {
        assert_eq!(t.get_code(i), codes[i] as i8 - 1);
    }
}

#[test]
fn wide_groups_unpack() {
    let src: Vec<u8> = (0..32).map(|p| if p == 0 { 0b00_01_10_11 } else { 0b01_01_01_01 }).collect();
    let codes = unpack_wide(&src, 128);
    assert_eq!((codes[0], codes[32], codes[64], codes[96]), (0, 1, 2, 3));
    assert!(codes.iter().enumerate().all(|(i, c)| i % 32 == 0 || *c == 1));
}

#[test]
fn rows_are_slices() {
    let t = quantize_i2_s(&bits(&pattern(192)));
    assert_eq!(row_bytes(&t, 1, 64), &t.packed[16..32]);
    assert_eq!(row_bytes(&t, 2, 64), &t.packed[32..48]);
}

#[test]
fn short_rows_have_exact_products() {
    let t = quantize_i2_s(&bits(&pattern(128)));
    let y: Vec<i8> = (0..64).map(|i| i as i8 - 20).collect();
    let dots = vec_dot_i2_i8_s_1x1(64, &t.packed, &y, 2);
    for r in 0..2 {
        let exact: i32 = (0..64)
            .map(|j| (t.get_code(64 * r + j) as i32 + 1) * y[j] as i32)
            .sum();
        assert_eq!(dots[r], exact);
    }
    assert_eq!(vec_dot_i2_i8_s_1x1(64, &t.packed, &[1; 64], 1), vec![65]);
}

#[test]
fn less_than_a_block_counts_nothing() {
    assert_eq!(vec_dot_i2_i8_s_1x1(32, &[0xff; 8], &[1; 32], 1), vec![0]);
    assert_eq!(vec_dot_i2_i8_s_1x1(64, &[], &[1; 64], 0), Vec::<i32>::new());
}

#[test]
fn lanes_wrap_in_sixteen_bits() {
    let t = quantize_i2_s(&bits(&vec![1.0; 2048]));
    assert_eq!(vec_dot_i2_i8_s_1x1(2048, &t.packed, &[127; 2048], 1), vec![-4096]);
    assert_eq!(vec_dot_i2_i8_s_1x1(640, &t.packed, &[127; 640], 1), vec![640 * 254]);
    let two = quantize_i2_s(&bits(&vec![1.0; 2048 + 64]));
    let dots = vec_dot_i2_i8_s_1x1(2048 + 64, &two.packed, &[127; 2048 + 64], 1);
    assert_eq!(dots, vec![-4096 + 64 * 254]);
}

#[test]
fn activations_quantise_symmetrically() {
    let (q, scale) = quantize_i8(&Native, &bits(&[1.0, -2.0, 0.5, 0.0]));
    assert_eq!(q, vec![64, -127, 32, 0]);
    assert_eq!(f(scale), 2.0 / 127.0);
    let (q, scale) = quantize_i8(&Native, &bits(&[0.0, -0.0]));
    assert_eq!((q, f(scale)), (vec![0, 0], 1.0));
}

#[test]
fn halves_round_up() {
    let (q, scale) = quantize_i8(&Native, &bits(&[127.0, 2.5, -2.5, -0.5, 1.49]));
    assert_eq!(f(scale), 1.0);
    assert_eq!(q, vec![127, 3, -2, 0, 1]);
}

#[test]
fn blocks_have_their_own_scales() {
    let mut x = vec![1.0f32; 130];
    x[70] = 4.0;
    x[128] = 0.0;
    x[129] = 0.0;
    let (q, scales) = quantize_i8_blocks(&Native, &bits(&x));
    assert_eq!(q.len(), 130);
    assert_eq!(floats(&scales), vec![1.0 / 127.0, 4.0 / 127.0, 1.0]);
    assert_eq!((q[0], q[70], q[64], q[128]), (127, 127, 32, 0));
}

#[test]
fn a_block_is_quantised_alone() {
    let x: Vec<f32> = (0..150).map(|i| ((i * 17 % 41) as f32 - 20.0) / 3.0).collect();
    let x = bits(&x);
    let (q, scales) = quantize_i8_blocks(&Native, &x);
    for b in 0..3 {
        let end = (b * 64 + 64).min(150);
        let (p, s) = quantize_i8(&Native, &x[b * 64..end]);
        assert_eq!((&q[b * 64..end], scales[b]), (&p[..], s));
    }
}

#[test]
fn quantising_again_changes_nothing() {
    let mut w = pattern(128);
    w[7] = -0.25;
    w[9] = f32::NAN;
    let t = quantize_i2_s(&bits(&w));
    let u = quantize_i2_s(&t.dequantize(&Native));
    assert_eq!((u.packed, u.scales, u.n), (t.packed, t.scales, t.n));
}

#[test]
fn a_row_uses_codes_as_they_are() {
    let t = quantize_i2_s(&bits(&pattern(64)));
    let x = vec![1.0f32; 64];
    let got = f(linear(&Native, &t, &bits(&x)));
    assert_eq!(got, 65.0 * 127.0 * 2.0 * (1.0 / 127.0));
}

#[test]
fn bytes_and_scales_may_go_on() {
    let t = quantize_i2_s(&bits(&pattern(128)));
    let x = bits(&vec![1.0f32; 64]);
    let short = I2Tensor { packed: t.packed.clone(), scales: t.scales.clone(), n: 64 };
    let first = quantize_i2_s(&bits(&pattern(64)));
    assert_eq!(linear(&Native, &short, &x), linear(&Native, &first, &x));
    assert_eq!(short.dequantize(&Native), first.dequantize(&Native));
    let odd = I2Tensor { packed: t.packed, scales: t.scales, n: 70 };
    assert_eq!(odd.dequantize(&Native).len(), 70);
}

#[test]
fn a_row_of_a_matrix_makes_up_for_the_shift_of_the_codes() {
    let w: Vec<f32> = (0..256).map(|i| ((i * 37 % 11) as f32 - 5.0) / 5.0).collect();
    let t = quantize_i2_s(&bits(&w));
    let x: Vec<f32> = (0..128).map(|i| (i as f32 / 16.0).sin()).collect();
    let (y, s) = quantize_i8_blocks(&Native, &bits(&x));
    for row in 0..2 {
        let mut acc = 0f32;
        for b in 0..2 {
            let dot: i32 = (0..64)
                .map(|j| t.get_code(row * 128 + b * 64 + j) as i32 * y[b * 64 + j] as i32)
                .sum();
            acc += dot as f32 * f(t.scales[row * 2 + b]) * f(s[b]);
        }
        assert_eq!(f(linear_row(&Native, &t, row, 128, &bits(&x))), acc);
        assert_eq!(f(linear_row_q(&Native, &t, row, 128, &y, &s)), acc);
    }
}

#[test]
fn the_number_of_workers_makes_no_difference() {
    let w: Vec<f32> = (0..7 * 64).map(|i| (i as f32).cos()).collect();
    let t = quantize_i2_s(&bits(&w));
    let x = bits(&(0..64).map(|i| i as f32 - 30.0).collect::<Vec<f32>>());
    assert!(check_rows_fit(&t, 64, 64, 1));
    assert!(!check_rows_fit(&t, 65, 65, 2) && !check_rows_fit(&t, 0, 64, 1));
    assert!(!check_rows_fit(&t, 64, 63, 1));
    let one: Vec<u32> = (0..7).map(|r| linear_row(&Native, &t, r, 64, &x)).collect();
    for workers in 1..10 {
        assert_eq!(i2_matvec_parallel(&Native, &t, 64, &x, workers), one);
    }
    let (y, s) = quantize_i8_blocks(&Native, &x);
    assert_eq!(linear_rows_q(&Native, &t, 2, 5, 64, &y, &s), one[2..5].to_vec());
}

#[test]
fn shares_cover_the_rows() {
    assert_eq!(row_shares(7, 3), vec![(0, 3), (3, 6), (6, 7)]);
    assert_eq!(row_shares(6, 4), vec![(0, 2), (2, 4), (4, 6)]);
    assert_eq!(row_shares(2, 8), vec![(0, 1), (1, 2)]);
    assert_eq!(gather(&vec![vec![1, 2], vec![], vec![3]]), vec![1, 2, 3]);
}

#[test]
fn a_record_holds_its_parts() {
    let w = pattern(64);
    let mut a = vec![0.5f32; 64];
    a[1] = 127.0;
    a[2] = 1.5;
    let bytes = dot_record(&Native, &bits(&w), &bits(&a));
    let t = quantize_i2_s(&bits(&w));
    assert_eq!(bytes.len(), 28);
    assert_eq!(&bytes[..16], &t.packed[..]);
    assert_eq!(&bytes[16..20], &2f32.to_le_bytes());
    assert_eq!(&bytes[20..24], &127f32.to_le_bytes());
    assert_eq!(&bytes[24..28], &2f32.to_le_bytes());
}

#[test]
fn a_record_of_silence_has_scale_one() {
    let bytes = dot_record(&Native, &bits(&pattern(64)), &bits(&[0.0; 64]));
    assert_eq!(&bytes[20..24], &1f32.to_le_bytes());
    assert_eq!(&bytes[24..28], &0f32.to_le_bytes());
}
