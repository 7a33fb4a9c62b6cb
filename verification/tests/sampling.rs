use bitnet_rs::ops::{greatest, relu2, rms_norm, softmax, to_single};
use bitnet_rs::rope::rotate;
use bitnet_rs::sampling::{
    argmax, check_can_sample, clock_seed, draw, pick, sample_token, sample_with_seed, scramble,
    token_probabilities, FALLBACK_SEED,
};
use bitnet_rs::gguf::RealBits;
use bitnet_rs::Arith;

struct Native;

fn f(bits: u32) -> f32 {
    f32::from_bits(bits)
}

impl Arith for Native {
    fn plus(&self, a: u32, b: u32) -> u32 {
        (f(a) + f(b)).to_bits()
    }
    fn minus(&self, a: u32, b: u32) -> u32 {
        (f(a) - f(b)).to_bits()
    }
    fn times(&self, a: u32, b: u32) -> u32 {
        (f(a) * f(b)).to_bits()
    }
    fn over(&self, a: u32, b: u32) -> u32 {
        (f(a) / f(b)).to_bits()
    }
    fn root(&self, a: u32) -> u32 {
        f(a).sqrt().to_bits()
    }
    fn exponential(&self, a: u32) -> u32 {
        f(a).exp().to_bits()
    }
    fn power(&self, a: u32, b: u32) -> u32 {
        f(a).powf(f(b)).to_bits()
    }
    fn sin_cos(&self, a: u32) -> (u32, u32) {
        let (s, c) = f(a).sin_cos();
        (s.to_bits(), c.to_bits())
    }
    fn total(&self, xs: &[u32]) -> u32 {
        xs.iter().map(|x| f(*x)).sum::<f32>().to_bits()
    }
    fn from_int(&self, v: i32) -> u32 {
        (v as f32).to_bits()
    }
    fn from_count(&self, v: u64) -> u32 {
        (v as f32).to_bits()
    }
    fn narrow(&self, v: u64) -> u32 {
        (f64::from_bits(v) as f32).to_bits()
    }
    fn floor(&self, a: u32) -> u32 {
        libm::floorf(f(a)).to_bits()
    }
    fn rint(&self, a: u32) -> u32 {
        libm::rintf(f(a)).to_bits()
    }
    fn to_i8(&self, a: u32) -> i8 {
        f(a) as i8
    }
}

fn bits(v: &[f32]) -> Vec<u32> {
    v.iter().map(|x| x.to_bits()).collect()
}

fn floats(v: &[u32]) -> Vec<f32> {
    v.iter().map(|x| f32::from_bits(*x)).collect()
}

#[test]
fn norms() {
    let x = [3.0f32, 4.0, 0.0];
    let out = floats(&rms_norm(&Native, &bits(&x), &bits(&[1.0, 2.0]), 1e-5f32.to_bits()));
    let inv = 1.0 / (25.0f32 / 3.0 + 1e-5).sqrt();
    assert_eq!(out, vec![3.0 * inv * 1.0, 4.0 * inv * 2.0]);
}

#[test]
fn activation_squares_what_is_positive() {
    assert_eq!(f(relu2(&Native, 3f32.to_bits())), 9.0);
    assert_eq!(f(relu2(&Native, (-3f32).to_bits())), 0.0);
    assert_eq!(f(relu2(&Native, f32::NAN.to_bits())), 0.0);
}

#[test]
fn greatest_skips_what_is_not_a_number() {
    assert_eq!(f(greatest(&bits(&[-1.0, f32::NAN, -0.5]))), -0.5);
    assert_eq!(f(greatest(&[])), f32::NEG_INFINITY);
    assert_eq!(f(greatest(&bits(&[f32::NAN]))), f32::NEG_INFINITY);
}

#[test]
fn softmax_shares() {
    let out = floats(&softmax(&Native, &bits(&[1.0, 1.0, f32::NEG_INFINITY])));
    assert_eq!(out, vec![0.5, 0.5, 0.0]);
    let v = [0.25f32, -1.0, 2.0];
    let exps: Vec<f32> = v.iter().map(|x| (x - 2.0).exp()).collect();
    let sum: f32 = exps.iter().sum();
    let want: Vec<f32> = exps.iter().map(|e| e / sum).collect();
    assert_eq!(floats(&softmax(&Native, &bits(&v))), want);
}

#[test]
fn doubles_become_singles() {
    assert_eq!(to_single(&Native, RealBits::Single(7)), 7);
    assert_eq!(f(to_single(&Native, RealBits::Double(0.1f64.to_bits()))), 0.1f32);
}

fn turned(v: &[f32], heads: usize, dim: usize, pos: usize, theta: f32) -> Vec<f32> {
    let mut v = v.to_vec();
    for h in 0..heads {
        let mut d = 0;
        while d < dim {
            let freq = 1.0 / theta.powf(d as f32 / dim as f32);
            let (s, c) = (pos as f32 * freq).sin_cos();
            let i = h * dim + d;
            let (a, b) = (v[i], v[i + 1]);
            v[i] = a * c - b * s;
            v[i + 1] = a * s + b * c;
            d += 2;
        }
    }
    v
}

#[test]
fn pairs_turn_by_their_angle() {
    let x: Vec<f32> = (0..9).map(|i| i as f32 - 3.5).collect();
    let mut v = bits(&x);
    rotate(&Native, &mut v, 5, 4, 2, 10000f32.to_bits());
    assert_eq!(floats(&v), turned(&x, 2, 4, 5, 10000.0));
    assert_eq!(f(v[8]), x[8]);
}

#[test]
fn position_zero_turns_nothing() {
    let x: Vec<f32> = vec![1.0, 2.0, 3.0, 4.0];
    let mut v = bits(&x);
    rotate(&Native, &mut v, 0, 4, 1, 10000f32.to_bits());
    assert_eq!(floats(&v), x);
}

#[test]
fn odd_heads_turn_into_the_next_one() {
    let x: Vec<f32> = (0..7).map(|i| (i as f32).sin()).collect();
    let mut v = bits(&x);
    rotate(&Native, &mut v, 3, 3, 2, 100f32.to_bits());
    assert_eq!(floats(&v), turned(&x, 2, 3, 3, 100.0));
}

#[test]
fn greedy_takes_the_last_of_the_greatest() {
    assert_eq!(argmax(&bits(&[1.0, 3.0, 2.0, 3.0, -1.0])), 3);
    assert_eq!(argmax(&bits(&[-0.0, 0.0])), 1);
    assert_eq!(argmax(&bits(&[0.0, -0.0])), 1);
    assert_eq!(argmax(&[]), 0);
    assert_eq!(argmax(&bits(&[f32::NAN])), 0);
    for temp in [0.0f32, -0.0, -1.0] {
        let logits = bits(&[1.0, 3.0, 2.0, 3.0, -1.0]);
        assert_eq!(sample_token(&Native, &logits, temp.to_bits()), 3);
        for seed in 0..5 {
            assert_eq!(sample_with_seed(&Native, &logits, temp.to_bits(), seed), 3);
        }
    }
    assert_eq!(sample_token(&Native, &[], 0), 0);
}

#[test]
fn what_can_be_sampled() {
    let nan = f32::NAN.to_bits();
    assert!(!check_can_sample(&[0, nan], 0));
    assert!(check_can_sample(&[nan], 0));
    assert!(check_can_sample(&[], 0));
    assert!(check_can_sample(&[0, nan], 1f32.to_bits()));
    assert!(!check_can_sample(&[], 1f32.to_bits()));
    assert!(!check_can_sample(&[], nan));
}

#[test]
fn seeds_are_scrambled() {
    let mut s = 42u64;
    s ^= s << 13;
    s ^= s >> 7;
    s ^= s << 17;
    assert_eq!(scramble(42), s);
    assert_eq!(f(draw(&Native, 42)), (s % 1_000_000_000) as f32 / 1_000_000_000.0);
    assert_eq!(clock_seed(None), FALLBACK_SEED);
    assert_eq!(clock_seed(Some((5u128 << 64) + 17)), 17);
}

#[test]
fn the_first_sum_that_reaches_the_number_is_picked() {
    let probs = bits(&[0.25, 0.25, 0.5]);
    assert_eq!(pick(&Native, &probs, 0f32.to_bits()), 0);
    assert_eq!(pick(&Native, &probs, 0.25f32.to_bits()), 0);
    assert_eq!(pick(&Native, &probs, 0.26f32.to_bits()), 1);
    assert_eq!(pick(&Native, &probs, 0.75f32.to_bits()), 2);
    assert_eq!(pick(&Native, &bits(&[0.1, 0.2]), 0.9f32.to_bits()), 1);
    assert_eq!(pick(&Native, &bits(&[f32::NAN, 0.2]), 0.0f32.to_bits()), 1);
}

#[test]
fn temperature_flattens() {
    let logits = [1.0f32, 2.0, 0.0];
    let weights: Vec<f32> = logits.iter().map(|l| ((l - 2.0) / 0.7).exp()).collect();
    let sum: f32 = weights.iter().sum();
    let want: Vec<f32> = weights.iter().map(|w| w / sum).collect();
    let got = token_probabilities(&Native, &bits(&logits), 0.7f32.to_bits());
    assert_eq!(floats(&got), want);
}

#[test]
fn samples_follow_the_seed() {
    let logits = bits(&[1.0, 2.0, 0.0, 1.5]);
    let temp = 0.7f32.to_bits();
    let probs = token_probabilities(&Native, &logits, temp);
    for seed in [1u64, 99, 12345678901234567] {
        let want = pick(&Native, &probs, draw(&Native, seed)) as u32;
        assert_eq!(sample_with_seed(&Native, &logits, temp, seed), want);
    }
}

#[test]
fn the_clock_gives_a_seed() {
    let sure = bits(&[f32::NEG_INFINITY, 5.0, f32::NEG_INFINITY]);
    for _ in 0..20 {
        let t = sample_token(&Native, &sure, 1f32.to_bits());
        assert!(t == 1 || t == 0);
    }
    let flat = bits(&[0.0; 64]);
    let mut seen = std::collections::HashSet::new();
    for _ in 0..20000 {
        seen.insert(sample_token(&Native, &flat, 1f32.to_bits()));
    }
    assert!(seen.len() > 1);
    assert!(seen.iter().all(|t| *t < 64));
}
