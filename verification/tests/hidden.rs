use decoder_kernels::arithmetic::Arithmetic;
use decoder_kernels::shared::hidden::{
    add_residual_chunks, add_residual_rows, broadcast_scalar_bf16, broadcast_scalar_f32, broadcast_scalar_f32_chunks,
    chunk_rows_vrf, load_chunks, normalize_chunk_rows, normalize_replicated, normalize_rows, replicate,
    root_mean_square, root_mean_square_rows, rows_vrf, scalar_bf16_vrf, scale_chunks, scale_rows, spread_rows,
    store_chunk_rows, store_rows,
};
use decoder_kernels::tensor::Placement;

/// Single precision on the host, with the narrow formats as bit patterns.
struct Host {
    f8: Vec<f32>,
    f4: Vec<F8>,
}

fn host() -> Host {
    let f8 = (0..=255u8).map(f8_value).collect();
    let f4 = (0..16usize)
        .map(|code| F8(f8_bits(if code >= 8 { -F4_VALUES[code - 8] } else { F4_VALUES[code] })))
        .collect();
    Host { f8, f4 }
}

#[derive(Clone, Copy, Debug, PartialEq)]
struct Bf16(u16);

#[derive(Clone, Copy, Debug, PartialEq)]
struct F8(u8);

#[derive(Clone, Copy, Debug, PartialEq)]
struct F4(u8);

const F4_VALUES: [f32; 8] = [0.0, 0.5, 1.0, 1.5, 2.0, 3.0, 4.0, 6.0];

fn f8_value(bits: u8) -> f32 {
    let exponent = (bits >> 3) & 15;
    let mantissa = (bits & 7) as f32;
    let size = if exponent == 0 {
        mantissa / 512.0
    } else {
        (1.0 + mantissa / 8.0) * f32::powi(2.0, exponent as i32 - 7)
    };
    if bits & 128 != 0 {
        -size
    } else {
        size
    }
}

fn f8_bits(x: f32) -> u8 {
    let sign: u8 = if x < 0.0 { 128 } else { 0 };
    let size = x.abs();
    if size >= 448.0 {
        return sign | 0x7e;
    }
    let mut exponent = -6;
    while exponent < 8 && size >= f32::powi(2.0, exponent + 1) {
        exponent += 1;
    }
    let steps = (size / f32::powi(2.0, exponent - 3)).round_ties_even() as u32;
    if steps < 8 {
        return sign | steps as u8;
    }
    let (steps, exponent) = if steps == 16 { (8, exponent + 1) } else { (steps, exponent) };
    sign | (((exponent + 7) as u8) << 3) | (steps as u8 - 8)
}

fn bf16_bits(x: f32) -> u16 {
    let bits = x.to_bits();
    let rounded = bits + 0x7fff + ((bits >> 16) & 1);
    (rounded >> 16) as u16
}

fn erf64(x: f64) -> f64 {
    if x.abs() > 5.0 {
        return x.signum();
    }
    let mut term = x;
    let mut sum = x;
    let mut n = 0.0;
    while term.abs() > 1e-17 {
        n += 1.0;
        term *= -x * x / n;
        sum += term / (2.0 * n + 1.0);
    }
    sum * 2.0 / std::f64::consts::PI.sqrt()
}

impl Arithmetic for Host {
    type F32 = f32;
    type Bf16 = Bf16;
    type F8 = F8;
    type F4 = F4;

    fn constant(&self, digits: u64, places: u64) -> f32 {
        (digits as f64 / f64::powi(10.0, places as i32)) as f32
    }

    fn widen(&self, x: Bf16) -> f32 {
        f32::from_bits((x.0 as u32) << 16)
    }

    fn round(&self, x: f32) -> Bf16 {
        Bf16(bf16_bits(x))
    }

    fn widen8(&self, x: F8) -> f32 {
        self.f8[x.0 as usize]
    }

    fn round8(&self, x: f32) -> F8 {
        F8(f8_bits(x))
    }

    fn lookup(&self, x: F4) -> F8 {
        self.f4[x.0 as usize]
    }

    fn add(&self, x: f32, y: f32) -> f32 {
        x + y
    }

    fn sub(&self, x: f32, y: f32) -> f32 {
        x - y
    }

    fn mul(&self, x: f32, y: f32) -> f32 {
        x * y
    }

    fn div(&self, x: f32, y: f32) -> f32 {
        x / y
    }

    fn sqrt(&self, x: f32) -> f32 {
        x.sqrt()
    }

    fn erf(&self, x: f32) -> f32 {
        erf64(x as f64) as f32
    }

    fn sum(&self, x: &Vec<f32>) -> f32 {
        x.iter().sum()
    }

    fn max(&self, x: &Vec<f32>) -> f32 {
        x.iter().cloned().fold(f32::NEG_INFINITY, f32::max)
    }

    fn ring_sum(&self, x: &Vec<f32>) -> f32 {
        x.iter().sum()
    }

    fn contract(&self, x: &[f32], y: &[f32]) -> f32 {
        let mut total = 0.0;
        let mut i = 0;
        while i < x.len() {
            total += x[i] * y[i];
            i += 1;
        }
        total
    }

    fn contract_both(&self, w: &[f32], x: &[f32], y: &[f32]) -> f32 {
        let mut total = self.contract(w, x);
        let mut i = 0;
        while i < w.len() {
            total += w[i] * y[i];
            i += 1;
        }
        total
    }
}

fn narrow(x: &[f32]) -> Vec<Bf16> {
    x.iter().map(|v| Bf16(bf16_bits(*v))).collect()
}

fn wide(x: &[Bf16]) -> Vec<f32> {
    x.iter().map(|v| f32::from_bits((v.0 as u32) << 16)).collect()
}

/// A small generator of reproducible values.
struct Values(u64);

impl Values {
    fn next(&mut self) -> u32 {
        self.0 = self.0.wrapping_mul(6364136223846793005).wrapping_add(1442695040888963407);
        (self.0 >> 33) as u32
    }

    fn uniform(&mut self) -> f32 {
        self.next() as f32 / 1073741824.0 - 1.0
    }

    fn row(&mut self, n: usize) -> Vec<f32> {
        (0..n).map(|_| self.uniform()).collect()
    }
}

fn close(x: f32, y: f64, tolerance: f64) -> bool {
    (x as f64 - y).abs() <= tolerance
}

fn counting() -> Vec<u32> {
    (0..3840).collect()
}

fn norm_reference(x: &[f32], w: &[f32], eps: f64) -> Vec<f64> {
    let mean = x.iter().map(|v| (*v as f64) * (*v as f64)).sum::<f64>() / x.len() as f64;
    let rms = (mean + eps).sqrt();
    x.iter().zip(w.iter()).map(|(v, u)| *v as f64 / rms * *u as f64).collect()
}

#[test]
fn live_slices_are_evenly_spaced() {
    let place = Placement { clusters: 1, stride: 8, count: 32 };
    assert!(place.is_live(0));
    assert!(place.is_live(248));
    assert!(!place.is_live(4));
    assert!(!place.is_live(256));
    let both = Placement { clusters: 2, stride: 16, count: 16 };
    assert!(both.is_live(256 + 240));
    assert!(!both.is_live(512));
    assert!(!both.is_live(248));
}

#[test]
fn rms_of_a_constant_vector_is_its_magnitude() {
    let x = load_chunks(2, &narrow(&vec![-2.0; 3840]));
    let r = root_mean_square(&host(), 2, &x, 0.0);
    for p in 0..512 {
        if p % 256 < 32 {
            assert_eq!(r.rows[p], vec![2.0]);
        } else {
            assert!(r.rows[p].is_empty());
        }
    }
}

#[test]
fn rms_adds_epsilon_under_the_root() {
    let x = load_chunks(1, &narrow(&vec![0.0; 3840]));
    let r = root_mean_square(&host(), 1, &x, 0.25);
    assert_eq!(r.rows[7], vec![0.5]);
    let y = load_chunks(1, &narrow(&vec![3.0; 3840]));
    assert_eq!(root_mean_square(&host(), 1, &y, 7.0).rows[31], vec![4.0]);
}

#[test]
fn each_cluster_reduces_its_own_ring() {
    let mut x = load_chunks(2, &narrow(&vec![1.0; 3840]));
    for p in 256..288 {
        x.rows[p] = narrow(&vec![4.0; 120]);
    }
    let r = root_mean_square(&host(), 2, &x, 0.0);
    assert_eq!(r.rows[0], vec![1.0]);
    assert_eq!(r.rows[256], vec![4.0]);
}

#[test]
fn normalize_replicated_follows_the_formula_on_every_slice() {
    let mut values = Values(1);
    let x = narrow(&values.row(3840));
    let w = narrow(&values.row(3840));
    let r = normalize_replicated(&host(), 2, &x, &w, 1e-6);
    let want = norm_reference(&wide(&x), &wide(&w), 1e-6);
    let first = wide(&r.rows[0]);
    for h in 0..3840 {
        assert!(close(first[h], want[h], 0.01), "{} {} {}", h, first[h], want[h]);
    }
    for p in 0..512 {
        assert_eq!(r.rows[p], r.rows[0]);
    }
}

#[test]
fn normalize_replicated_on_one_cluster_leaves_the_other_empty() {
    let x = narrow(&vec![5.0; 3840]);
    let w = narrow(&vec![0.5; 3840]);
    let r = normalize_replicated(&host(), 1, &x, &w, 0.0);
    assert_eq!(wide(&r.rows[255]), vec![0.5; 3840]);
    for p in 256..512 {
        assert!(r.rows[p].is_empty());
    }
}

#[test]
fn replicate_gathers_the_chunks_in_order() {
    let r = replicate(2, &load_chunks(2, &counting()));
    for p in 0..512 {
        assert_eq!(r.rows[p], counting());
    }
}

#[test]
fn load_chunks_puts_chunk_g_on_slice_g() {
    let r = load_chunks(2, &counting());
    assert_eq!(r.rows[3], (360..480).collect::<Vec<u32>>());
    assert_eq!(r.rows[256 + 31], (3720..3840).collect::<Vec<u32>>());
    assert!(r.rows[32].is_empty());
}

#[test]
fn spread_rows_gives_every_ring_its_chunk() {
    let r = spread_rows(&counting());
    assert_eq!(r.rows[0], (0..120).collect::<Vec<u32>>());
    assert_eq!(r.rows[7], (0..120).collect::<Vec<u32>>());
    assert_eq!(r.rows[8], (120..240).collect::<Vec<u32>>());
    assert_eq!(r.rows[255], (3720..3840).collect::<Vec<u32>>());
    assert!(r.rows[256].is_empty());
}

#[test]
fn storing_a_spread_vector_gives_it_back() {
    let mut out: Vec<u32> = vec![0; 3840];
    store_rows(spread_rows(&counting()), &mut out);
    assert_eq!(out, counting());
}

#[test]
fn storing_chunks_gives_the_vector_back() {
    let mut out: Vec<u32> = vec![0; 3840];
    store_chunk_rows(load_chunks(1, &counting()), &mut out);
    assert_eq!(out, counting());
}

#[test]
fn eight_copies_give_the_root_mean_square_of_one() {
    let x = narrow(&vec![-2.0; 3840]);
    let copies = root_mean_square_rows(&host(), &spread_rows(&x), 0.0);
    let once = root_mean_square(&host(), 1, &load_chunks(1, &x), 0.0);
    assert_eq!(copies.rows[200], vec![2.0]);
    assert_eq!(copies.rows[200], once.rows[5]);
}

#[test]
fn both_layouts_normalize_alike() {
    let mut values = Values(2);
    let x = narrow(&values.row(3840));
    let w = narrow(&values.row(3840));
    let rows = normalize_rows(&host(), &spread_rows(&x), &w, 1e-6);
    let chunks = normalize_chunk_rows(&host(), &load_chunks(1, &x), &w, 1e-6);
    let mut first = narrow(&vec![0.0; 3840]);
    let mut second = narrow(&vec![0.0; 3840]);
    store_rows(rows, &mut first);
    store_chunk_rows(chunks, &mut second);
    let want = norm_reference(&wide(&x), &wide(&w), 1e-6);
    let (f, s) = (wide(&first), wide(&second));
    for h in 0..3840 {
        assert!(close(f[h], want[h], 0.01));
        assert!(close(s[h], want[h], 0.01));
    }
}

#[test]
fn residual_sums_round_to_bf16() {
    let x = narrow(&vec![256.0; 3840]);
    let one = narrow(&vec![1.0; 3840]);
    let three = narrow(&vec![3.0; 3840]);
    let rows = add_residual_rows(&host(), &spread_rows(&x), &one);
    assert_eq!(wide(&rows.rows[17])[5], 256.0);
    let chunks = add_residual_chunks(&host(), &load_chunks(1, &x), &three);
    assert_eq!(wide(&chunks.rows[17])[5], 260.0);
}

#[test]
fn residuals_meet_their_own_elements() {
    let mut values = Values(3);
    let x = narrow(&values.row(3840));
    let y = narrow(&values.row(3840));
    let mut out = narrow(&vec![0.0; 3840]);
    store_rows(add_residual_rows(&host(), &spread_rows(&x), &y), &mut out);
    let (u, v) = (wide(&x), wide(&y));
    for h in 0..3840 {
        assert_eq!(out[h], Bf16(bf16_bits(u[h] + v[h])));
    }
    let mut chunked = narrow(&vec![0.0; 3840]);
    store_chunk_rows(add_residual_chunks(&host(), &load_chunks(1, &x), &y), &mut chunked);
    assert_eq!(out, chunked);
}

#[test]
fn a_residual_can_be_exchanged_with_its_row() {
    let mut values = Values(4);
    let x = narrow(&values.row(3840));
    let y = narrow(&values.row(3840));
    let first = add_residual_rows(&host(), &spread_rows(&x), &y);
    let second = add_residual_rows(&host(), &spread_rows(&y), &x);
    assert_eq!(first.rows, second.rows);
    assert_eq!(first.rows[8], first.rows[15]);
    assert_ne!(first.rows[7], first.rows[8]);
}

#[test]
fn the_copies_of_a_chunk_stay_equal() {
    let mut values = Values(5);
    let x = narrow(&values.row(3840));
    let w = narrow(&values.row(3840));
    let rows = normalize_rows(&host(), &spread_rows(&x), &w, 1e-6);
    for p in 0..256 {
        assert_eq!(rows.rows[p], rows.rows[p / 8 * 8]);
    }
    let whole = normalize_replicated(&host(), 1, &x, &w, 1e-6);
    let want = wide(&whole.rows[100]);
    for h in 0..3840 {
        assert!(close(wide(&rows.rows[8 * (h / 120)])[h % 120], want[h] as f64, 0.01));
    }
}

#[test]
fn scalars_reach_every_slice() {
    let f = broadcast_scalar_f32(&vec![0.75f32]);
    assert_eq!(f.rows[0], vec![0.75]);
    assert_eq!(f.rows[255], vec![0.75]);
    assert!(f.rows[256].is_empty());
    let mut stored = vec![9.0; 8];
    stored[0] = 1.5;
    let b = broadcast_scalar_bf16(&host(), &narrow(&stored));
    assert_eq!(b.rows[100], vec![1.5]);
    let c = broadcast_scalar_f32_chunks(&vec![0.75f32]);
    assert_eq!(c.rows[31], vec![0.75]);
    assert!(c.rows[32].is_empty());
    let d = scalar_bf16_vrf(&host(), &narrow(&stored));
    assert_eq!(d.rows[31], vec![1.5]);
    assert!(d.rows[32].is_empty());
}

#[test]
fn scaling_multiplies_every_element() {
    let x = narrow(&vec![3.0; 3840]);
    let rows = scale_rows(&host(), &spread_rows(&x), &broadcast_scalar_f32(&vec![0.5]));
    assert_eq!(wide(&rows.rows[99]), vec![1.5; 120]);
    let chunks = scale_chunks(&host(), &load_chunks(1, &x), &broadcast_scalar_f32_chunks(&vec![-2.0]));
    assert_eq!(wide(&chunks.rows[9]), vec![-6.0; 120]);
}

#[test]
fn operands_are_widened() {
    let x = narrow(&vec![1.25; 3840]);
    assert_eq!(rows_vrf(&host(), &spread_rows(&x)).rows[64], vec![1.25; 120]);
    assert_eq!(chunk_rows_vrf(&host(), &load_chunks(1, &x)).rows[30], vec![1.25; 120]);
}

#[test]
fn bf16_rounds_to_even() {
    assert_eq!(wide(&narrow(&[257.0])), vec![256.0]);
    assert_eq!(wide(&narrow(&[259.0])), vec![260.0]);
    assert_eq!(wide(&[host().round(1.0)]), vec![1.0]);
}
