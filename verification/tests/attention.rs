use decoder_kernels::arithmetic::Arithmetic;
use decoder_kernels::device::qkv as lane_qkv;
use decoder_kernels::device::sao;
use decoder_kernels::device::sliding::output;
use decoder_kernels::device::sliding::qkv;
use decoder_kernels::sliding::output as wide_output;
use decoder_kernels::tensor::{Placement, SliceTensor};

/// Single precision on the host, with the narrow formats as bit patterns.
struct Host {
    f8: Vec<f32>,
    f4: Vec<F8>,
}

fn host() -> Host {
    let f8 = (0..=255u8).map(f8_value).collect();
    let f4 = (0..16usize)
        .map(|code| F8(f8_bits(if code >= 8 { -F4_VALUES[code - 8] } else { F4_VALUES[code] })))
        .collect();
    Host { f8, f4 }
}

#[derive(Clone, Copy, Debug, PartialEq)]
struct Bf16(u16);

#[derive(Clone, Copy, Debug, PartialEq)]
struct F8(u8);

#[derive(Clone, Copy, Debug, PartialEq)]
struct F4(u8);

const F4_VALUES: [f32; 8] = [0.0, 0.5, 1.0, 1.5, 2.0, 3.0, 4.0, 6.0];

fn f8_value(bits: u8) -> f32 {
    let exponent = (bits >> 3) & 15;
    let mantissa = (bits & 7) as f32;
    let size = if exponent == 0 {
        mantissa / 512.0
    } else {
        (1.0 + mantissa / 8.0) * f32::powi(2.0, exponent as i32 - 7)
    };
    if bits & 128 != 0 {
        -size
    } else {
        size
    }
}

fn f8_bits(x: f32) -> u8 {
    let sign: u8 = if x < 0.0 { 128 } else { 0 };
    let size = x.abs();
    if size >= 448.0 {
        return sign | 0x7e;
    }
    let mut exponent = -6;
    while exponent < 8 && size >= f32::powi(2.0, exponent + 1) {
        exponent += 1;
    }
    let steps = (size / f32::powi(2.0, exponent - 3)).round_ties_even() as u32;
    if steps < 8 {
        return sign | steps as u8;
    }
    let (steps, exponent) = if steps == 16 { (8, exponent + 1) } else { (steps, exponent) };
    sign | (((exponent + 7) as u8) << 3) | (steps as u8 - 8)
}

fn bf16_bits(x: f32) -> u16 {
    let bits = x.to_bits();
    let rounded = bits + 0x7fff + ((bits >> 16) & 1);
    (rounded >> 16) as u16
}

fn erf64(x: f64) -> f64 {
    if x.abs() > 5.0 {
        return x.signum();
    }
    let mut term = x;
    let mut sum = x;
    let mut n = 0.0;
    while term.abs() > 1e-17 {
        n += 1.0;
        term *= -x * x / n;
        sum += term / (2.0 * n + 1.0);
    }
    sum * 2.0 / std::f64::consts::PI.sqrt()
}

impl Arithmetic for Host {
    type F32 = f32;
    type Bf16 = Bf16;
    type F8 = F8;
    type F4 = F4;

    fn constant(&self, digits: u64, places: u64) -> f32 {
        (digits as f64 / f64::powi(10.0, places as i32)) as f32
    }

    fn widen(&self, x: Bf16) -> f32 {
        f32::from_bits((x.0 as u32) << 16)
    }

    fn round(&self, x: f32) -> Bf16 {
        Bf16(bf16_bits(x))
    }

    fn widen8(&self, x: F8) -> f32 {
        self.f8[x.0 as usize]
    }

    fn round8(&self, x: f32) -> F8 {
        F8(f8_bits(x))
    }

    fn lookup(&self, x: F4) -> F8 {
        self.f4[x.0 as usize]
    }

    fn add(&self, x: f32, y: f32) -> f32 {
        x + y
    }

    fn sub(&self, x: f32, y: f32) -> f32 {
        x - y
    }

    fn mul(&self, x: f32, y: f32) -> f32 {
        x * y
    }

    fn div(&self, x: f32, y: f32) -> f32 {
        x / y
    }

    fn sqrt(&self, x: f32) -> f32 {
        x.sqrt()
    }

    fn erf(&self, x: f32) -> f32 {
        erf64(x as f64) as f32
    }

    fn sum(&self, x: &Vec<f32>) -> f32 {
        x.iter().sum()
    }

    fn max(&self, x: &Vec<f32>) -> f32 {
        x.iter().cloned().fold(f32::NEG_INFINITY, f32::max)
    }

    fn ring_sum(&self, x: &Vec<f32>) -> f32 {
        x.iter().sum()
    }

    fn contract(&self, x: &[f32], y: &[f32]) -> f32 {
        let mut total = 0.0;
        let mut i = 0;
        while i < x.len() {
            total += x[i] * y[i];
            i += 1;
        }
        total
    }

    fn contract_both(&self, w: &[f32], x: &[f32], y: &[f32]) -> f32 {
        let mut total = self.contract(w, x);
        let mut i = 0;
        while i < w.len() {
            total += w[i] * y[i];
            i += 1;
        }
        total
    }
}

fn narrow(x: &[f32]) -> Vec<Bf16> {
    x.iter().map(|v| Bf16(bf16_bits(*v))).collect()
}

fn wide(x: &[Bf16]) -> Vec<f32> {
    x.iter().map(|v| f32::from_bits((v.0 as u32) << 16)).collect()
}

/// A small generator of reproducible values.
struct Values(u64);

impl Values {
    fn next(&mut self) -> u32 {
        self.0 = self.0.wrapping_mul(6364136223846793005).wrapping_add(1442695040888963407);
        (self.0 >> 33) as u32
    }

    fn uniform(&mut self) -> f32 {
        self.next() as f32 / 1073741824.0 - 1.0
    }

    fn row(&mut self, n: usize) -> Vec<f32> {
        (0..n).map(|_| self.uniform()).collect()
    }
}

fn close(x: f32, y: f64, tolerance: f64) -> bool {
    (x as f64 - y).abs() <= tolerance
}

/// A tensor with the rows of `f` on the slices that `live` picks.
fn placed<V>(live: impl Fn(usize) -> bool, f: impl Fn(usize) -> Vec<V>) -> SliceTensor<V> {
    SliceTensor { rows: (0..512).map(|p| if live(p) { f(p) } else { Vec::new() }).collect() }
}

fn everywhere<V>(f: impl Fn(usize) -> Vec<V>) -> SliceTensor<V> {
    placed(|_| true, f)
}

fn random_f8(values: &mut Values, n: usize) -> Vec<F8> {
    (0..n).map(|_| F8(f8_bits(values.uniform()))).collect()
}

fn doubles(x: &[Bf16]) -> Vec<f64> {
    wide(x).iter().map(|v| *v as f64).collect()
}

/// The product of one row of an f8 matrix with a vector.
fn row_product(w: &[F8], row: usize, x: &[f64]) -> f64 {
    let n = x.len();
    (0..n).map(|i| f8_value(w[row * n + i].0) as f64 * x[i]).sum()
}

fn rms(x: &[f64], eps: f64) -> f64 {
    (x.iter().map(|v| v * v).sum::<f64>() / x.len() as f64 + eps).sqrt()
}

struct Output {
    x: Vec<Bf16>,
    o: Vec<F8>,
    s: Vec<Bf16>,
    w: Vec<Bf16>,
    residual: Vec<Bf16>,
}

fn output_case() -> Output {
    let mut values = Values(21);
    Output {
        x: narrow(&values.row(4096)),
        o: random_f8(&mut values, 15728640),
        s: narrow(&values.row(3840).iter().map(|v| 0.5 + 0.25 * v).collect::<Vec<f32>>()),
        w: narrow(&values.row(3840)),
        residual: narrow(&values.row(3840)),
    }
}

const EPS: f32 = 1e-6;

fn output_reference(case: &Output) -> Vec<f64> {
    let x = doubles(&case.x);
    let (s, w, r) = (doubles(&case.s), doubles(&case.w), doubles(&case.residual));
    let y: Vec<f64> = (0..3840).map(|h| row_product(&case.o, h, &x) * s[h]).collect();
    let n = rms(&y, EPS as f64);
    (0..3840).map(|h| r[h] + y[h] / n * w[h]).collect()
}

fn assert_near(got: &[Bf16], want: &[f64], tolerance: f64) {
    let got = wide(got);
    assert_eq!(got.len(), want.len());
    for i in 0..got.len() {
        assert!(close(got[i], want[i], tolerance), "{} {} {}", i, got[i], want[i]);
    }
}

#[test]
fn attention_output_follows_the_formula() {
    let case = output_case();
    let mut residual = case.residual.clone();
    output::attention_output(&host(), &case.x, &case.w, &case.o, &case.s, &mut residual, EPS);
    assert_near(&residual, &output_reference(&case), 0.03);
}

#[test]
fn attention_output_on_sixteen_slices_follows_the_formula() {
    let case = output_case();
    let mut residual = case.residual.clone();
    wide_output::attention_output(&host(), &case.x, &case.w, &case.o, &case.s, &mut residual, EPS);
    assert_near(&residual, &output_reference(&case), 0.03);
}

#[test]
fn raw_projection_with_a_row_scale_pass_agrees() {
    let case = output_case();
    let raw = sao::project_output_raw(&host(), &case.x, &case.o);
    let mut y: Vec<Bf16> = Vec::new();
    for g in 0..32 {
        assert_eq!(raw.rows[16 * g].len(), 120);
        y.extend_from_slice(&raw.rows[16 * g]);
    }
    assert!(raw.rows[1].is_empty());
    let t = sao::apply_row_scale(&host(), &y, &case.s);
    let mut residual = case.residual.clone();
    sao::norm_and_residual(&host(), &t, &case.w, &mut residual, EPS);
    assert_near(&residual, &output_reference(&case), 0.05);
}

#[test]
fn both_layouts_of_the_attention_output_agree() {
    let case = output_case();
    let (mut first, mut second) = (case.residual.clone(), case.residual.clone());
    output::attention_output(&host(), &case.x, &case.w, &case.o, &case.s, &mut first, EPS);
    wide_output::attention_output(&host(), &case.x, &case.w, &case.o, &case.s, &mut second, EPS);
    let (f, s, w) = (wide(&first), wide(&second), wide(&case.w));
    for h in 0..3840 {
        assert!((f[h] - s[h]).abs() <= f[h].abs() / 128.0 + 0.001 * w[h].abs());
    }
}

#[test]
fn attention_output_is_odd_in_the_context() {
    let case = output_case();
    let negated: Vec<Bf16> = narrow(&wide(&case.x).iter().map(|v| -v).collect::<Vec<f32>>());
    let mut plus = narrow(&vec![0.0; 3840]);
    let mut minus = plus.clone();
    output::attention_output(&host(), &case.x, &case.w, &case.o, &case.s, &mut plus, EPS);
    output::attention_output(&host(), &negated, &case.w, &case.o, &case.s, &mut minus, EPS);
    let want: Vec<f32> = wide(&plus).iter().map(|v| -v).collect();
    assert_eq!(wide(&minus), want);
    assert!(want.iter().any(|v| *v > 0.5));
}

#[test]
fn scaled_rows_are_near_the_product() {
    let case = output_case();
    let raw = sao::project_output_raw(&host(), &case.x, &case.o);
    let mut y: Vec<Bf16> = Vec::new();
    for g in 0..32 {
        y.extend_from_slice(&raw.rows[16 * g]);
    }
    let t = sao::apply_row_scale(&host(), &y, &case.s);
    let (x, s) = (doubles(&case.x), doubles(&case.s));
    let h = host();
    for row in (0..3840).step_by(97) {
        let terms: Vec<f64> = (0..4096).map(|q| h.widen8(case.o[4096 * row + q]) as f64 * x[q]).collect();
        let sum: f64 = terms.iter().sum();
        let weight: f64 = terms.iter().map(|v| v.abs()).sum();
        let got = wide(&t.rows[row / 120])[row % 120];
        assert!(close(got, s[row] * sum, s[row].abs() * weight / 128.0), "{} {} {}", row, got, s[row] * sum);
    }
}

#[test]
fn attention_output_of_nothing_is_the_residual() {
    let mut values = Values(22);
    let zero = narrow(&vec![0.0; 4096]);
    let one = narrow(&vec![1.0; 3840]);
    let o = random_f8(&mut values, 15728640);
    let before = narrow(&values.row(3840));
    let mut residual = before.clone();
    output::attention_output(&host(), &zero, &one, &o, &one, &mut residual, EPS);
    assert_eq!(residual, before);
}

#[test]
fn one_epsilon_is_shared_by_the_parts() {
    // Every element of the projection is 4096 * 0.25 = 1024; with the row scale 3 / 1024 it is 3.
    let x = narrow(&vec![1.0; 4096]);
    let o = vec![F8(f8_bits(0.25)); 15728640];
    let s = narrow(&vec![3.0 / 1024.0; 3840]);
    let one = narrow(&vec![1.0; 3840]);
    let mut residual = narrow(&vec![0.0; 3840]);
    output::attention_output(&host(), &x, &one, &o, &s, &mut residual, 7.0);
    assert_eq!(wide(&residual), vec![0.75; 3840]);
    let mut other = narrow(&vec![0.0; 3840]);
    wide_output::attention_output(&host(), &x, &one, &o, &s, &mut other, 7.0);
    assert_eq!(other, residual);
}

#[test]
fn raw_projection_keeps_the_factor_of_the_encoder() {
    let x = narrow(&vec![1.0; 4096]);
    let mut o = vec![F8(0); 15728640];
    for q in 0..4096 {
        o[4096 * 2000 + q] = F8(f8_bits(0.5));
    }
    let raw = sao::project_output_raw(&host(), &x, &o);
    assert_eq!(wide(&raw.rows[16 * 16])[80], 131072.0);
    assert_eq!(wide(&raw.rows[16 * 16])[79], 0.0);
    let lanes = sao::encode_hi_lo(&host(), &everywhere(|_| narrow(&vec![1.703125; 256])));
    assert_eq!(f8_value(lanes.rows[3][0].0), 112.0);
    assert_eq!(f8_value(lanes.rows[3][256].0), -3.0);
}

#[test]
fn row_scales_take_the_factor_out() {
    let r = sao::apply_row_scale(&host(), &narrow(&vec![128.0; 3840]), &narrow(&vec![1.5; 3840]));
    assert_eq!(wide(&r.rows[31]), vec![3.0; 120]);
    assert!(r.rows[32].is_empty());
}

#[test]
fn norm_and_residual_of_a_constant() {
    let t = placed(|p| p < 32, |_| narrow(&vec![5.0; 120]));
    let mut residual = narrow(&vec![2.0; 3840]);
    sao::norm_and_residual(&host(), &t, &narrow(&vec![0.5; 3840]), &mut residual, 0.0);
    assert_eq!(wide(&residual), vec![2.5; 3840]);
}

#[test]
fn halves_of_a_head_are_swapped_and_swapped_back() {
    let x = placed(|p| p == 64, |_| (0..256).collect::<Vec<u32>>());
    let r = qkv::rotate_half(&x);
    assert_eq!(r.rows[64][0], 128);
    assert_eq!(r.rows[64][128], 0);
    assert!(r.rows[0].is_empty());
    assert_eq!(qkv::rotate_half(&r).rows[64], x.rows[64]);
}

#[test]
fn head_rms_of_a_constant() {
    let x = placed(|p| p == 32, |_| narrow(&vec![3.0; 256]));
    let r = qkv::head_rms(&host(), &x, 7.0);
    assert_eq!(r.rows[32], vec![4.0]);
    assert!(r.rows[0].is_empty());
}

#[test]
fn coefficients_fold_the_weight_in() {
    let place = Placement { clusters: 2, stride: 64, count: 4 };
    let cos = everywhere(|_| narrow(&vec![2.0; 256]));
    let sin = everywhere(|_| narrow(&vec![-1.0; 256]));
    let weight: Vec<f32> = (0..256).map(|d| if d < 128 { 1.0 } else { 3.0 }).collect();
    let (a, b) = qkv::rope_coefficients(&host(), place, &cos, &sin, &narrow(&weight));
    assert_eq!(a.rows[64][0], 2.0);
    assert_eq!(a.rows[64][200], 6.0);
    assert_eq!(b.rows[64][0], -3.0);
    assert_eq!(b.rows[64][200], -1.0);
    assert!(a.rows[32].is_empty());
    let y = placed(|p| p == 0, |_| narrow(&vec![4.0; 256]));
    assert_eq!(qkv::multiply_to_vrf(&host(), &cos, &y).rows[0], vec![8.0; 256]);
}

#[test]
fn heads_are_scaled_and_rounded_once() {
    let x = placed(|p| p == 0, |_| vec![257.0f32; 256]);
    let scale = placed(|p| p == 0, |_| narrow(&vec![2.0; 256]));
    let unit = everywhere(|_| vec![0.5f32]);
    let r = qkv::scale_head(&host(), &x, &scale, &unit);
    assert_eq!(wide(&r.rows[0]), vec![256.0; 256]);
}

#[test]
fn a_head_is_normalized_and_turned() {
    let x = placed(|p| p == 0, |_| narrow(&vec![2.0; 256]));
    let a = everywhere(|_| vec![3.0f32; 256]);
    let b = everywhere(|_| (0..256).map(|d| if d < 128 { -1.0f32 } else { 1.0 }).collect());
    let r = qkv::normalize_and_rotate(&host(), &x, &a, &b, 0.0);
    let out = wide(&r.rows[0]);
    assert_eq!(out[0], 2.0);
    assert_eq!(out[255], 4.0);
}

#[test]
fn table_positions_are_byte_offsets() {
    let cos: Vec<u32> = (0..2560).collect();
    let sin: Vec<u32> = (10000..12560).collect();
    let r = qkv::rope_rows(&cos, &sin, 3 * 512);
    assert_eq!(r[..256], cos[768..1024]);
    assert_eq!(r[256..], sin[768..1024]);
    assert_eq!(qkv::rope_rows(&cos, &sin, 3 * 512 + 100), r);
    assert_eq!(qkv::rope_rows(&cos, &sin, 0)[0], 0);
    assert_eq!(qkv::rope_rows(&cos, &sin, 9 * 512)[511], 12559);
}

#[test]
fn key_rows_lie_eight_to_a_slice() {
    let w = placed(|p| p % 2 == 0, |p| vec![F8(f8_bits(if p == 10 { 2.0 } else { 1.0 })); 30720]);
    let x = everywhere(|_| vec![F8(f8_bits(1.0)); 3840]);
    assert_eq!(qkv::on_q_slices(&x).rows[4].len(), 3840);
    let r = qkv::project_kv(&host(), &w, &x);
    assert_eq!(r.rows[8], vec![3840.0; 8]);
    assert_eq!(r.rows[10], vec![7680.0; 8]);
    assert!(r.rows[9].is_empty());
}

struct Projection {
    x: Vec<Bf16>,
    q: Vec<F8>,
    k: Vec<F8>,
    v: Vec<F8>,
    qs: Vec<Bf16>,
    ks: Vec<Bf16>,
    vs: Vec<Bf16>,
    norm: Vec<Bf16>,
    qw: Vec<Bf16>,
    kw: Vec<Bf16>,
    cos: Vec<Bf16>,
    sin: Vec<Bf16>,
}

fn scales(values: &mut Values, n: usize) -> Vec<Bf16> {
    let row: Vec<f32> = values.row(n).iter().map(|v| 0.5 + 0.25 * v).collect();
    narrow(&row)
}

fn projection_case() -> Projection {
    let mut values = Values(31);
    let signs: Vec<f32> = values.row(3840).iter().map(|v| if *v < 0.0 { -1.5 } else { 1.5 }).collect();
    Projection {
        x: narrow(&signs),
        q: random_f8(&mut values, 15728640),
        k: random_f8(&mut values, 7864320),
        v: random_f8(&mut values, 7864320),
        qs: scales(&mut values, 4096),
        ks: scales(&mut values, 2048),
        vs: scales(&mut values, 2048),
        norm: narrow(&vec![1.0; 3840]),
        qw: narrow(&values.row(256)),
        kw: narrow(&values.row(256)),
        cos: narrow(&values.row(1024)),
        sin: narrow(&values.row(1024)),
    }
}

/// Head `j` of a projection in double precision.
fn head(w: &[F8], s: &[Bf16], x: &[f64], j: usize) -> Vec<f64> {
    let scale = doubles(s);
    (0..256).map(|d| row_product(w, 256 * j + d, x) * scale[256 * j + d]).collect()
}

/// The rotary embedding of a normalized and weighted head, with the low half of `sin` negated.
fn embedded(head: &[f64], w: &[f64], cos: &[f64], sin: &[f64]) -> Vec<f64> {
    let n = rms(head, EPS as f64);
    let y: Vec<f64> = (0..256).map(|d| head[d] * w[d] / n).collect();
    (0..256).map(|d| y[d] * cos[d] + y[(d + 128) % 256] * sin[d]).collect()
}

#[test]
fn projections_follow_the_formula_and_fill_the_caches() {
    let case = projection_case();
    let mut values = Values(32);
    let k_before = narrow(&values.row(4 * 2048));
    let v_before = narrow(&values.row(4 * 2048));
    let mut k_cache = k_before.clone();
    let mut v_cache = v_before.clone();
    let mut q_out = narrow(&vec![0.0; 4096]);
    qkv::project_qkv(
        &host(),
        &case.x,
        &case.q,
        &case.k,
        &case.v,
        &case.qs,
        &case.ks,
        &case.vs,
        &case.norm,
        &case.qw,
        &case.kw,
        2 * 4096,
        3 * 512,
        &case.cos,
        &case.sin,
        &mut k_cache,
        &mut v_cache,
        &mut q_out,
        EPS,
    );
    let x = doubles(&case.x);
    let n = rms(&x, EPS as f64);
    let xn: Vec<f64> = x.iter().map(|v| v / n).collect();
    let cos = doubles(&case.cos[768..]);
    let sin = doubles(&case.sin[768..]);
    for j in 0..16 {
        let want = embedded(&head(&case.q, &case.qs, &xn, j), &doubles(&case.qw), &cos, &sin);
        assert_near(&q_out[256 * j..256 * j + 256], &want, 0.03);
    }
    for j in 0..8 {
        let at = 2 * 2048 + 256 * j;
        let want = embedded(&head(&case.k, &case.ks, &xn, j), &doubles(&case.kw), &cos, &sin);
        assert_near(&k_cache[at..at + 256], &want, 0.03);
        let plain = head(&case.v, &case.vs, &xn, j);
        let m = rms(&plain, EPS as f64);
        let unit: Vec<f64> = plain.iter().map(|v| v / m).collect();
        assert_near(&v_cache[at..at + 256], &unit, 0.03);
    }
    assert_eq!(k_cache[..4096], k_before[..4096]);
    assert_eq!(k_cache[6144..], k_before[6144..]);
    assert_eq!(v_cache[..4096], v_before[..4096]);
    assert_eq!(v_cache[6144..], v_before[6144..]);
}

#[test]
fn a_later_position_leaves_the_earlier_one() {
    let case = projection_case();
    let mut k_cache = narrow(&vec![0.0; 2 * 2048]);
    let mut v_cache = narrow(&vec![0.0; 2 * 2048]);
    let mut q_out = narrow(&vec![0.0; 4096]);
    let mut first: Vec<Bf16> = Vec::new();
    for t in 0..2 {
        qkv::project_qkv(
            &host(),
            &case.x,
            &case.q,
            &case.k,
            &case.v,
            &case.qs,
            &case.ks,
            &case.vs,
            &case.norm,
            &case.qw,
            &case.kw,
            t * 4096,
            t * 512,
            &case.cos,
            &case.sin,
            &mut k_cache,
            &mut v_cache,
            &mut q_out,
            EPS,
        );
        if t == 0 {
            first = k_cache[..2048].to_vec();
        }
    }
    assert_eq!(k_cache[..2048], first[..]);
    assert_eq!(v_cache[..2048], v_cache[2048..]);
    assert_ne!(k_cache[..2048], k_cache[2048..]);
}

#[test]
fn projections_from_two_lanes() {
    let mut values = Values(41);
    let x = narrow(&values.row(3840));
    let units: Vec<f32> = wide(&x).iter().map(|v| 64.0 * v).collect();
    let h = host();
    let hi: Vec<F8> = units.iter().map(|v| h.round8(*v)).collect();
    let lo: Vec<F8> = units.iter().zip(hi.iter()).map(|(v, u)| h.round8(v - h.widen8(*u))).collect();
    let mut pair = hi;
    pair.extend_from_slice(&lo);
    let lanes = lane_qkv::x_trf(&pair);
    assert_eq!(lanes.rows[252], pair);
    assert!(lanes.rows[1].is_empty());
    let plain: Vec<f64> = doubles(&x).iter().map(|v| 64.0 * v).collect();
    let qw = random_f8(&mut values, 15728640);
    let qs = scales(&mut values, 4096);
    let q = wide(&lane_qkv::project_q(&h, &lanes, &qw, &qs));
    let qd = doubles(&qs);
    for i in (0..4096).step_by(37) {
        let want = row_product(&qw, i, &plain) * qd[i];
        assert!(close(q[i], want, 6.0 + 0.01 * want.abs()), "{} {} {}", i, q[i], want);
    }
    let pw = random_f8(&mut values, 7864320);
    let ps = scales(&mut values, 2048);
    let p = wide(&lane_qkv::project_p(&h, &lanes, &pw, &ps));
    let pd = doubles(&ps);
    for i in (0..2048).step_by(23) {
        let want = row_product(&pw, i, &plain) * pd[i];
        assert!(close(p[i], want, 6.0 + 0.01 * want.abs()), "{} {} {}", i, p[i], want);
    }
    assert_eq!(p.len(), 2048);
}

fn project(case: &Projection, x: &[Bf16]) -> (Vec<Bf16>, Vec<Bf16>, Vec<Bf16>) {
    let mut k_cache = narrow(&vec![1.0; 2048]);
    let mut v_cache = narrow(&vec![1.0; 2048]);
    let mut q_out = narrow(&vec![1.0; 4096]);
    qkv::project_qkv(
        &host(),
        &x.to_vec(),
        &case.q,
        &case.k,
        &case.v,
        &case.qs,
        &case.ks,
        &case.vs,
        &case.norm,
        &case.qw,
        &case.kw,
        0,
        0,
        &case.cos,
        &case.sin,
        &mut k_cache,
        &mut v_cache,
        &mut q_out,
        EPS,
    );
    (q_out, k_cache, v_cache)
}

#[test]
fn a_factor_on_the_norm_weight_is_a_factor_on_the_row_scales() {
    let mut case = projection_case();
    let eight = |x: &[Bf16]| narrow(&wide(x).iter().map(|v| 8.0 * v).collect::<Vec<f32>>());
    let (norm, qs, ks, vs) = (eight(&case.norm), eight(&case.qs), eight(&case.ks), eight(&case.vs));
    let x = case.x.clone();
    let plain = project(&case, &x);
    let before = case.norm.clone();
    case.norm = norm;
    let first = project(&case, &x);
    case.norm = before;
    case.qs = qs;
    case.ks = ks;
    case.vs = vs;
    let second = project(&case, &x);
    assert!(first == second);
    assert_near(&plain.2, &doubles(&first.2), 0.001);
}

#[test]
fn projections_of_zeros_are_zero() {
    let case = projection_case();
    let (q, k, v) = project(&case, &narrow(&vec![0.0; 3840]));
    assert!(wide(&q).iter().all(|x| *x == 0.0));
    assert!(wide(&k).iter().all(|x| *x == 0.0));
    assert!(wide(&v).iter().all(|x| *x == 0.0));
}

#[test]
fn a_single_peak_does_not_saturate_the_encoder() {
    let case = projection_case();
    let mut x = vec![0.0; 3840];
    x[1234] = 30000.0;
    let (_, _, v) = project(&case, &narrow(&x));
    let mut unit = vec![0.0f64; 3840];
    unit[1234] = f64::sqrt(3840.0);
    for j in 0..8 {
        let plain = head(&case.v, &case.vs, &unit, j);
        let m = rms(&plain, EPS as f64);
        let want: Vec<f64> = plain.iter().map(|t| t / m).collect();
        assert_near(&v[256 * j..256 * j + 256], &want, 0.03);
    }
}
