use decoder_kernels::arithmetic::Arithmetic;
use decoder_kernels::device::ffn;
use decoder_kernels::device::shared::mlp;
use decoder_kernels::shared::hidden::broadcast_scalar_f32_chunks;
use decoder_kernels::tensor::SliceTensor;

/// Single precision on the host, with the narrow formats as bit patterns.
struct Host {
    f8: Vec<f32>,
    f4: Vec<F8>,
}

fn host() -> Host {
    let f8 = (0..=255u8).map(f8_value).collect();
    let f4 = (0..16usize)
        .map(|code| F8(f8_bits(if code >= 8 { -F4_VALUES[code - 8] } else { F4_VALUES[code] })))
        .collect();
    Host { f8, f4 }
}

#[derive(Clone, Copy, Debug, PartialEq)]
struct Bf16(u16);

#[derive(Clone, Copy, Debug, PartialEq)]
struct F8(u8);

#[derive(Clone, Copy, Debug, PartialEq)]
struct F4(u8);

const F4_VALUES: [f32; 8] = [0.0, 0.5, 1.0, 1.5, 2.0, 3.0, 4.0, 6.0];

fn f8_value(bits: u8) -> f32 {
    let exponent = (bits >> 3) & 15;
    let mantissa = (bits & 7) as f32;
    let size = if exponent == 0 {
        mantissa / 512.0
    } else {
        (1.0 + mantissa / 8.0) * f32::powi(2.0, exponent as i32 - 7)
    };
    if bits & 128 != 0 {
        -size
    } else {
        size
    }
}

fn f8_bits(x: f32) -> u8 {
    let sign: u8 = if x < 0.0 { 128 } else { 0 };
    let size = x.abs();
    if size >= 448.0 {
        return sign | 0x7e;
    }
    let mut exponent = -6;
    while exponent < 8 && size >= f32::powi(2.0, exponent + 1) {
        exponent += 1;
    }
    let steps = (size / f32::powi(2.0, exponent - 3)).round_ties_even() as u32;
    if steps < 8 {
        return sign | steps as u8;
    }
    let (steps, exponent) = if steps == 16 { (8, exponent + 1) } else { (steps, exponent) };
    sign | (((exponent + 7) as u8) << 3) | (steps as u8 - 8)
}

fn bf16_bits(x: f32) -> u16 {
    let bits = x.to_bits();
    let rounded = bits + 0x7fff + ((bits >> 16) & 1);
    (rounded >> 16) as u16
}

fn erf64(x: f64) -> f64 {
    if x.abs() > 5.0 {
        return x.signum();
    }
    let mut term = x;
    let mut sum = x;
    let mut n = 0.0;
    while term.abs() > 1e-17 {
        n += 1.0;
        term *= -x * x / n;
        sum += term / (2.0 * n + 1.0);
    }
    sum * 2.0 / std::f64::consts::PI.sqrt()
}

impl Arithmetic for Host {
    type F32 = f32;
    type Bf16 = Bf16;
    type F8 = F8;
    type F4 = F4;

    fn constant(&self, digits: u64, places: u64) -> f32 {
        (digits as f64 / f64::powi(10.0, places as i32)) as f32
    }

    fn widen(&self, x: Bf16) -> f32 {
        f32::from_bits((x.0 as u32) << 16)
    }

    fn round(&self, x: f32) -> Bf16 {
        Bf16(bf16_bits(x))
    }

    fn widen8(&self, x: F8) -> f32 {
        self.f8[x.0 as usize]
    }

    fn round8(&self, x: f32) -> F8 {
        F8(f8_bits(x))
    }

    fn lookup(&self, x: F4) -> F8 {
        self.f4[x.0 as usize]
    }

    fn add(&self, x: f32, y: f32) -> f32 {
        x + y
    }

    fn sub(&self, x: f32, y: f32) -> f32 {
        x - y
    }

    fn mul(&self, x: f32, y: f32) -> f32 {
        x * y
    }

    fn div(&self, x: f32, y: f32) -> f32 {
        x / y
    }

    fn sqrt(&self, x: f32) -> f32 {
        x.sqrt()
    }

    fn erf(&self, x: f32) -> f32 {
        erf64(x as f64) as f32
    }

    fn sum(&self, x: &Vec<f32>) -> f32 {
        x.iter().sum()
    }

    fn max(&self, x: &Vec<f32>) -> f32 {
        x.iter().cloned().fold(f32::NEG_INFINITY, f32::max)
    }

    fn ring_sum(&self, x: &Vec<f32>) -> f32 {
        x.iter().sum()
    }

    fn contract(&self, x: &[f32], y: &[f32]) -> f32 {
        let mut total = 0.0;
        let mut i = 0;
        while i < x.len() {
            total += x[i] * y[i];
            i += 1;
        }
        total
    }

    fn contract_both(&self, w: &[f32], x: &[f32], y: &[f32]) -> f32 {
        let mut total = self.contract(w, x);
        let mut i = 0;
        while i < w.len() {
            total += w[i] * y[i];
            i += 1;
        }
        total
    }
}

fn narrow(x: &[f32]) -> Vec<Bf16> {
    x.iter().map(|v| Bf16(bf16_bits(*v))).collect()
}

fn wide(x: &[Bf16]) -> Vec<f32> {
    x.iter().map(|v| f32::from_bits((v.0 as u32) << 16)).collect()
}

/// A small generator of reproducible values.
struct Values(u64);

impl Values {
    fn next(&mut self) -> u32 {
        self.0 = self.0.wrapping_mul(6364136223846793005).wrapping_add(1442695040888963407);
        (self.0 >> 33) as u32
    }

    fn uniform(&mut self) -> f32 {
        self.next() as f32 / 1073741824.0 - 1.0
    }

    fn row(&mut self, n: usize) -> Vec<f32> {
        (0..n).map(|_| self.uniform()).collect()
    }
}

fn close(x: f32, y: f64, tolerance: f64) -> bool {
    (x as f64 - y).abs() <= tolerance
}

const MATRIX: usize = 58982400;
const BLOCKS: usize = 3686400;

/// A tensor with the rows of `f` on the slices that `live` picks.
fn placed<V>(live: impl Fn(usize) -> bool, f: impl Fn(usize) -> Vec<V>) -> SliceTensor<V> {
    SliceTensor { rows: (0..512).map(|p| if live(p) { f(p) } else { Vec::new() }).collect() }
}

fn everywhere<V>(f: impl Fn(usize) -> Vec<V>) -> SliceTensor<V> {
    placed(|_| true, f)
}

fn f8s(n: usize, x: f32) -> Vec<F8> {
    vec![F8(f8_bits(x)); n]
}

fn random_codes(values: &mut Values) -> Vec<F4> {
    (0..MATRIX).map(|_| F4((values.next() & 15) as u8)).collect()
}

fn random_scales(values: &mut Values) -> Vec<F8> {
    (0..BLOCKS).map(|_| F8(f8_bits(0.25 + 0.125 * (values.next() % 8) as f32))).collect()
}

fn code_value(code: F4) -> f64 {
    let size = F4_VALUES[(code.0 & 7) as usize] as f64;
    if code.0 & 8 != 0 {
        -size
    } else {
        size
    }
}

/// The product of one row of a packed matrix with `n` columns with a vector.
fn packed_row(w: &[F4], s: &[F8], n: usize, row: usize, x: &[f64]) -> f64 {
    let mut total = 0.0;
    for b in 0..n / 16 {
        let scale = f8_value(s[row * n / 16 + b].0) as f64;
        for t in 0..16 {
            total += code_value(w[row * n + 16 * b + t]) * scale * x[16 * b + t];
        }
    }
    total
}

fn gelu(g: f64) -> f64 {
    g * (1.0 + erf64(g / std::f64::consts::SQRT_2)) / 2.0
}

struct Layer {
    x: Vec<Bf16>,
    up_w: Vec<F4>,
    gate_w: Vec<F4>,
    down_w: Vec<F4>,
    up_s: Vec<F8>,
    gate_s: Vec<F8>,
    down_s: Vec<F8>,
}

const UP_SCALE: f32 = 0.03;
const GATE_SCALE: f32 = 0.02;
const DOWN_SCALE: f32 = 0.01;

fn layer() -> Layer {
    let mut values = Values(11);
    Layer {
        x: narrow(&values.row(3840)),
        up_w: random_codes(&mut values),
        gate_w: random_codes(&mut values),
        down_w: random_codes(&mut values),
        up_s: random_scales(&mut values),
        gate_s: random_scales(&mut values),
        down_s: random_scales(&mut values),
    }
}

/// The feed-forward formula in double precision, for every 128th element.
fn reference(layer: &Layer) -> Vec<(usize, f64)> {
    let x: Vec<f64> = wide(&layer.x).iter().map(|v| *v as f64).collect();
    let act: Vec<f64> = (0..15360)
        .map(|l| {
            let up = packed_row(&layer.up_w, &layer.up_s, 3840, l, &x) * UP_SCALE as f64;
            let gate = packed_row(&layer.gate_w, &layer.gate_s, 3840, l, &x) * GATE_SCALE as f64;
            up * gelu(gate)
        })
        .collect();
    (0..30)
        .map(|i| {
            let h = 128 * i + i;
            (h, packed_row(&layer.down_w, &layer.down_s, 15360, h, &act) * DOWN_SCALE as f64)
        })
        .collect()
}

fn spread_of(values: &[(usize, f64)]) -> f64 {
    (values.iter().map(|(_, v)| v * v).sum::<f64>() / values.len() as f64).sqrt()
}

#[test]
fn feed_forward_block_follows_the_formula() {
    let layer = layer();
    let x = everywhere(|_| layer.x.clone());
    let down = broadcast_scalar_f32_chunks(&vec![DOWN_SCALE]);
    let r = mlp::feedforward(
        &host(),
        &x,
        &layer.up_w,
        &layer.gate_w,
        &layer.down_w,
        &layer.up_s,
        &layer.gate_s,
        &layer.down_s,
        &vec![UP_SCALE],
        &vec![GATE_SCALE],
        &down,
    );
    let want = reference(&layer);
    let typical = spread_of(&want);
    for (h, v) in want {
        let got = wide(&r.rows[h / 120])[h % 120];
        assert!(close(got, v, 0.02 * typical), "{} {} {}", h, got, v);
    }
    for p in 32..512 {
        assert!(r.rows[p].is_empty());
    }
}

#[test]
fn feed_forward_core_follows_the_formula() {
    let layer = layer();
    let x = placed(|p| p == 0, |_| layer.x.clone());
    let r = ffn::feedforward(
        &host(),
        &x,
        &layer.up_w,
        &layer.gate_w,
        &layer.down_w,
        &layer.up_s,
        &layer.gate_s,
        &layer.down_s,
        &vec![UP_SCALE],
        &vec![GATE_SCALE],
        &vec![DOWN_SCALE],
    );
    let want = reference(&layer);
    let typical = spread_of(&want);
    for (h, v) in want {
        let got = wide(&r.rows[0])[h];
        assert!(close(got, v, 0.02 * typical), "{} {} {}", h, got, v);
    }
    assert!(r.rows[1].is_empty());
}

#[test]
fn up_gate_lanes_carry_the_activation() {
    let x = everywhere(|_| narrow(&vec![1.703125; 3840]));
    let r = mlp::encode_up_gate_replicated(&host(), &x);
    assert_eq!(r.rows[511].len(), 7680);
    let hi = f8_value(r.rows[511][1920].0);
    let lo = f8_value(r.rows[511][3840 + 1920].0);
    assert_eq!(hi, 112.0);
    assert_eq!(lo, -3.0);
    assert_eq!((hi + lo) / 64.0, 1.703125);
}

#[test]
fn up_gate_lanes_keep_every_element_in_place() {
    let mut values = Values(4);
    let row = narrow(&values.row(3840));
    let x = everywhere(|_| row.clone());
    let r = mlp::encode_up_gate_replicated(&host(), &x);
    let plain = wide(&row);
    for h in 0..3840 {
        let sum = f8_value(r.rows[300][h].0) + f8_value(r.rows[300][3840 + h].0);
        assert!(close(sum / 64.0, plain[h] as f64, 0.005 * plain[h].abs() as f64 + 0.0001));
    }
}

#[test]
fn the_fixed_factor_leaves_headroom() {
    let x = everywhere(|_| narrow(&[7.0, -7.0, 1.703125].repeat(1280)));
    let pair = mlp::encode_up_gate_replicated(&host(), &x);
    let lane: Vec<f32> = pair.rows[9].iter().map(|v| f8_value(v.0)).collect();
    assert_eq!(lane[..3], [448.0, -448.0, 112.0]);
    assert_eq!(lane[3840..3843], [0.0, 0.0, -3.0]);
}

#[test]
fn two_lanes_carry_every_bf16_number_in_range() {
    // Every bf16 number from 2^-8 to 7, with both signs.
    let (low, high) = (bf16_bits(1.0 / 256.0), bf16_bits(7.0));
    let numbers: Vec<Bf16> = (low..=high).flat_map(|b| [Bf16(b), Bf16(b | 0x8000)]).collect();
    assert!(numbers.len() <= 3840);
    let mut row = numbers.clone();
    row.resize(3840, Bf16(0));
    let pair = mlp::encode_up_gate_replicated(&host(), &everywhere(|_| row.clone()));
    let plain = wide(&numbers);
    for i in 0..numbers.len() {
        let (hi, lo) = (f8_value(pair.rows[0][i].0), f8_value(pair.rows[0][3840 + i].0));
        assert_eq!(hi + lo, 64.0 * plain[i]);
    }
}

#[test]
fn bf16_is_off_by_at_most_a_257th() {
    let mut values = Values(8);
    for v in values.row(5000) {
        let off = (wide(&narrow(&[v]))[0] as f64 - v as f64).abs();
        assert!(off <= (v as f64).abs() / 257.0);
    }
    let worst = 1.0f32 + 1.0 / 256.0;
    assert_eq!(wide(&narrow(&[worst]))[0], 1.0);
}

#[test]
fn up_gate_rows_sum_their_blocks() {
    let (w, s) = mlp::load_up_gate_chunk::<Host>(&vec![F4(2); MATRIX], &f8s(BLOCKS, 2.0));
    let x = everywhere(|_| narrow(&vec![0.5; 3840]));
    let pair = mlp::encode_up_gate_replicated(&host(), &x);
    let r = mlp::up_gate_chunk(&host(), &pair, &w, &s);
    for p in 0..512 {
        assert_eq!(r.rows[p], vec![3840.0; 30]);
    }
}

#[test]
fn up_gate_rows_lie_thirty_to_a_slice() {
    let mut codes = vec![F4(0); MATRIX];
    for h in 0..3840 {
        codes[3840 * 7711 + h] = F4(2);
    }
    let (w, s) = mlp::load_up_gate_chunk::<Host>(&codes, &f8s(BLOCKS, 1.0));
    assert_eq!(w.rows[257][3840], F4(2));
    let x = everywhere(|_| narrow(&vec![1.0; 3840]));
    let pair = mlp::encode_up_gate_replicated(&host(), &x);
    let r = mlp::up_gate_chunk(&host(), &pair, &w, &s);
    assert_eq!(r.rows[257][1], 3840.0);
    assert_eq!(r.rows[257][0], 0.0);
    assert_eq!(r.rows[256][1], 0.0);
}

#[test]
fn pooling_keeps_the_order_of_rows() {
    let x = everywhere(|p| (0..30).map(|r| (30 * p + r) as u32).collect());
    let r = mlp::pool_rows(&x);
    assert_eq!(r.rows[0], (0..240).collect::<Vec<u32>>());
    assert_eq!(r.rows[256 + 8], (7920..8160).collect::<Vec<u32>>());
    assert!(r.rows[1].is_empty());
    assert!(r.rows[257].is_empty());
}

#[test]
fn pooled_rows_take_the_global_scale_and_round() {
    let x = placed(|p| p % 8 == 0, |_| vec![257.0f32; 240]);
    let r = mlp::scale_pooled(&host(), &x, &vec![2.0]);
    assert_eq!(wide(&r.rows[504]), vec![512.0; 240]);
}

#[test]
fn geglu_of_extreme_gates() {
    let up = everywhere(|_| vec![3.0f32; 30]);
    let gate = everywhere(|p| vec![if p < 256 { 16.0f32 } else { -16.0 }; 30]);
    let r = mlp::geglu(&host(), &up, &gate, &vec![0.5], &vec![1.0]);
    assert_eq!(wide(&r.rows[0]), vec![24.0; 240]);
    assert_eq!(wide(&r.rows[256]), vec![0.0; 240]);
}

#[test]
fn geglu_of_an_ordinary_gate() {
    let up = everywhere(|_| vec![2.0f32; 30]);
    let gate = everywhere(|_| vec![1.0f32; 30]);
    let r = mlp::geglu(&host(), &up, &gate, &vec![1.0], &vec![1.0]);
    assert!(close(wide(&r.rows[8])[100], 2.0 * gelu(1.0), 0.01));
}

fn down_slices(code: u8, scale: f32) -> (SliceTensor<F4>, SliceTensor<F8>) {
    (everywhere(|_| vec![F4(code); 115200]), everywhere(|_| f8s(7200, scale)))
}

#[test]
fn down_rows_sum_each_half() {
    let x = placed(|p| p % 8 == 0, |p| narrow(&vec![if p < 256 { 1.0 } else { -2.0 }; 240]));
    let (w, s) = down_slices(3, 2.0);
    let r = mlp::down_rows(&host(), &x, &w, &s);
    for p in 0..512 {
        let want = if p < 256 { 23040.0 } else { -46080.0 };
        for v in &r.rows[p] {
            assert!(close(*v, want, 1.0), "{} {}", v, want);
        }
        assert_eq!(r.rows[p].len(), 15);
    }
}

#[test]
fn down_rows_of_a_peaked_activation_do_not_saturate() {
    let x = placed(
        |p| p % 8 == 0,
        |p| {
            let mut row = vec![1.0; 240];
            if p == 16 {
                row[5] = 1000.0;
            }
            narrow(&row)
        },
    );
    let (w, s) = down_slices(2, 1.0);
    let r = mlp::down_rows(&host(), &x, &w, &s);
    let peak = wide(&narrow(&[1000.0]))[0] as f64;
    assert!(close(r.rows[0][0], peak + 7679.0, 40.0), "{}", r.rows[0][0]);
    assert!(close(r.rows[300][3], 7680.0, 1.0));
}

#[test]
fn down_rows_of_zeros_are_zero() {
    let x = placed(|p| p % 8 == 0, |_| narrow(&vec![0.0; 240]));
    let (w, s) = down_slices(7, 4.0);
    let r = mlp::down_rows(&host(), &x, &w, &s);
    assert_eq!(r.rows[400], vec![0.0; 15]);
}

#[test]
fn down_rows_pair_columns_with_their_activations() {
    let mut values = Values(5);
    let half = narrow(&values.row(7680));
    let x = placed(
        |p| p % 8 == 0,
        |p| {
            if p < 256 {
                half[240 * (p / 8)..240 * (p / 8) + 240].to_vec()
            } else {
                narrow(&vec![0.0; 240])
            }
        },
    );
    let codes: Vec<F4> = (0..115200).map(|_| F4((values.next() & 15) as u8)).collect();
    let scales: Vec<F8> = (0..7200).map(|_| F8(f8_bits(0.5 + 0.25 * (values.next() % 4) as f32))).collect();
    let w = everywhere(|_| codes.clone());
    let s = everywhere(|_| scales.clone());
    let r = mlp::down_rows(&host(), &x, &w, &s);
    let plain: Vec<f64> = wide(&half).iter().map(|v| *v as f64).collect();
    for row in 0..15 {
        let want = packed_row(&codes, &scales, 7680, row, &plain);
        assert!(close(r.rows[77][row], want, 2.0), "{} {}", r.rows[77][row], want);
        assert_eq!(r.rows[300][row], 0.0);
    }
}

#[test]
fn finishing_adds_the_clusters_and_scales() {
    let rows = everywhere(|p| (0..15).map(|r| if p < 256 { (15 * p + r) as f32 } else { 1.0 }).collect());
    let r = mlp::finish_chunks(&host(), &rows, &broadcast_scalar_f32_chunks(&vec![0.5]));
    assert_eq!(wide(&r.rows[0])[..3], [0.5, 1.0, 1.5]);
    assert_eq!(wide(&r.rows[1])[0], 60.5);
    assert_eq!(r.rows[31].len(), 120);
}

#[test]
fn core_lanes_are_lifted_into_range() {
    let x = placed(|p| p == 0, |_| narrow(&vec![1.703125; 3840]));
    let r = ffn::replicate_pair_trf(&host(), &x);
    assert_eq!(r.rows[0].len(), 7680);
    assert_eq!(r.rows[511], r.rows[0]);
    let sum = f8_value(r.rows[9][3839].0) + f8_value(r.rows[9][7679].0);
    assert_eq!(sum, 1.703125 * ffn::ACT_SCALE as f32);
}

#[test]
fn core_rows_apply_block_scales() {
    let x = placed(|p| p == 0, |_| narrow(&vec![1.0; 3840]));
    let pair = ffn::replicate_pair_trf(&host(), &x);
    let mut scales = f8s(BLOCKS, 1.0);
    scales[240 * 31] = F8(f8_bits(3.0));
    let r = ffn::project_up_or_gate(&host(), &pair, &vec![F4(2); MATRIX], &scales);
    assert_eq!(r.rows[0][0], 3840.0 * 64.0);
    assert_eq!(r.rows[1][1], 3872.0 * 64.0);
}

#[test]
fn core_scalars_and_constants() {
    let c = ffn::scalar_vrf(&host(), &vec![3.0], 0.5);
    assert_eq!(c.rows[511], vec![1.5]);
    let x = everywhere(|p| vec![p as f32; 30]);
    assert_eq!(ffn::act_to_vrf(&x).rows[7], vec![7.0; 30]);
    assert_eq!(ffn::mul_const(&host(), &x, 2.0).rows[7], vec![14.0; 30]);
    assert_eq!(ffn::mul_vec(&host(), &x, &x).rows[7], vec![49.0; 30]);
}

#[test]
fn core_gelu_turns_on_the_error_function() {
    let gate = everywhere(|_| vec![4.0f32; 30]);
    let c2 = ffn::scalar_vrf(&host(), &vec![0.5], 0.5);
    let r = ffn::gelu_core(&host(), &gate, &c2);
    assert!(close(r.rows[3][0], 1.0 + erf64(1.0), 1e-5));
}

#[test]
fn core_geglu_is_half_of_up_times_gelu() {
    let up = everywhere(|_| vec![3.0 * 64.0f32; 30]);
    let gate = everywhere(|_| vec![1.5 * 64.0f32; 30]);
    let r = ffn::geglu(&host(), &up, &gate, &vec![0.5]);
    assert!(close(r.rows[256][29], 0.5 * 3.0 * gelu(0.75), 1e-5));
}

#[test]
fn core_lanes_of_single_precision() {
    let x = everywhere(|_| (0..3840).map(|i| i as f32 / 16.0).collect());
    let r = ffn::encode_hi_lo_f32(&host(), &x);
    for i in 0..3840 {
        let sum = f8_value(r.rows[0][i].0) + f8_value(r.rows[0][3840 + i].0);
        assert!(close(sum, i as f64 / 16.0, 0.5));
    }
    assert_eq!(f8_value(r.rows[5][48].0), 3.0);
}

#[test]
fn down_parts_lie_cluster_by_cluster() {
    let act = everywhere(|p| vec![if p / 128 == 2 { 1.0f32 } else { 0.0 }; 30]);
    let mut codes = vec![F4(0); MATRIX];
    for l in 0..15360 {
        codes[15360 * 1234 + l] = F4(2);
    }
    let r = ffn::project_down(&host(), &act, &codes, &f8s(BLOCKS, 1.0));
    assert_eq!(r.len(), 7680);
    assert_eq!(r[3840 + 1234], 3840.0);
    assert_eq!(r[1234], 0.0);
    assert_eq!(r[3840 + 1233], 0.0);
    assert_eq!(r.iter().filter(|v| **v != 0.0).count(), 1);
}

#[test]
fn the_two_chunks_of_a_cluster_are_added() {
    // The four quarters of the inner axis hold 1, 2, 4 and 8.
    let act = everywhere(|p| vec![(1 << (p / 128)) as f32; 30]);
    let mut codes = vec![F4(0); MATRIX];
    for h in [0, 29, 30, 3839] {
        for l in 0..15360 {
            codes[15360 * h + l] = F4(2);
        }
    }
    let r = ffn::project_down(&host(), &act, &codes, &f8s(BLOCKS, 1.0));
    for h in [0, 29, 30, 3839] {
        assert_eq!(r[h], 3.0 * 3840.0);
        assert_eq!(r[3840 + h], 12.0 * 3840.0);
    }
    assert_eq!(r.iter().filter(|v| **v != 0.0).count(), 8);
}

#[test]
fn finishing_the_core_applies_both_scales_and_the_half() {
    let part: Vec<f32> = (0..7680).map(|i| (i / 3840 + 1) as f32 * if i % 3840 == 121 { 2.0 } else { 1.0 }).collect();
    let r = ffn::finish_down(&host(), &part, &vec![0.25], &vec![3.0]);
    assert_eq!(wide(&r.rows[0])[0], 4.5);
    assert_eq!(wide(&r.rows[0])[121], 9.0);
    assert_eq!(r.rows[0].len(), 3840);
    assert!(r.rows[8].is_empty());
}

#[test]
fn down_rows_carry_powers_of_two_and_signs() {
    let mut values = Values(6);
    let plain: Vec<f32> = values.row(15360);
    let codes: Vec<F4> = (0..115200).map(|_| F4((values.next() & 15) as u8)).collect();
    let scales: Vec<F8> = (0..7200).map(|_| F8(f8_bits(0.5 + 0.25 * (values.next() % 4) as f32))).collect();
    let w = everywhere(|_| codes.clone());
    let s = everywhere(|_| scales.clone());
    let rows = |f: f32| {
        let row: Vec<f32> = plain.iter().map(|v| f * v).collect();
        let x = placed(|p| p % 8 == 0, |p| narrow(&row[30 * p..30 * p + 240]));
        mlp::down_rows(&host(), &x, &w, &s)
    };
    let one = rows(1.0);
    for f in [4.0, 0.125, -1.0, -2.0] {
        let many = rows(f);
        for p in 0..512 {
            for r in 0..15 {
                assert_eq!(many.rows[p][r], f * one.rows[p][r]);
            }
        }
    }
}

#[test]
fn exchanging_the_clusters_changes_nothing() {
    let mut values = Values(7);
    let sums: Vec<f32> = values.row(7680);
    let rows = everywhere(|p| sums[15 * p..15 * p + 15].to_vec());
    let exchanged = everywhere(|p| sums[15 * ((p + 256) % 512)..15 * ((p + 256) % 512) + 15].to_vec());
    let scale = broadcast_scalar_f32_chunks(&vec![0.75]);
    let first = mlp::finish_chunks(&host(), &rows, &scale);
    let second = mlp::finish_chunks(&host(), &exchanged, &scale);
    assert_eq!(first.rows, second.rows);
    assert_eq!(wide(&first.rows[0])[0], wide(&narrow(&[(sums[0] + sums[3840]) * 0.75]))[0]);
}

fn run_block(layer: &Layer, up: f32, down: f32) -> Vec<f32> {
    let x = everywhere(|_| layer.x.clone());
    let r = mlp::feedforward(
        &host(),
        &x,
        &layer.up_w,
        &layer.gate_w,
        &layer.down_w,
        &layer.up_s,
        &layer.gate_s,
        &layer.down_s,
        &vec![up],
        &vec![GATE_SCALE],
        &broadcast_scalar_f32_chunks(&vec![down]),
    );
    (0..3840).map(|h| wide(&r.rows[h / 120])[h % 120]).collect()
}

#[test]
fn doubling_a_global_scale_doubles_the_block() {
    let layer = layer();
    let once: Vec<f32> = run_block(&layer, UP_SCALE, DOWN_SCALE).iter().map(|v| 2.0 * v).collect();
    assert_eq!(run_block(&layer, 2.0 * UP_SCALE, DOWN_SCALE), once);
    assert_eq!(run_block(&layer, UP_SCALE, 2.0 * DOWN_SCALE), once);
}

fn run_core(layer: &Layer, up: f32, down: f32) -> Vec<f32> {
    let x = placed(|p| p == 0, |_| layer.x.clone());
    let r = ffn::feedforward(
        &host(),
        &x,
        &layer.up_w,
        &layer.gate_w,
        &layer.down_w,
        &layer.up_s,
        &layer.gate_s,
        &layer.down_s,
        &vec![up],
        &vec![GATE_SCALE],
        &vec![down],
    );
    wide(&r.rows[0])
}

#[test]
fn doubling_a_global_scale_doubles_the_core() {
    let layer = layer();
    let once: Vec<f32> = run_core(&layer, UP_SCALE, DOWN_SCALE).iter().map(|v| 2.0 * v).collect();
    assert_eq!(run_core(&layer, 2.0 * UP_SCALE, DOWN_SCALE), once);
    assert_eq!(run_core(&layer, UP_SCALE, 2.0 * DOWN_SCALE), once);
}

#[test]
fn f8_saturates_and_rounds() {
    let h = host();
    assert_eq!(h.widen8(h.round8(1000.0)), 448.0);
    assert_eq!(h.widen8(h.round8(109.0)), 112.0);
    assert_eq!(h.widen8(h.round8(-256.0)), -256.0);
    assert_eq!(h.widen8(h.lookup(F4(15))), -6.0);
}
