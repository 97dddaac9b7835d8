//! Tensors spread over the slices of the device.

use vstd::prelude::*;

verus! {

/// Slices in one cluster.
pub const SLICES: usize = 256;

/// Slices in the whole device: slice `s` of cluster `c` has the number `256 c + s`.
pub const SLOTS: usize = 512;

/// Single-precision words in one slice's vector register file (8 KB).
pub const VRF_WORDS: usize = 2048;

/// Bytes in one slice's tensor register file.
pub const TRF_BYTES: usize = 65536;

/// A regular set of slices: on each of the first `clusters` clusters, `count` slices, `stride`
/// apart, starting with slice 0.
#[derive(Clone, Copy, PartialEq, Eq, Structural)]
pub struct Placement {
    pub clusters: usize,
    pub stride: usize,
    pub count: usize,
}

impl Placement {
    /// There is at least one slice, and no index runs past a cluster.
    pub open spec fn valid(self) -> bool {
        &&& 1 <= self.clusters <= 2
        &&& 1 <= self.stride <= 256
        &&& 1 <= self.count <= 256
    }

    /// Whether the slice numbered `p` belongs to the set.
    #[verifier::opaque]
    pub open spec fn live(self, p: int) -> bool {
        &&& 0 <= p < SLOTS
        &&& p / 256 < self.clusters
        &&& p % 256 % (self.stride as int) == 0
        &&& p % 256 / (self.stride as int) < self.count
    }

    /// Tests whether the slice numbered `p` belongs to the set.
    pub fn is_live(&self, p: usize) -> (r: bool)
        requires
            self.valid(),
        ensures
            r == self.live(p as int),
    {
        reveal(Placement::live);
        p < SLOTS && p / SLICES < self.clusters && p % SLICES % self.stride == 0 && p % SLICES
            / self.stride < self.count
    }
}

/// A placement lies within the device.
pub broadcast proof fn live_in_device(place: Placement, p: int)
    requires
        #[trigger] place.live(p),
    ensures
        0 <= p < SLOTS,
{
    reveal(Placement::live);
}

/// The slices of a placement with stride 1.
pub broadcast proof fn live_stride_one(clusters: usize, count: usize, p: int)
    ensures
        #[trigger] (Placement { clusters, stride: 1, count }).live(p) <==> 0 <= p < SLOTS && p / 256 < clusters
            && p % 256 < count,
{
    reveal(Placement::live);
}

/// The slices of a placement with stride 2.
pub broadcast proof fn live_stride_two(clusters: usize, count: usize, p: int)
    ensures
        #[trigger] (Placement { clusters, stride: 2, count }).live(p) <==> 0 <= p < SLOTS && p / 256 < clusters
            && p % 256 % 2 == 0 && p % 256 / 2 < count,
{
    reveal(Placement::live);
}

/// The slices of a placement with stride 4.
pub broadcast proof fn live_stride_four(clusters: usize, count: usize, p: int)
    ensures
        #[trigger] (Placement { clusters, stride: 4, count }).live(p) <==> 0 <= p < SLOTS && p / 256 < clusters
            && p % 256 % 4 == 0 && p % 256 / 4 < count,
{
    reveal(Placement::live);
}

/// The slices of a placement with stride 8.
pub broadcast proof fn live_stride_eight(clusters: usize, count: usize, p: int)
    ensures
        #[trigger] (Placement { clusters, stride: 8, count }).live(p) <==> 0 <= p < SLOTS && p / 256 < clusters
            && p % 256 % 8 == 0 && p % 256 / 8 < count,
{
    reveal(Placement::live);
}

/// The slices of a placement with stride 16.
pub broadcast proof fn live_stride_sixteen(clusters: usize, count: usize, p: int)
    ensures
        #[trigger] (Placement { clusters, stride: 16, count }).live(p) <==> 0 <= p < SLOTS && p / 256 < clusters
            && p % 256 % 16 == 0 && p % 256 / 16 < count,
{
    reveal(Placement::live);
}

/// The slices of a placement with stride 32.
pub broadcast proof fn live_stride_thirty_two(clusters: usize, count: usize, p: int)
    ensures
        #[trigger] (Placement { clusters, stride: 32, count }).live(p) <==> 0 <= p < SLOTS && p / 256 < clusters
            && p % 256 % 32 == 0 && p % 256 / 32 < count,
{
    reveal(Placement::live);
}

/// The slices of a placement with stride 64.
pub broadcast proof fn live_stride_sixty_four(clusters: usize, count: usize, p: int)
    ensures
        #[trigger] (Placement { clusters, stride: 64, count }).live(p) <==> 0 <= p < SLOTS && p / 256 < clusters
            && p % 256 % 64 == 0 && p % 256 / 64 < count,
{
    reveal(Placement::live);
}

/// The slices of a placement with stride 256.
pub broadcast proof fn live_stride_two_hundred_fifty_six(clusters: usize, count: usize, p: int)
    ensures
        #[trigger] (Placement { clusters, stride: 256, count }).live(p) <==> 0 <= p < SLOTS && p / 256 < clusters
            && p % 256 % 256 == 0 && p % 256 / 256 < count,
{
    reveal(Placement::live);
}

/// Membership in every placement that the kernels use.
pub broadcast group group_placement {
    live_in_device,
    live_stride_one,
    live_stride_two,
    live_stride_four,
    live_stride_eight,
    live_stride_sixteen,
    live_stride_thirty_two,
    live_stride_sixty_four,
    live_stride_two_hundred_fifty_six,
}

/// A tensor in the memories of the slices: one row for each slice, empty on the slices that hold
/// no part of it. Data memory and both register files hold tensors of this shape.
pub struct SliceTensor<V> {
    pub rows: Vec<Vec<V>>,
}

impl<V> SliceTensor<V> {
    /// What the slice numbered `p` holds.
    pub open spec fn row(&self, p: int) -> Seq<V> {
        self.rows@[p]@
    }

    /// One row for each slice of the device.
    pub open spec fn well_formed(&self) -> bool {
        self.rows@.len() == SLOTS
    }

    /// Whether the slice numbered `p` holds part of the tensor.
    pub open spec fn holds(&self, p: int) -> bool {
        0 <= p < SLOTS && self.row(p).len() > 0
    }

    /// Every slice of the placement holds `width` elements.
    pub open spec fn covers(&self, place: Placement, width: nat) -> bool {
        &&& self.well_formed()
        &&& forall|p: int| #[trigger] place.live(p) ==> self.row(p).len() == width
    }

    /// Every slice of the placement holds `width` elements and no other slice holds any.
    pub open spec fn placed(&self, place: Placement, width: nat) -> bool {
        &&& self.covers(place, width)
        &&& forall|p: int| 0 <= p < SLOTS && !place.live(p) ==> (#[trigger] self.row(p)).len() == 0
    }

    /// Every slice that holds any part of the tensor holds `width` elements.
    pub open spec fn uniform(&self, width: nat) -> bool {
        &&& self.well_formed()
        &&& forall|p: int| #[trigger] self.holds(p) ==> self.row(p).len() == width
    }

    /// The tensor has a row of `width` elements on the same slices as `other`, and on no others.
    pub open spec fn beside<U>(&self, other: &SliceTensor<U>, width: nat) -> bool {
        &&& self.well_formed()
        &&& forall|p: int| 0 <= p < SLOTS ==> (#[trigger] self.row(p)).len() == if other.holds(p) {
            width
        } else {
            0
        }
    }
}

/// Runs `f` on every slice of a placement and keeps the row that each call returns.
pub fn on_slices<V, F: Fn(usize) -> Vec<V>>(place: Placement, f: F) -> (r: SliceTensor<V>)
    requires
        place.valid(),
        forall|p: usize| #[trigger] place.live(p as int) ==> f.requires((p,)),
    ensures
        r.well_formed(),
        forall|p: usize| #![trigger r.row(p as int)] place.live(p as int) ==> f.ensures((p,), r.rows@[p as int]),
        forall|p: int| 0 <= p < SLOTS && !place.live(p) ==> (#[trigger] r.row(p)).len() == 0,
{
    let mut rows: Vec<Vec<V>> = Vec::new();
    for p in 0..SLOTS
        invariant
            place.valid(),
            forall|p: usize| #[trigger] place.live(p as int) ==> f.requires((p,)),
            rows@.len() == p,
            forall|q: usize| #![trigger rows@[q as int]]
                q < p && place.live(q as int) ==> f.ensures((q,), rows@[q as int]),
            forall|q: int| 0 <= q < p && !place.live(q) ==> (#[trigger] rows@[q])@.len() == 0,
    {
        if place.is_live(p) {
            rows.push(f(p));
        } else {
            rows.push(Vec::new());
        }
    }
    broadcast use live_in_device;

    SliceTensor { rows }
}

/// Runs `f` on every slice that holds part of `x` and keeps the row that each call returns.
pub fn each_slice<U, V, F: Fn(usize) -> Vec<V>>(x: &SliceTensor<U>, f: F) -> (r: SliceTensor<V>)
    requires
        x.well_formed(),
        forall|p: usize| #[trigger] x.holds(p as int) ==> f.requires((p,)),
    ensures
        r.well_formed(),
        forall|p: usize| #![trigger r.row(p as int)] x.holds(p as int) ==> f.ensures((p,), r.rows@[p as int]),
        forall|p: int| 0 <= p < SLOTS && !x.holds(p) ==> (#[trigger] r.row(p)).len() == 0,
{
    let mut rows: Vec<Vec<V>> = Vec::new();
    for p in 0..SLOTS
        invariant
            x.well_formed(),
            forall|p: usize| #[trigger] x.holds(p as int) ==> f.requires((p,)),
            rows@.len() == p,
            forall|q: usize| #![trigger rows@[q as int]]
                q < p && x.holds(q as int) ==> f.ensures((q,), rows@[q as int]),
            forall|q: int| 0 <= q < p && !x.holds(q) ==> (#[trigger] rows@[q])@.len() == 0,
    {
        if x.rows[p].len() > 0 {
            assert(x.holds(p as int));
            rows.push(f(p));
        } else {
            rows.push(Vec::new());
        }
    }
    SliceTensor { rows }
}

/// Stages a single-precision operand in the vector register files, each element in `cell` words.
pub fn stage_vrf<V>(x: SliceTensor<V>, cell: usize) -> (r: SliceTensor<V>)
    requires
        forall|p: int| 0 <= p < SLOTS ==> (#[trigger] x.row(p)).len() * cell <= VRF_WORDS,
    ensures
        r == x,
{
    x
}

/// Stages a contraction operand in the tensor register files, each element in `bytes` bytes.
pub fn stage_trf<V>(x: SliceTensor<V>, bytes: usize) -> (r: SliceTensor<V>)
    requires
        forall|p: int| 0 <= p < SLOTS ==> (#[trigger] x.row(p)).len() * bytes <= TRF_BYTES,
    ensures
        r == x,
{
    x
}

/// The first elements of `count` rows of cluster `c`, from slices `stride` apart.
pub open spec fn cells_of<V>(x: &SliceTensor<V>, c: int, stride: int, count: nat) -> Seq<V> {
    Seq::new(count, |g: int| x.row(256 * c + stride * g)[0])
}

/// Reads one element from each of `count` slices of a cluster, in slice order.
pub fn read_cells<V: Copy>(x: &SliceTensor<V>, c: usize, stride: usize, count: usize) -> (r: Vec<V>)
    requires
        x.well_formed(),
        c < 2,
        stride * count <= 256,
        forall|g: int| 0 <= g < count ==> x.row(256 * c + #[trigger] (stride * g)).len() >= 1,
    ensures
        r@ == cells_of(x, c as int, stride as int, count as nat),
{
    let mut r: Vec<V> = Vec::new();
    for g in 0..count
        invariant
            x.well_formed(),
            c < 2,
            stride * count <= 256,
            forall|g: int| 0 <= g < count ==> x.row(256 * c + #[trigger] (stride * g)).len() >= 1,
            r@.len() == g,
            forall|j: int| 0 <= j < g ==> r@[j] == cells_of(x, c as int, stride as int, count as nat)[j],
    {
        assert(0 <= stride * g <= stride * count) by (nonlinear_arith)
            requires
                0 <= g <= count,
        ;
        assert(stride * g < 256) by (nonlinear_arith)
            requires
                0 <= g < count,
                stride * count <= 256,
        ;
        r.push(x.rows[256 * c + stride * g][0]);
    }
    assert(r@ =~= cells_of(x, c as int, stride as int, count as nat));
    r
}

} // verus!
