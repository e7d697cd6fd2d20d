use crate::data::{lemma_shuffle_draws, shuffle_indices, spec_shuffle, Dataset};
use crate::model::{zeros, ModelContext};
use crate::prng::{spec_advance, spec_advance_n, spec_output, Prng, PrngState};
use crate::tensor::{copy_into, lemma_row_in_range, put_row, row_of, shape_product, Tensor};
use vstd::prelude::*;

verus! {

/// A labeled minibatch for on-device adaptation (`x`: features, `y`: targets),
/// one sample per row of two 2D tensors.
#[derive(Clone, Debug)]
pub struct AdaptBatch {
    pub x: Tensor,
    pub y: Tensor,
}

impl AdaptBatch {
    pub fn new(x: Tensor, y: Tensor) -> (b: Self)
        requires
            x.shape@.len() == 2,
            y.shape@.len() == 2,
            x.shape@[0] == y.shape@[0],
        ensures
            b.x == x,
            b.y == y,
    {
        AdaptBatch { x, y }
    }

    /// Number of samples (rows).
    pub fn len(&self) -> (n: usize)
        requires
            self.x.shape@.len() >= 1,
        ensures
            n == self.x.shape@[0],
    {
        self.x.shape[0]
    }

    pub fn is_empty(&self) -> (b: bool)
        requires
            self.x.shape@.len() >= 1,
        ensures
            b == (self.x.shape@[0] == 0),
    {
        self.len() == 0
    }
}

/// A ring's row storage after `k` rows of the table `src` (rows of `cols`) are
/// written into it one after the other, the first at slot `w0`, wrapping around
/// `cap` slots.
pub open spec fn ring_rows(x: Seq<u32>, w0: int, cap: int, cols: int, src: Seq<u32>, k: nat) -> Seq<u32>
    decreases k,
{
    if k == 0 {
        x
    } else {
        put_row(ring_rows(x, w0, cap, cols, src, (k - 1) as nat), (w0 + k - 1) % cap, cols, row_of(src, k - 1, cols))
    }
}

/// Ring buffer of past samples to reduce catastrophic forgetting: `capacity` slots,
/// each holding a feature row and a target row.
#[derive(Clone, Debug)]
pub struct ReplayBuffer {
    capacity: usize,
    x_cols: usize,
    y_cols: usize,
    x: Vec<u32>,
    y: Vec<u32>,
    len: usize,
    write: usize,
}

impl ReplayBuffer {
    pub closed spec fn spec_capacity(&self) -> int {
        self.capacity as int
    }

    pub closed spec fn spec_x_cols(&self) -> int {
        self.x_cols as int
    }

    pub closed spec fn spec_y_cols(&self) -> int {
        self.y_cols as int
    }

    /// Number of filled slots.
    pub closed spec fn spec_len(&self) -> int {
        self.len as int
    }

    /// The slot the next row goes to.
    pub closed spec fn spec_write(&self) -> int {
        self.write as int
    }

    /// All feature slots, row-major.
    pub closed spec fn spec_x(&self) -> Seq<u32> {
        self.x@
    }

    /// All target slots, row-major.
    pub closed spec fn spec_y(&self) -> Seq<u32> {
        self.y@
    }

    /// Well-formed ring: storage for exactly `capacity` rows, at most `capacity`
    /// filled, the write slot in range, and slots filled in order until full.
    pub closed spec fn wf(&self) -> bool {
        &&& self.x@.len() == self.capacity * self.x_cols
        &&& self.y@.len() == self.capacity * self.y_cols
        &&& self.len <= self.capacity
        &&& (self.capacity > 0 ==> self.write < self.capacity)
        &&& (self.capacity == 0 ==> self.write == 0)
        &&& (self.len < self.capacity ==> self.write == self.len)
    }

    pub fn new(capacity: usize, x_cols: usize, y_cols: usize) -> (b: Self)
        requires
            capacity * x_cols <= usize::MAX,
            capacity * y_cols <= usize::MAX,
        ensures
            b.wf(),
            b.spec_capacity() == capacity,
            b.spec_x_cols() == x_cols,
            b.spec_y_cols() == y_cols,
            b.spec_len() == 0,
            b.spec_write() == 0,
            b.spec_x() == Seq::new((capacity * x_cols) as nat, |i: int| crate::tensor::ZERO_BITS),
            b.spec_y() == Seq::new((capacity * y_cols) as nat, |i: int| crate::tensor::ZERO_BITS),
    {
        let x = vec![crate::tensor::ZERO_BITS; capacity * x_cols];
        let y = vec![crate::tensor::ZERO_BITS; capacity * y_cols];
        let b = ReplayBuffer { capacity, x_cols, y_cols, x, y, len: 0, write: 0 };
        assert(b.x@ == Seq::new((capacity * x_cols) as nat, |i: int| crate::tensor::ZERO_BITS));
        assert(b.y@ == Seq::new((capacity * y_cols) as nat, |i: int| crate::tensor::ZERO_BITS));
        b
    }

    pub fn len(&self) -> (n: usize)
        ensures
            n == self.spec_len(),
    {
        self.len
    }

    pub fn is_empty(&self) -> (b: bool)
        ensures
            b == (self.spec_len() == 0),
    {
        self.len == 0
    }

    pub fn capacity(&self) -> (c: usize)
        ensures
            c == self.spec_capacity(),
    {
        self.capacity
    }

    /// Length of a stored feature row.
    pub fn x_cols(&self) -> (c: usize)
        ensures
            c == self.spec_x_cols(),
    {
        self.x_cols
    }

    /// Length of a stored target row.
    pub fn y_cols(&self) -> (c: usize)
        ensures
            c == self.spec_y_cols(),
    {
        self.y_cols
    }

    /// Stores one sample in the write slot, overwriting the oldest sample once the
    /// ring is full; does nothing when the capacity is zero.
    pub fn push_row(&mut self, x: &[u32], y: &[u32])
        requires
            old(self).wf(),
            x@.len() == old(self).spec_x_cols(),
            y@.len() == old(self).spec_y_cols(),
        ensures
            final(self).wf(),
            final(self).spec_capacity() == old(self).spec_capacity(),
            final(self).spec_x_cols() == old(self).spec_x_cols(),
            final(self).spec_y_cols() == old(self).spec_y_cols(),
            old(self).spec_capacity() == 0 ==> *final(self) == *old(self),
            old(self).spec_capacity() > 0 ==> {
                &&& final(self).spec_write() == (old(self).spec_write() + 1) % old(self).spec_capacity()
                &&& final(self).spec_len() == if old(self).spec_len() + 1 < old(self).spec_capacity() {
                    old(self).spec_len() + 1
                } else {
                    old(self).spec_capacity()
                }
                &&& final(self).spec_x() == put_row(old(self).spec_x(), old(self).spec_write() as int, old(self).spec_x_cols() as int, x@)
                &&& final(self).spec_y() == put_row(old(self).spec_y(), old(self).spec_write() as int, old(self).spec_y_cols() as int, y@)
            },
    {
        if self.capacity == 0 {
            return;
        }
        let i = self.write;
        let xl = self.x.len();
        let yl = self.y.len();
        proof {
            lemma_row_in_range(i as int, self.capacity as int, self.x_cols as int);
            lemma_row_in_range(i as int, self.capacity as int, self.y_cols as int);
        }
        let xs = i * self.x_cols;
        let ys = i * self.y_cols;
        copy_into(&mut self.x, xs, x);
        copy_into(&mut self.y, ys, y);
        proof {
            if i + 1 < self.capacity {
                vstd::arithmetic::div_mod::lemma_small_mod((i + 1) as nat, self.capacity as nat);
            } else {
                vstd::arithmetic::div_mod::lemma_mod_self_0(self.capacity as int);
            }
        }
        self.write = (self.write + 1) % self.capacity;
        self.len = if self.len < self.capacity { self.len + 1 } else { self.capacity };
    }

    /// Stores every row of `batch`, in order.
    pub fn push_batch(&mut self, batch: &AdaptBatch)
        requires
            old(self).wf(),
            batch.x.shape@.len() >= 1,
            batch.x.shape@[0] * old(self).spec_x_cols() <= batch.x.data@.len(),
            batch.x.shape@[0] * old(self).spec_y_cols() <= batch.y.data@.len(),
        ensures
            final(self).wf(),
            final(self).spec_capacity() == old(self).spec_capacity(),
            final(self).spec_x_cols() == old(self).spec_x_cols(),
            final(self).spec_y_cols() == old(self).spec_y_cols(),
            old(self).spec_capacity() > 0 ==> final(self).spec_write() == (old(self).spec_write() + batch.x.shape@[0])
                % old(self).spec_capacity(),
            final(self).spec_len() == if old(self).spec_len() + batch.x.shape@[0] < old(self).spec_capacity() {
                old(self).spec_len() + batch.x.shape@[0]
            } else {
                old(self).spec_capacity()
            },
            old(self).spec_capacity() > 0 ==> final(self).spec_x() == ring_rows(old(self).spec_x(), old(self).spec_write(),
                old(self).spec_capacity(), old(self).spec_x_cols(), batch.x.data@, batch.x.shape@[0] as nat),
            old(self).spec_capacity() > 0 ==> final(self).spec_y() == ring_rows(old(self).spec_y(), old(self).spec_write(),
                old(self).spec_capacity(), old(self).spec_y_cols(), batch.y.data@, batch.x.shape@[0] as nat),
            old(self).spec_capacity() == 0 ==> *final(self) == *old(self),
    {
        let n = batch.len();
        let xc = self.x_cols;
        let yc = self.y_cols;
        let bxl = batch.x.data.len();
        let byl = batch.y.data.len();
        proof {
            if old(self).spec_capacity() > 0 {
                vstd::arithmetic::div_mod::lemma_small_mod(old(self).spec_write() as nat, old(self).spec_capacity() as nat);
            }
        }
        let mut r: usize = 0;
        while r < n
            invariant
                r <= n,
                n == batch.x.shape@[0],
                xc == old(self).spec_x_cols(),
                yc == old(self).spec_y_cols(),
                n * xc <= batch.x.data@.len(),
                n * yc <= batch.y.data@.len(),
                bxl == batch.x.data@.len(),
                byl == batch.y.data@.len(),
                self.wf(),
                self.spec_capacity() == old(self).spec_capacity(),
                self.spec_x_cols() == xc,
                self.spec_y_cols() == yc,
                old(self).spec_capacity() > 0 ==> self.spec_write() == (old(self).spec_write() + r) % old(self).spec_capacity(),
                self.spec_len() == if old(self).spec_len() + r < old(self).spec_capacity() {
                    old(self).spec_len() + r
                } else {
                    old(self).spec_capacity()
                },
                old(self).spec_capacity() > 0 ==> self.spec_x() == ring_rows(old(self).spec_x(), old(self).spec_write(),
                    old(self).spec_capacity(), xc as int, batch.x.data@, r as nat),
                old(self).spec_capacity() > 0 ==> self.spec_y() == ring_rows(old(self).spec_y(), old(self).spec_write(),
                    old(self).spec_capacity(), yc as int, batch.y.data@, r as nat),
                old(self).spec_capacity() == 0 ==> *self == *old(self),
            decreases n - r,
        {
            proof {
                lemma_row_in_range(r as int, n as int, xc as int);
                lemma_row_in_range(r as int, n as int, yc as int);
            }
            let xs = r * xc;
            let ys = r * yc;
            let xrow = vstd::slice::slice_subrange(batch.x.data.as_slice(), xs, xs + xc);
            let yrow = vstd::slice::slice_subrange(batch.y.data.as_slice(), ys, ys + yc);
            assert(xrow@ == row_of(batch.x.data@, r as int, xc as int));
            assert(yrow@ == row_of(batch.y.data@, r as int, yc as int));
            self.push_row(xrow, yrow);
            proof {
                if old(self).spec_capacity() > 0 {
                    vstd::arithmetic::div_mod::lemma_add_mod_noop_right(
                        1, old(self).spec_write() + r, old(self).spec_capacity());
                }
            }
            r = r + 1;
        }
    }

    /// In every well-formed ring the fill lies between zero and the capacity, and
    /// the write slot is a slot (zero when there are none).
    pub proof fn lemma_fill_bounded(&self)
        requires
            self.wf(),
        ensures
            0 <= self.spec_len() <= self.spec_capacity(),
            self.spec_capacity() > 0 ==> 0 <= self.spec_write() < self.spec_capacity(),
            self.spec_capacity() == 0 ==> self.spec_write() == 0,
            0 <= self.spec_x_cols(),
            0 <= self.spec_y_cols(),
    {
    }

    /// A filled slot's rows lie inside the storage.
    pub proof fn lemma_slot_in_range(&self, k: int)
        requires
            self.wf(),
            0 <= k < self.spec_len(),
        ensures
            k * self.spec_x_cols() + self.spec_x_cols() <= self.spec_x().len(),
            k * self.spec_y_cols() + self.spec_y_cols() <= self.spec_y().len(),
            0 <= k * self.spec_x_cols(),
            0 <= k * self.spec_y_cols(),
    {
        lemma_row_in_range(k, self.capacity as int, self.x_cols as int);
        lemma_row_in_range(k, self.capacity as int, self.y_cols as int);
    }

    /// Copies the sample in slot `idx` into row `row` of the batch tensors.
    pub fn copy_row_into(&self, idx: usize, bx: &mut Tensor, by: &mut Tensor, row: usize)
        requires
            self.wf(),
            idx < self.spec_capacity(),
            (row + 1) * self.spec_x_cols() <= old(bx).data@.len(),
            (row + 1) * self.spec_y_cols() <= old(by).data@.len(),
        ensures
            final(bx).shape == old(bx).shape,
            final(by).shape == old(by).shape,
            final(bx).data@ == put_row(old(bx).data@, row as int, self.spec_x_cols() as int,
                row_of(self.spec_x(), idx as int, self.spec_x_cols() as int)),
            final(by).data@ == put_row(old(by).data@, row as int, self.spec_y_cols() as int,
                row_of(self.spec_y(), idx as int, self.spec_y_cols() as int)),
    {
        let xc = self.x_cols;
        let yc = self.y_cols;
        let xl = self.x.len();
        let yl = self.y.len();
        let bxl = bx.data.len();
        let byl = by.data.len();
        proof {
            lemma_row_in_range(idx as int, self.capacity as int, xc as int);
            lemma_row_in_range(idx as int, self.capacity as int, yc as int);
            vstd::arithmetic::mul::lemma_mul_is_distributive_add_other_way(xc as int, row as int, 1);
            vstd::arithmetic::mul::lemma_mul_is_distributive_add_other_way(yc as int, row as int, 1);
        }
        let xsrc = vstd::slice::slice_subrange(self.x.as_slice(), idx * xc, idx * xc + xc);
        let ysrc = vstd::slice::slice_subrange(self.y.as_slice(), idx * yc, idx * yc + yc);
        copy_into(&mut bx.data, row * xc, xsrc);
        copy_into(&mut by.data, row * yc, ysrc);
    }

    /// Copies a stored sample into row `row` of the batch tensors; `r` is a random
    /// draw and the sample taken is the one in slot `r % len`.
    pub fn sample_row_into(&self, bx: &mut Tensor, by: &mut Tensor, row: usize, r: u64)
        requires
            self.wf(),
            self.spec_len() > 0,
            (row + 1) * self.spec_x_cols() <= old(bx).data@.len(),
            (row + 1) * self.spec_y_cols() <= old(by).data@.len(),
        ensures
            final(bx).shape == old(bx).shape,
            final(by).shape == old(by).shape,
            final(bx).data@ == put_row(old(bx).data@, row as int, self.spec_x_cols() as int,
                row_of(self.spec_x(), (r as usize) as int % self.spec_len(), self.spec_x_cols() as int)),
            final(by).data@ == put_row(old(by).data@, row as int, self.spec_y_cols() as int,
                row_of(self.spec_y(), (r as usize) as int % self.spec_len(), self.spec_y_cols() as int)),
    {
        let idx = (r as usize) % self.len;
        self.copy_row_into(idx, bx, by, row);
    }
}


// ---------------------------------------------------------------------------
// Building a training minibatch
// ---------------------------------------------------------------------------

/// What building a minibatch reads and changes: the two batch tables, the ring's
/// two tables with its fill and write slot, the order with its cursor, and the
/// generator state.
#[verifier::ext_equal]
pub struct FillState {
    pub bx: Seq<u32>,
    pub by: Seq<u32>,
    pub rx: Seq<u32>,
    pub ry: Seq<u32>,
    pub rlen: int,
    pub rwrite: int,
    pub order: Seq<usize>,
    pub cursor: int,
    pub rng: PrngState,
}

/// The state of these batch tables, ring, order, cursor and generator.
pub open spec fn fill_state(bx: Seq<u32>, by: Seq<u32>, ring: ReplayBuffer, order: Seq<usize>, cursor: int, rng: PrngState) -> FillState {
    FillState {
        bx,
        by,
        rx: ring.spec_x(),
        ry: ring.spec_y(),
        rlen: ring.spec_len(),
        rwrite: ring.spec_write(),
        order,
        cursor,
        rng,
    }
}

/// `s` with row `j` of the batch tables replaced.
pub open spec fn put_rows(s: FillState, j: int, xc: int, yc: int, rowx: Seq<u32>, rowy: Seq<u32>) -> FillState {
    FillState { bx: put_row(s.bx, j, xc, rowx), by: put_row(s.by, j, yc, rowy), ..s }
}

/// `s` after a sample is stored in a ring of `cap` slots: it goes to the write
/// slot, which moves on; the fill grows up to `cap`. A ring without slots keeps
/// nothing.
pub open spec fn ring_push(s: FillState, cap: int, xc: int, yc: int, rowx: Seq<u32>, rowy: Seq<u32>) -> FillState {
    if cap == 0 {
        s
    } else {
        FillState {
            rx: put_row(s.rx, s.rwrite, xc, rowx),
            ry: put_row(s.ry, s.rwrite, yc, rowy),
            rlen: if s.rlen + 1 < cap {
                s.rlen + 1
            } else {
                cap
            },
            rwrite: (s.rwrite + 1) % cap,
            ..s
        }
    }
}

/// The generator's next word as a row index below `n`.
pub open spec fn draw_below(rng: PrngState, n: int) -> int {
    (spec_output(rng) as usize) as int % n
}

/// Row `j` drawn from the local tables `lx` / `ly` of `n` rows.
pub open spec fn local_step(s: FillState, j: int, xc: int, yc: int, lx: Seq<u32>, ly: Seq<u32>, n: int) -> FillState {
    let k = draw_below(s.rng, n);
    FillState { rng: spec_advance(s.rng), ..put_rows(s, j, xc, yc, row_of(lx, k, xc), row_of(ly, k, yc)) }
}

/// Row `j` drawn from the ring's filled slots.
pub open spec fn ring_step(s: FillState, j: int, xc: int, yc: int) -> FillState {
    let k = draw_below(s.rng, s.rlen);
    FillState { rng: spec_advance(s.rng), ..put_rows(s, j, xc, yc, row_of(s.rx, k, xc), row_of(s.ry, k, yc)) }
}

/// Row `j` set to zeros.
pub open spec fn zero_step(s: FillState, j: int, xc: int, yc: int) -> FillState {
    put_rows(s, j, xc, yc, zeros(xc), zeros(yc))
}

/// The order ready for the next dataset row: when the cursor is at or past its end
/// it is reshuffled with the generator and the cursor starts over.
pub open spec fn stream_turn(s: FillState) -> FillState {
    if s.cursor >= s.order.len() {
        FillState { order: spec_shuffle(s.order, s.rng).0, rng: spec_shuffle(s.order, s.rng).1, cursor: 0, ..s }
    } else {
        s
    }
}

/// The dataset index the next dataset row takes.
pub open spec fn stream_index(s: FillState) -> usize {
    stream_turn(s).order[stream_turn(s).cursor]
}

/// Row `j` taken from the dataset, whose sample is `smp`: the cursor moves on,
/// the sample goes into the batch row and is stored in the ring.
pub open spec fn stream_step(s: FillState, j: int, xc: int, yc: int, cap: int, smp: (Seq<u32>, Seq<u32>)) -> FillState {
    let t = stream_turn(s);
    ring_push(put_rows(FillState { cursor: t.cursor + 1, ..t }, j, xc, yc, smp.0, smp.1), cap, xc, yc, smp.0, smp.1)
}

/// `k` rows from `from` on drawn from the local tables.
pub open spec fn local_rows(s: FillState, from: int, k: nat, xc: int, yc: int, lx: Seq<u32>, ly: Seq<u32>, n: int) -> FillState
    decreases k,
{
    if k == 0 {
        s
    } else {
        local_step(local_rows(s, from, (k - 1) as nat, xc, yc, lx, ly, n), from + k - 1, xc, yc, lx, ly, n)
    }
}

/// `k` rows from `from` on drawn from the ring.
pub open spec fn ring_draws(s: FillState, from: int, k: nat, xc: int, yc: int) -> FillState
    decreases k,
{
    if k == 0 {
        s
    } else {
        ring_step(ring_draws(s, from, (k - 1) as nat, xc, yc), from + k - 1, xc, yc)
    }
}

/// `k` rows from `from` on set to zeros.
pub open spec fn zero_rows(s: FillState, from: int, k: nat, xc: int, yc: int) -> FillState
    decreases k,
{
    if k == 0 {
        s
    } else {
        zero_step(zero_rows(s, from, (k - 1) as nat, xc, yc), from + k - 1, xc, yc)
    }
}

/// Rows from `from` on taken from the dataset, the samples being `f` in order.
pub open spec fn stream_rows(s: FillState, from: int, f: Seq<(Seq<u32>, Seq<u32>)>, xc: int, yc: int, cap: int) -> FillState
    decreases f.len(),
{
    if f.len() == 0 {
        s
    } else {
        stream_step(stream_rows(s, from, f.drop_last(), xc, yc, cap), from + f.len() - 1, xc, yc, cap, f.last())
    }
}

/// `f` are samples `d` can give for the indices the rows take: rows of `xc` / `yc`
/// entries, and each the one `d` states for its index, where it states one.
pub open spec fn stream_fits<D: Dataset>(d: &D, s: FillState, from: int, f: Seq<(Seq<u32>, Seq<u32>)>, xc: int, yc: int, cap: int) -> bool
    decreases f.len(),
{
    if f.len() == 0 {
        true
    } else {
        let p = stream_rows(s, from, f.drop_last(), xc, yc, cap);
        &&& stream_fits(d, s, from, f.drop_last(), xc, yc, cap)
        &&& f.last().0.len() == xc
        &&& f.last().1.len() == yc
        &&& (d.sample(stream_index(p), xc as usize, yc as usize) matches Some(smp) ==> f.last() == smp)
    }
}

/// A local batch usable as a row source for buffers of `xc` / `yc` columns: at
/// least one sample, each a full row.
pub open spec fn batch_fits(b: AdaptBatch, xc: int, yc: int) -> bool {
    &&& b.x.shape@.len() == 2
    &&& b.x.shape@[0] > 0
    &&& b.x.data@.len() == b.x.shape@[0] * xc
    &&& b.y.data@.len() == b.x.shape@[0] * yc
}

/// Writes row `src` of `batch` into row `row` of the batch buffers.
fn copy_batch_row(bx: &mut Tensor, by: &mut Tensor, batch: &AdaptBatch, src: usize, row: usize, nrows: usize, xc: usize, yc: usize)
    requires
        batch_fits(*batch, xc as int, yc as int),
        src < batch.x.shape@[0],
        row < nrows,
        old(bx).data@.len() == nrows * xc,
        old(by).data@.len() == nrows * yc,
    ensures
        final(bx).shape == old(bx).shape,
        final(by).shape == old(by).shape,
        final(bx).data@ == put_row(old(bx).data@, row as int, xc as int, row_of(batch.x.data@, src as int, xc as int)),
        final(by).data@ == put_row(old(by).data@, row as int, yc as int, row_of(batch.y.data@, src as int, yc as int)),
{
    let n = batch.len();
    let bxl = batch.x.data.len();
    let byl = batch.y.data.len();
    proof {
        lemma_row_in_range(src as int, n as int, xc as int);
        lemma_row_in_range(src as int, n as int, yc as int);
        lemma_row_in_range(row as int, nrows as int, xc as int);
        lemma_row_in_range(row as int, nrows as int, yc as int);
    }
    let bl = bx.data.len();
    let yl = by.data.len();
    let xs = vstd::slice::slice_subrange(batch.x.data.as_slice(), src * xc, src * xc + xc);
    let ys = vstd::slice::slice_subrange(batch.y.data.as_slice(), src * yc, src * yc + yc);
    copy_into(&mut bx.data, row * xc, xs);
    copy_into(&mut by.data, row * yc, ys);
}

/// Writes zeros over row `row` of `t`.
fn zero_row(t: &mut Tensor, row: usize, nrows: usize, cols: usize)
    requires
        row < nrows,
        old(t).data@.len() == nrows * cols,
    ensures
        final(t).shape == old(t).shape,
        final(t).data@ == put_row(old(t).data@, row as int, cols as int, zeros(cols as int)),
{
    proof {
        lemma_row_in_range(row as int, nrows as int, cols as int);
    }
    let tl = t.data.len();
    let z = vec![crate::tensor::ZERO_BITS; cols];
    assert(z@ == zeros(cols as int));
    copy_into(&mut t.data, row * cols, z.as_slice());
}

/// A one-row buffer shape `[1, c]` has `c` elements.
proof fn lemma_row_shape(c: usize)
    ensures
        crate::tensor::numel_fits(seq![1usize, c]),
        shape_product(seq![1usize, c]) == c,
{
    let s = seq![1usize, c];
    let s1 = seq![1usize];
    assert(s1.drop_last() =~= Seq::<usize>::empty());
    assert(shape_product(s1.drop_last()) == 1);
    assert(shape_product(s1) == shape_product(s1.drop_last()) * s1.last());
    assert(shape_product(s1) == 1);
    assert(crate::tensor::numel_fits(s1.drop_last()));
    assert(crate::tensor::numel_fits(s1));
    assert(s.drop_last() =~= s1);
    assert(shape_product(s) == shape_product(s.drop_last()) * s.last());
    assert(crate::tensor::numel_fits(s.drop_last()));
}

/// How many rows of a batch of `batch_size` come from the ring holding `filled`
/// samples when `wanted` are asked for: none from an empty ring, at most the batch.
pub open spec fn replay_rows(batch_size: int, filled: int, wanted: int) -> int {
    if filled == 0 {
        0
    } else if wanted < batch_size {
        wanted
    } else {
        batch_size
    }
}

/// Writing a full row keeps a table's length.
proof fn lemma_put_row_len(x: Seq<u32>, k: int, cols: int, r: Seq<u32>, nrows: int)
    requires
        r.len() == cols,
        0 <= k < nrows,
        0 <= cols,
        x.len() == nrows * cols,
    ensures
        put_row(x, k, cols, r).len() == x.len(),
{
    lemma_row_in_range(k, nrows, cols);
}

/// The whole minibatch build from state `s0`: `replay_rows` rows come from the
/// ring (the last ones), the others are fresh. Fresh rows are taken from the
/// dataset stream (samples `f`) when there is a dataset with a non-empty order,
/// drawn from the ring when its order is empty; without a dataset they are drawn
/// from the local tables, else from the ring, else zeros. The ring rows are drawn
/// from the ring, or from the local tables while the ring is empty.
pub open spec fn fill_spec(
    s0: FillState,
    has_dataset: bool,
    local: Option<AdaptBatch>,
    f: Seq<(Seq<u32>, Seq<u32>)>,
    batch_size: int,
    wanted: int,
    xc: int,
    yc: int,
    cap: int,
) -> FillState {
    let rn = replay_rows(batch_size, s0.rlen, wanted);
    let fresh = batch_size - rn;
    let s1 = if has_dataset {
        if s0.order.len() == 0 {
            ring_draws(s0, 0, fresh as nat, xc, yc)
        } else {
            stream_rows(s0, 0, f, xc, yc, cap)
        }
    } else if local is Some {
        local_rows(s0, 0, fresh as nat, xc, yc, local->0.x.data@, local->0.y.data@, local->0.x.shape@[0] as int)
    } else if s0.rlen > 0 {
        ring_draws(s0, 0, fresh as nat, xc, yc)
    } else {
        zero_rows(s0, 0, fresh as nat, xc, yc)
    };
    if s1.rlen > 0 {
        ring_draws(s1, fresh, rn as nat, xc, yc)
    } else if local is Some {
        local_rows(s1, fresh, rn as nat, xc, yc, local->0.x.data@, local->0.y.data@, local->0.x.shape@[0] as int)
    } else {
        s1
    }
}

/// Fills rows `from .. to` with rows of `batch`, each chosen by a draw from `rng`.
fn fill_rows_local(
    bx: &mut Tensor,
    by: &mut Tensor,
    batch: &AdaptBatch,
    from: usize,
    to: usize,
    nrows: usize,
    xc: usize,
    yc: usize,
    rng: &mut Prng,
    Ghost(s0): Ghost<FillState>,
)
    requires
        from <= to <= nrows,
        batch_fits(*batch, xc as int, yc as int),
        old(bx).data@.len() == nrows * xc,
        old(by).data@.len() == nrows * yc,
        s0.bx == old(bx).data@,
        s0.by == old(by).data@,
        s0.rng == old(rng)@,
    ensures
        final(bx).shape == old(bx).shape,
        final(by).shape == old(by).shape,
        final(bx).data@.len() == old(bx).data@.len(),
        final(by).data@.len() == old(by).data@.len(),
        local_rows(s0, from as int, (to - from) as nat, xc as int, yc as int, batch.x.data@, batch.y.data@, batch.x.shape@[0] as int)
            == (FillState { bx: final(bx).data@, by: final(by).data@, rng: final(rng)@, ..s0 }),
{
    let n = batch.len();
    let mut row = from;
    assert(local_rows(s0, from as int, 0, xc as int, yc as int, batch.x.data@, batch.y.data@, n as int) =~= (FillState {
        bx: bx.data@, by: by.data@, rng: rng@, ..s0 }));
    while row < to
        invariant
            from <= row <= to <= nrows,
            batch_fits(*batch, xc as int, yc as int),
            n == batch.x.shape@[0],
            bx.shape == old(bx).shape,
            by.shape == old(by).shape,
            bx.data@.len() == nrows * xc,
            by.data@.len() == nrows * yc,
            local_rows(s0, from as int, (row - from) as nat, xc as int, yc as int, batch.x.data@, batch.y.data@, n as int)
                == (FillState { bx: bx.data@, by: by.data@, rng: rng@, ..s0 }),
        decreases to - row,
    {
        let ghost p = FillState { bx: bx.data@, by: by.data@, rng: rng@, ..s0 };
        let r = rng.next_u64();
        let src = (r as usize) % n;
        copy_batch_row(bx, by, batch, src, row, nrows, xc, yc);
        proof {
            lemma_row_in_range(src as int, n as int, xc as int);
            lemma_row_in_range(src as int, n as int, yc as int);
            lemma_put_row_len(p.bx, row as int, xc as int, row_of(batch.x.data@, src as int, xc as int), nrows as int);
            lemma_put_row_len(p.by, row as int, yc as int, row_of(batch.y.data@, src as int, yc as int), nrows as int);
            assert(local_rows(s0, from as int, (row + 1 - from) as nat, xc as int, yc as int, batch.x.data@, batch.y.data@, n as int)
                == local_step(p, row as int, xc as int, yc as int, batch.x.data@, batch.y.data@, n as int));
            assert(local_step(p, row as int, xc as int, yc as int, batch.x.data@, batch.y.data@, n as int) =~= (FillState {
                bx: bx.data@, by: by.data@, rng: rng@, ..s0 }));
        }
        row = row + 1;
    }
}

/// Fills rows `from .. to` with stored samples, each chosen by a draw from `rng`.
fn fill_rows_replay(
    replay: &ReplayBuffer,
    bx: &mut Tensor,
    by: &mut Tensor,
    from: usize,
    to: usize,
    nrows: usize,
    rng: &mut Prng,
    Ghost(s0): Ghost<FillState>,
)
    requires
        from <= to <= nrows,
        replay.wf(),
        replay.spec_len() > 0,
        old(bx).data@.len() == nrows * replay.spec_x_cols(),
        old(by).data@.len() == nrows * replay.spec_y_cols(),
        s0 == fill_state(old(bx).data@, old(by).data@, *replay, s0.order, s0.cursor, old(rng)@),
    ensures
        final(bx).shape == old(bx).shape,
        final(by).shape == old(by).shape,
        final(bx).data@.len() == old(bx).data@.len(),
        final(by).data@.len() == old(by).data@.len(),
        ring_draws(s0, from as int, (to - from) as nat, replay.spec_x_cols(), replay.spec_y_cols())
            == (FillState { bx: final(bx).data@, by: final(by).data@, rng: final(rng)@, ..s0 }),
{
    let xc = replay.x_cols();
    let yc = replay.y_cols();
    let mut row = from;
    assert(ring_draws(s0, from as int, 0, xc as int, yc as int) =~= (FillState { bx: bx.data@, by: by.data@, rng: rng@, ..s0 }));
    while row < to
        invariant
            from <= row <= to <= nrows,
            replay.wf(),
            replay.spec_len() > 0,
            xc == replay.spec_x_cols(),
            yc == replay.spec_y_cols(),
            s0.rx == replay.spec_x(),
            s0.ry == replay.spec_y(),
            s0.rlen == replay.spec_len(),
            bx.shape == old(bx).shape,
            by.shape == old(by).shape,
            bx.data@.len() == nrows * xc,
            by.data@.len() == nrows * yc,
            ring_draws(s0, from as int, (row - from) as nat, xc as int, yc as int)
                == (FillState { bx: bx.data@, by: by.data@, rng: rng@, ..s0 }),
        decreases to - row,
    {
        let ghost p = FillState { bx: bx.data@, by: by.data@, rng: rng@, ..s0 };
        let r = rng.next_u64();
        proof {
            lemma_row_in_range(row as int, nrows as int, xc as int);
            lemma_row_in_range(row as int, nrows as int, yc as int);
            vstd::arithmetic::mul::lemma_mul_is_distributive_add_other_way(xc as int, row as int, 1);
            vstd::arithmetic::mul::lemma_mul_is_distributive_add_other_way(yc as int, row as int, 1);
        }
        replay.sample_row_into(bx, by, row, r);
        proof {
            let k = (r as usize) as int % replay.spec_len();
            replay.lemma_slot_in_range(k);
            lemma_put_row_len(p.bx, row as int, xc as int, row_of(replay.spec_x(), k, xc as int), nrows as int);
            lemma_put_row_len(p.by, row as int, yc as int, row_of(replay.spec_y(), k, yc as int), nrows as int);
            assert(ring_draws(s0, from as int, (row + 1 - from) as nat, xc as int, yc as int) == ring_step(p, row as int, xc as int, yc as int));
            assert(ring_step(p, row as int, xc as int, yc as int) =~= (FillState { bx: bx.data@, by: by.data@, rng: rng@, ..s0 }));
        }
        row = row + 1;
    }
}

/// Fills rows `from .. to` with zeros.
fn fill_rows_zero(
    bx: &mut Tensor,
    by: &mut Tensor,
    from: usize,
    to: usize,
    nrows: usize,
    xc: usize,
    yc: usize,
    Ghost(s0): Ghost<FillState>,
)
    requires
        from <= to <= nrows,
        old(bx).data@.len() == nrows * xc,
        old(by).data@.len() == nrows * yc,
        s0.bx == old(bx).data@,
        s0.by == old(by).data@,
    ensures
        final(bx).shape == old(bx).shape,
        final(by).shape == old(by).shape,
        final(bx).data@.len() == old(bx).data@.len(),
        final(by).data@.len() == old(by).data@.len(),
        zero_rows(s0, from as int, (to - from) as nat, xc as int, yc as int) == (FillState {
            bx: final(bx).data@,
            by: final(by).data@,
            ..s0
        }),
{
    let mut row = from;
    assert(zero_rows(s0, from as int, 0, xc as int, yc as int) =~= (FillState { bx: bx.data@, by: by.data@, ..s0 }));
    while row < to
        invariant
            from <= row <= to <= nrows,
            bx.shape == old(bx).shape,
            by.shape == old(by).shape,
            bx.data@.len() == nrows * xc,
            by.data@.len() == nrows * yc,
            zero_rows(s0, from as int, (row - from) as nat, xc as int, yc as int) == (FillState {
                bx: bx.data@,
                by: by.data@,
                ..s0
            }),
        decreases to - row,
    {
        let ghost p = FillState { bx: bx.data@, by: by.data@, ..s0 };
        zero_row(bx, row, nrows, xc);
        zero_row(by, row, nrows, yc);
        proof {
            lemma_row_in_range(row as int, nrows as int, xc as int);
            lemma_row_in_range(row as int, nrows as int, yc as int);
            assert(zero_rows(s0, from as int, (row + 1 - from) as nat, xc as int, yc as int) == zero_step(p, row as int, xc as int, yc as int));
            assert(zero_step(p, row as int, xc as int, yc as int) =~= (FillState { bx: bx.data@, by: by.data@, ..s0 }));
        }
        row = row + 1;
    }
}

/// Fills rows `from .. to` with samples of `data` taken in `order` from `cursor`
/// on, reshuffling with `rng` whenever the order is used up; each sample is also
/// stored in the ring. Returns the samples taken, in row order.
fn fill_rows_dataset<D: Dataset>(
    replay: &mut ReplayBuffer,
    bx: &mut Tensor,
    by: &mut Tensor,
    data: &D,
    order: &mut Vec<usize>,
    cursor: &mut usize,
    from: usize,
    to: usize,
    nrows: usize,
    rng: &mut Prng,
    Ghost(s0): Ghost<FillState>,
) -> (f: Ghost<Seq<(Seq<u32>, Seq<u32>)>>)
    requires
        from <= to <= nrows,
        old(replay).wf(),
        data.ready(),
        old(order)@.len() > 0,
        old(bx).data@.len() == nrows * old(replay).spec_x_cols(),
        old(by).data@.len() == nrows * old(replay).spec_y_cols(),
        s0 == fill_state(old(bx).data@, old(by).data@, *old(replay), old(order)@, *old(cursor) as int, old(rng)@),
    ensures
        final(bx).shape == old(bx).shape,
        final(by).shape == old(by).shape,
        final(bx).data@.len() == old(bx).data@.len(),
        final(by).data@.len() == old(by).data@.len(),
        final(replay).wf(),
        final(replay).spec_capacity() == old(replay).spec_capacity(),
        final(replay).spec_x_cols() == old(replay).spec_x_cols(),
        final(replay).spec_y_cols() == old(replay).spec_y_cols(),
        final(order)@.len() == old(order)@.len(),
        final(order)@.to_multiset() == old(order)@.to_multiset(),
        f@.len() == to - from,
        stream_fits(data, s0, from as int, f@, old(replay).spec_x_cols(), old(replay).spec_y_cols(), old(replay).spec_capacity()),
        stream_rows(s0, from as int, f@, old(replay).spec_x_cols(), old(replay).spec_y_cols(), old(replay).spec_capacity())
            == fill_state(final(bx).data@, final(by).data@, *final(replay), final(order)@, *final(cursor) as int, final(rng)@),
{
    let xc = replay.x_cols();
    let yc = replay.y_cols();
    let ghost cap = replay.spec_capacity();
    let n = order.len();
    let ghost mut f: Seq<(Seq<u32>, Seq<u32>)> = Seq::empty();
    let mut row = from;
    assert(stream_rows(s0, from as int, f, xc as int, yc as int, cap) =~= fill_state(bx.data@, by.data@, *replay, order@, *cursor as int, rng@));
    while row < to
        invariant
            from <= row <= to <= nrows,
            replay.wf(),
            data.ready(),
            xc == replay.spec_x_cols(),
            yc == replay.spec_y_cols(),
            cap == replay.spec_capacity(),
            cap == old(replay).spec_capacity(),
            xc == old(replay).spec_x_cols(),
            yc == old(replay).spec_y_cols(),
            n == order@.len(),
            n == old(order)@.len(),
            n > 0,
            order@.to_multiset() == old(order)@.to_multiset(),
            bx.shape == old(bx).shape,
            by.shape == old(by).shape,
            bx.data@.len() == nrows * xc,
            by.data@.len() == nrows * yc,
            f.len() == row - from,
            stream_fits(data, s0, from as int, f, xc as int, yc as int, cap),
            stream_rows(s0, from as int, f, xc as int, yc as int, cap) == fill_state(bx.data@, by.data@, *replay, order@,
                *cursor as int, rng@),
        decreases to - row,
    {
        let ghost p = fill_state(bx.data@, by.data@, *replay, order@, *cursor as int, rng@);
        if *cursor >= order.len() {
            shuffle_indices(order.as_mut_slice(), rng);
            *cursor = 0;
        }
        let ghost t = fill_state(bx.data@, by.data@, *replay, order@, *cursor as int, rng@);
        assert(t =~= stream_turn(p));
        let idx = order[*cursor];
        *cursor = *cursor + 1;
        proof {
            lemma_row_shape(xc);
            lemma_row_shape(yc);
        }
        let xshape: [usize; 2] = [1, xc];
        let yshape: [usize; 2] = [1, yc];
        let xs = vstd::array::array_as_slice(&xshape);
        let ys = vstd::array::array_as_slice(&yshape);
        assert(xs@ == seq![1usize, xc]);
        assert(ys@ == seq![1usize, yc]);
        let mut rx = Tensor::new(xs);
        let mut ry = Tensor::new(ys);
        assert(crate::data::zeroed_row(rx));
        assert(crate::data::zeroed_row(ry));
        let _ = data.get(idx, &mut rx, &mut ry);
        let ghost smp = (rx.data@, ry.data@);
        let ghost before = f;
        proof {
            f = f.push(smp);
            assert(f.drop_last() == before);
            assert(stream_index(p) == idx);
        }
        let bl = bx.data.len();
        let yl = by.data.len();
        proof {
            lemma_row_in_range(row as int, nrows as int, xc as int);
            lemma_row_in_range(row as int, nrows as int, yc as int);
        }
        copy_into(&mut bx.data, row * xc, rx.data.as_slice());
        copy_into(&mut by.data, row * yc, ry.data.as_slice());
        replay.push_row(rx.data.as_slice(), ry.data.as_slice());
        proof {
            assert(stream_rows(s0, from as int, f, xc as int, yc as int, cap) == stream_step(p, row as int, xc as int, yc as int,
                cap, smp));
            assert(stream_step(p, row as int, xc as int, yc as int, cap, smp) =~= fill_state(bx.data@, by.data@, *replay,
                order@, *cursor as int, rng@));
        }
        row = row + 1;
    }
    Ghost(f)
}

/// `fin` is what building a minibatch from `s0` gives, the dataset yielding the
/// samples `f` (which fit what it states of its samples).
pub open spec fn fill_matches<D: Dataset>(
    dataset: Option<&D>,
    local: Option<AdaptBatch>,
    s0: FillState,
    f: Seq<(Seq<u32>, Seq<u32>)>,
    batch_size: int,
    wanted: int,
    xc: int,
    yc: int,
    cap: int,
    fresh: int,
    fin: FillState,
) -> bool {
    &&& (dataset matches Some(d) ==> s0.order.len() > 0 ==> f.len() == fresh && stream_fits(d, s0, 0, f, xc, yc, cap))
    &&& fill_spec(s0, dataset is Some, local, f, batch_size, wanted, xc, yc, cap) == fin
}

/// `fin` is what building a minibatch from `s0` gives, for some samples the
/// dataset yields.
pub open spec fn fill_done<D: Dataset>(
    dataset: Option<&D>,
    local: Option<AdaptBatch>,
    s0: FillState,
    batch_size: int,
    wanted: int,
    xc: int,
    yc: int,
    cap: int,
    fresh: int,
    fin: FillState,
) -> bool {
    exists|f: Seq<(Seq<u32>, Seq<u32>)>|
        #[trigger] fill_matches(dataset, local, s0, f, batch_size, wanted, xc, yc, cap, fresh, fin)
}

proof fn lemma_stream_rows_within(s: FillState, from: int, f: Seq<(Seq<u32>, Seq<u32>)>, xc: int, yc: int, cap: int)
    requires
        s.cursor + f.len() <= s.order.len(),
    ensures
        stream_rows(s, from, f, xc, yc, cap).order == s.order,
        stream_rows(s, from, f, xc, yc, cap).rng == s.rng,
        stream_rows(s, from, f, xc, yc, cap).cursor == s.cursor + f.len(),
    decreases f.len(),
{
    if f.len() > 0 {
        lemma_stream_rows_within(s, from, f.drop_last(), xc, yc, cap);
    }
}

/// Rows taken from the dataset follow the order from the cursor on, leaving the
/// order and the generator alone while it lasts. Once the order is used up (the
/// cursor at or past its end) it is replaced by its Fisher–Yates shuffle with the
/// generator, the generator moves on by one draw per entry after the first, and
/// the rows go on from the start of the new order.
pub proof fn lemma_stream_epochs(s: FillState, from: int, f: Seq<(Seq<u32>, Seq<u32>)>, xc: int, yc: int, cap: int)
    requires
        s.order.len() > 0,
        s.order.len() <= usize::MAX,
    ensures
        s.cursor + f.len() <= s.order.len() ==> {
            &&& stream_rows(s, from, f, xc, yc, cap).order == s.order
            &&& stream_rows(s, from, f, xc, yc, cap).rng == s.rng
            &&& stream_rows(s, from, f, xc, yc, cap).cursor == s.cursor + f.len()
        },
        ({
            let n = s.order.len() as int;
            let c = if s.cursor < n { s.cursor } else { n };
            n < c + f.len() <= 2 * n ==> {
                &&& stream_rows(s, from, f, xc, yc, cap).order == spec_shuffle(s.order, s.rng).0
                &&& stream_rows(s, from, f, xc, yc, cap).rng == spec_advance_n(s.rng, (n - 1) as nat)
                &&& stream_rows(s, from, f, xc, yc, cap).cursor == c + f.len() - n
                &&& stream_rows(s, from, f, xc, yc, cap).order.to_multiset() == s.order.to_multiset()
            }
        }),
    decreases f.len(),
{
    lemma_shuffle_draws(s.order, s.rng);
    let n = s.order.len() as int;
    let c = if s.cursor < n { s.cursor } else { n };
    if s.cursor + f.len() <= n {
        lemma_stream_rows_within(s, from, f, xc, yc, cap);
    }
    if n < c + f.len() <= 2 * n {
        let g = f.drop_last();
        let p = stream_rows(s, from, g, xc, yc, cap);
        if c + g.len() > n {
            lemma_stream_epochs(s, from, g, xc, yc, cap);
            assert(p.cursor < n);
        } else if g.len() == 0 {
            assert(p == s);
        } else {
            lemma_stream_rows_within(s, from, g, xc, yc, cap);
        }
    }
}

proof fn lemma_draws_keep_order(s: FillState, from: int, k: nat, xc: int, yc: int, lx: Seq<u32>, ly: Seq<u32>, n: int)
    ensures
        ring_draws(s, from, k, xc, yc).order == s.order,
        ring_draws(s, from, k, xc, yc).cursor == s.cursor,
        ring_draws(s, from, k, xc, yc).rng == spec_advance_n(s.rng, k),
        local_rows(s, from, k, xc, yc, lx, ly, n).order == s.order,
        local_rows(s, from, k, xc, yc, lx, ly, n).cursor == s.cursor,
        local_rows(s, from, k, xc, yc, lx, ly, n).rng == spec_advance_n(s.rng, k),
    decreases k,
{
    if k > 0 {
        lemma_draws_keep_order(s, from, (k - 1) as nat, xc, yc, lx, ly, n);
    }
}

/// A minibatch built while a dataset with a non-empty order is present moves the
/// cursor on by the fresh rows and leaves the order as it was, as long as the
/// order lasts. When the cursor was at or past the end of the order, the order
/// afterwards is the Fisher–Yates shuffle of the old one with the old generator
/// state and the cursor ends at the number of fresh rows; when the batch is all
/// fresh rows, the generator ends one draw per order entry after the first
/// further on.
pub proof fn lemma_fill_reshuffles<D: Dataset>(
    dataset: Option<&D>,
    local: Option<AdaptBatch>,
    s0: FillState,
    batch_size: int,
    wanted: int,
    xc: int,
    yc: int,
    cap: int,
    fresh: int,
    fin: FillState,
)
    requires
        dataset is Some,
        0 < s0.order.len() <= usize::MAX,
        fill_done(dataset, local, s0, batch_size, wanted, xc, yc, cap, fresh, fin),
    ensures
        s0.cursor + fresh <= s0.order.len() ==> fin.order == s0.order && fin.cursor == s0.cursor + fresh,
        s0.cursor >= s0.order.len() && 0 < fresh <= s0.order.len() ==> {
            &&& fin.order == spec_shuffle(s0.order, s0.rng).0
            &&& fin.cursor == fresh
            &&& fin.order.to_multiset() == s0.order.to_multiset()
        },
        s0.cursor >= s0.order.len() && 0 < fresh <= s0.order.len() && fresh == batch_size
            && replay_rows(batch_size, s0.rlen, wanted) == 0 ==> fin.rng == spec_advance_n(s0.rng, (s0.order.len() - 1) as nat),
{
    let f = choose|f: Seq<(Seq<u32>, Seq<u32>)>|
        #[trigger] fill_matches(dataset, local, s0, f, batch_size, wanted, xc, yc, cap, fresh, fin);
    assert(fill_matches(dataset, local, s0, f, batch_size, wanted, xc, yc, cap, fresh, fin));
    assert(f.len() == fresh);
    lemma_stream_epochs(s0, 0, f, xc, yc, cap);
    let s1 = stream_rows(s0, 0, f, xc, yc, cap);
    let rn = replay_rows(batch_size, s0.rlen, wanted);
    assert(fill_spec(s0, true, local, f, batch_size, wanted, xc, yc, cap) == fin);
    if s1.rlen > 0 {
        lemma_draws_keep_order(s1, batch_size - rn, rn as nat, xc, yc, Seq::empty(), Seq::empty(), 0);
        assert(fin == ring_draws(s1, batch_size - rn, rn as nat, xc, yc));
    } else if local is Some {
        let b = local->0;
        lemma_draws_keep_order(s1, batch_size - rn, rn as nat, xc, yc, b.x.data@, b.y.data@, b.x.shape@[0] as int);
        assert(fin == local_rows(s1, batch_size - rn, rn as nat, xc, yc, b.x.data@, b.y.data@, b.x.shape@[0] as int));
    } else {
        assert(fin == s1);
    }
    assert(spec_advance_n(s1.rng, 0) == s1.rng);
}

/// Builds one training minibatch of `batch_size` rows in `bx` / `by`.
///
/// The ring supplies `wanted_replay` rows (none while it is empty, at most the whole
/// batch), the last ones; the others are fresh: taken in `order` from `dataset`
/// (reshuffled with `rng` each time the order runs out, and each also stored in
/// the ring), else drawn from `local`, else from the ring, else zeros. The ring
/// rows are drawn from the ring, or from `local` while the ring is empty. Every
/// draw is the generator's next word modulo the number of rows drawn from.
#[verifier::spinoff_prover]
pub fn fill_train_batch<D: Dataset>(
    replay: &mut ReplayBuffer,
    bx: &mut Tensor,
    by: &mut Tensor,
    local: Option<&AdaptBatch>,
    dataset: Option<&D>,
    order: &mut Vec<usize>,
    cursor: &mut usize,
    batch_size: usize,
    wanted_replay: usize,
    rng: &mut Prng,
)
    requires
        old(replay).wf(),
        old(bx).data@.len() == batch_size * old(replay).spec_x_cols(),
        old(by).data@.len() == batch_size * old(replay).spec_y_cols(),
        local matches Some(b) ==> batch_fits(*b, old(replay).spec_x_cols(), old(replay).spec_y_cols()),
        dataset matches Some(d) ==> d.ready(),
        dataset is Some && old(order)@.len() == 0 && batch_size > 0 ==> old(replay).spec_len() > 0,
    ensures
        final(bx).shape == old(bx).shape,
        final(by).shape == old(by).shape,
        final(bx).data@.len() == old(bx).data@.len(),
        final(by).data@.len() == old(by).data@.len(),
        final(replay).wf(),
        final(replay).spec_capacity() == old(replay).spec_capacity(),
        final(replay).spec_x_cols() == old(replay).spec_x_cols(),
        final(replay).spec_y_cols() == old(replay).spec_y_cols(),
        final(order)@.len() == old(order)@.len(),
        final(order)@.to_multiset() == old(order)@.to_multiset(),
        ({
            let xc = old(replay).spec_x_cols();
            let yc = old(replay).spec_y_cols();
            let cap = old(replay).spec_capacity();
            let s0 = fill_state(old(bx).data@, old(by).data@, *old(replay), old(order)@, *old(cursor) as int, old(rng)@);
            let fresh = batch_size - replay_rows(batch_size as int, old(replay).spec_len(), wanted_replay as int);
            let lb = match local {
                Some(b) => Some(*b),
                None => None,
            };
            fill_done(dataset, lb, s0, batch_size as int, wanted_replay as int, xc, yc, cap, fresh,
                fill_state(final(bx).data@, final(by).data@, *final(replay), final(order)@, *final(cursor) as int, final(rng)@))
        }),
        ({
            let n = old(order)@.len();
            let fresh = batch_size - replay_rows(batch_size as int, old(replay).spec_len(), wanted_replay as int);
            dataset is Some && n > 0 ==> {
                &&& *old(cursor) + fresh <= n ==> final(order)@ == old(order)@ && *final(cursor) == *old(cursor) + fresh
                &&& *old(cursor) >= n && 0 < fresh <= n ==> final(order)@ == spec_shuffle(old(order)@, old(rng)@).0
                    && *final(cursor) == fresh
                &&& *old(cursor) >= n && 0 < fresh <= n && fresh == batch_size ==> final(rng)@ == spec_advance_n(
                    old(rng)@,
                    (n - 1) as nat,
                )
            }
        }),
{
    let xc = replay.x_cols();
    let yc = replay.y_cols();
    let ghost cap = replay.spec_capacity();
    let wanted = if replay.is_empty() { 0 } else { wanted_replay };
    let replay_n = if wanted < batch_size { wanted } else { batch_size };
    let fresh_n = batch_size - replay_n;
    let ghost lb = match local {
        Some(b) => Some(*b),
        None => None,
    };
    let ghost s0 = fill_state(bx.data@, by.data@, *replay, order@, *cursor as int, rng@);
    let ghost mut f: Seq<(Seq<u32>, Seq<u32>)> = Seq::empty();
    // Fresh rows: prefer the dataset stream, else the local batch, else the ring.
    match dataset {
        Some(data) => {
            if order.len() == 0 {
                if fresh_n > 0 {
                    fill_rows_replay(replay, bx, by, 0, fresh_n, batch_size, rng, Ghost(s0));
                }
            } else {
                let g = fill_rows_dataset(replay, bx, by, data, order, cursor, 0, fresh_n, batch_size, rng, Ghost(s0));
                proof {
                    f = g@;
                }
            }
        },
        None => match local {
            Some(batch) => {
                fill_rows_local(bx, by, batch, 0, fresh_n, batch_size, xc, yc, rng, Ghost(s0));
            },
            None => {
                if !replay.is_empty() {
                    fill_rows_replay(replay, bx, by, 0, fresh_n, batch_size, rng, Ghost(s0));
                } else {
                    fill_rows_zero(bx, by, 0, fresh_n, batch_size, xc, yc, Ghost(s0));
                }
            },
        },
    }
    let ghost s1 = fill_state(bx.data@, by.data@, *replay, order@, *cursor as int, rng@);
    proof {
        if dataset is Some && s0.order.len() == 0 && fresh_n == 0 {
            assert(ring_draws(s0, 0, 0, xc as int, yc as int) == s0);
        }
        assert(s1 == if dataset is Some {
            if s0.order.len() == 0 {
                ring_draws(s0, 0, fresh_n as nat, xc as int, yc as int)
            } else {
                stream_rows(s0, 0, f, xc as int, yc as int, cap)
            }
        } else if lb is Some {
            local_rows(s0, 0, fresh_n as nat, xc as int, yc as int, lb->0.x.data@, lb->0.y.data@, lb->0.x.shape@[0] as int)
        } else if s0.rlen > 0 {
            ring_draws(s0, 0, fresh_n as nat, xc as int, yc as int)
        } else {
            zero_rows(s0, 0, fresh_n as nat, xc as int, yc as int)
        });
    }
    // Ring rows: the ring, or the local batch while the ring is empty.
    if !replay.is_empty() {
        fill_rows_replay(replay, bx, by, fresh_n, batch_size, batch_size, rng, Ghost(s1));
    } else {
        match local {
            Some(batch) => {
                fill_rows_local(bx, by, batch, fresh_n, batch_size, batch_size, xc, yc, rng, Ghost(s1));
            },
            None => {},
        }
    }
    proof {
        let fin = fill_state(bx.data@, by.data@, *replay, order@, *cursor as int, rng@);
        let oxc = old(replay).spec_x_cols();
        let oyc = old(replay).spec_y_cols();
        let ocap = old(replay).spec_capacity();
        assert(fill_spec(s0, dataset is Some, lb, f, batch_size as int, wanted_replay as int, oxc, oyc, ocap) == fin);
        if dataset is Some && old(order)@.len() > 0 {
            assert(f.len() == fresh_n && stream_fits(dataset->0, s0, 0, f, oxc, oyc, ocap));
        }
        assert(fill_matches(dataset, lb, s0, f, batch_size as int, wanted_replay as int, oxc, oyc, ocap, fresh_n as int, fin));
        assert(fill_done(dataset, lb, s0, batch_size as int, wanted_replay as int, oxc, oyc, ocap, fresh_n as int, fin));
        if dataset is Some && old(order)@.len() > 0 {
            lemma_fill_reshuffles(dataset, lb, s0, batch_size as int, wanted_replay as int, oxc, oyc, ocap, fresh_n as int, fin);
        }
    }
}

/// Why a model cannot back an adaptation session.
#[derive(Clone, Copy, Debug, PartialEq, Eq, Structural)]
pub enum SessionError {
    /// No var is flagged as the input.
    NoInput,
    /// No var is flagged as the desired output.
    NoDesiredOutput,
    /// The input is not a 2D batch.
    InputNot2d,
    /// The desired output is not a 2D batch.
    LabelsNot2d,
    /// Input and desired output disagree on the batch size.
    BatchMismatch,
}

/// A session's `(batch_size, x_cols, y_cols)`: read off the 2D input `[B, Fx]` and
/// the 2D desired output `[B, Fy]`, or why they do not fit (checked in this order).
pub open spec fn spec_session_dims(m: ModelContext) -> Result<(usize, usize, usize), SessionError> {
    match m.input {
        None => Err(SessionError::NoInput),
        Some(i) => match m.desired_output {
            None => Err(SessionError::NoDesiredOutput),
            Some(d) => {
                let xs = m.vars@[i as int].val.shape@;
                let ys = m.vars@[d as int].val.shape@;
                if xs.len() != 2 {
                    Err(SessionError::InputNot2d)
                } else if ys.len() != 2 {
                    Err(SessionError::LabelsNot2d)
                } else if ys[0] != xs[0] {
                    Err(SessionError::BatchMismatch)
                } else {
                    Ok((xs[0], xs[1], ys[1]))
                }
            },
        },
    }
}

/// Checks that a model can back an adaptation session and gives its dimensions.
pub fn session_dims(model: &ModelContext) -> (r: Result<(usize, usize, usize), SessionError>)
    requires
        model.wf(),
    ensures
        r == spec_session_dims(*model),
{
    let input = match model.input {
        Some(i) => i,
        None => return Err(SessionError::NoInput),
    };
    let desired = match model.desired_output {
        Some(d) => d,
        None => return Err(SessionError::NoDesiredOutput),
    };
    let xs = &model.vars[input].val.shape;
    if xs.len() != 2 {
        return Err(SessionError::InputNot2d);
    }
    let ys = &model.vars[desired].val.shape;
    if ys.len() != 2 {
        return Err(SessionError::LabelsNot2d);
    }
    if ys[0] != xs[0] {
        return Err(SessionError::BatchMismatch);
    }
    Ok((xs[0], xs[1], ys[1]))
}

/// Why an input cannot be predicted on.
#[derive(Clone, Copy, Debug, PartialEq, Eq, Structural)]
pub enum PredictError {
    /// The feature axis has the wrong length.
    WrongFeatures { expected: usize, got: usize },
    /// More rows than the session's batch.
    BatchTooLarge { batch: usize, limit: usize },
    /// Neither rank 1 nor rank 2.
    BadRank,
}

/// The rows a prediction runs on: 1 for a feature vector `[F]`, `B` for a batch
/// `[B, F]` with `B <= batch_size`; an error otherwise (checked in this order).
pub open spec fn spec_predict_rows(shape: Seq<usize>, x_cols: usize, batch_size: usize) -> Result<usize, PredictError> {
    if shape.len() == 1 {
        if shape[0] != x_cols {
            Err(PredictError::WrongFeatures { expected: x_cols, got: shape[0] })
        } else {
            Ok(1)
        }
    } else if shape.len() == 2 {
        if shape[1] != x_cols {
            Err(PredictError::WrongFeatures { expected: x_cols, got: shape[1] })
        } else if shape[0] > batch_size {
            Err(PredictError::BatchTooLarge { batch: shape[0], limit: batch_size })
        } else {
            Ok(shape[0])
        }
    } else {
        Err(PredictError::BadRank)
    }
}

/// Any batch up to the session's batch size is accepted with its row count, and a
/// feature vector as one row; a larger batch is refused, naming both sizes.
pub proof fn lemma_predict_accepts(b: usize, x_cols: usize, batch_size: usize)
    ensures
        b <= batch_size ==> spec_predict_rows(seq![b, x_cols], x_cols, batch_size) == Ok::<usize, PredictError>(b),
        b > batch_size ==> spec_predict_rows(seq![b, x_cols], x_cols, batch_size) == Err::<usize, PredictError>(
            PredictError::BatchTooLarge { batch: b, limit: batch_size },
        ),
        spec_predict_rows(seq![x_cols], x_cols, batch_size) == Ok::<usize, PredictError>(1),
{
}

/// Checks a prediction input against the session's feature count and batch size.
pub fn predict_rows(x: &Tensor, x_cols: usize, batch_size: usize) -> (r: Result<usize, PredictError>)
    ensures
        r == spec_predict_rows(x.shape@, x_cols, batch_size),
{
    let nd = x.ndim();
    if nd == 1 {
        if x.shape[0] != x_cols {
            return Err(PredictError::WrongFeatures { expected: x_cols, got: x.shape[0] });
        }
        Ok(1)
    } else if nd == 2 {
        if x.shape[1] != x_cols {
            return Err(PredictError::WrongFeatures { expected: x_cols, got: x.shape[1] });
        }
        if x.shape[0] > batch_size {
            return Err(PredictError::BatchTooLarge { batch: x.shape[0], limit: batch_size });
        }
        Ok(x.shape[0])
    } else {
        Err(PredictError::BadRank)
    }
}

} // verus!
