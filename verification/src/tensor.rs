use vstd::prelude::*;

verus! {

/// Number of elements of a shape: the product of its dimensions (1 for the empty shape).
pub open spec fn shape_product(s: Seq<usize>) -> int
    decreases s.len(),
{
    if s.len() == 0 {
        1
    } else {
        shape_product(s.drop_last()) * s.last()
    }
}

/// Every running product of the dimensions, taken left to right, fits in a `usize`.
pub open spec fn numel_fits(s: Seq<usize>) -> bool
    decreases s.len(),
{
    if s.len() == 0 {
        true
    } else {
        numel_fits(s.drop_last()) && shape_product(s) <= usize::MAX
    }
}

pub proof fn lemma_shape_product_nonneg(s: Seq<usize>)
    ensures
        shape_product(s) >= 0,
    decreases s.len(),
{
    if s.len() > 0 {
        lemma_shape_product_nonneg(s.drop_last());
        vstd::arithmetic::mul::lemma_mul_nonnegative(shape_product(s.drop_last()), s.last() as int);
    }
}

/// Product of the dimensions of `shape`.
pub fn shape_numel(shape: &[usize]) -> (n: usize)
    requires
        numel_fits(shape@),
    ensures
        n == shape_product(shape@),
{
    let mut n: usize = 1;
    let mut i: usize = 0;
    while i < shape.len()
        invariant
            i <= shape.len(),
            numel_fits(shape@),
            n == shape_product(shape@.take(i as int)),
        decreases shape.len() - i,
    {
        proof {
            assert(shape@.take(i + 1).drop_last() == shape@.take(i as int));
            lemma_numel_fits_prefix(shape@, (i + 1) as int);
            lemma_shape_product_nonneg(shape@.take(i as int));
        }
        n = n * shape[i];
        i = i + 1;
    }
    assert(shape@.take(shape.len() as int) == shape@);
    n
}

/// Running products fit for every prefix of a shape whose running products fit.
pub proof fn lemma_numel_fits_prefix(s: Seq<usize>, k: int)
    requires
        numel_fits(s),
        0 <= k <= s.len(),
    ensures
        numel_fits(s.take(k)),
        shape_product(s.take(k)) <= usize::MAX,
    decreases s.len() - k,
{
    if k == s.len() {
        assert(s.take(k) == s);
        if s.len() == 0 {
        }
    } else {
        assert(s.drop_last().take(k) == s.take(k));
        lemma_numel_fits_prefix(s.drop_last(), k);
    }
}

/// Row-major N-D tensor. Each element is an IEEE-754 single-precision value held by
/// its bit pattern (`f32::to_bits`); this crate moves and lays out elements without
/// computing on them.
#[derive(Clone, Debug)]
pub struct Tensor {
    pub shape: Vec<usize>,
    pub data: Vec<u32>,
}

/// The bit pattern of `+0.0`.
pub const ZERO_BITS: u32 = 0u32;

impl Tensor {
    /// Well-formed: as many elements as the shape has.
    pub open spec fn wf(&self) -> bool {
        self.data@.len() == shape_product(self.shape@)
    }

    pub fn new(shape: &[usize]) -> (t: Self)
        requires
            numel_fits(shape@),
        ensures
            t.wf(),
            t.shape@ == shape@,
            t.data@ == Seq::new(shape_product(shape@) as nat, |i: int| ZERO_BITS),
    {
        let n = shape_numel(shape);
        let data = vec![ZERO_BITS; n];
        let t = Tensor { shape: vstd::slice::slice_to_vec(shape), data };
        assert(t.data@ == Seq::new(shape_product(shape@) as nat, |i: int| ZERO_BITS));
        t
    }

    pub fn from_vec(shape: &[usize], data: Vec<u32>) -> (t: Self)
        requires
            numel_fits(shape@),
            shape_product(shape@) == data@.len(),
        ensures
            t.wf(),
            t.shape@ == shape@,
            t.data@ == data@,
    {
        Tensor { shape: vstd::slice::slice_to_vec(shape), data }
    }

    pub fn zeros_like(t: &Tensor) -> (z: Self)
        requires
            numel_fits(t.shape@),
        ensures
            z.wf(),
            z.shape@ == t.shape@,
            z.data@ == Seq::new(shape_product(t.shape@) as nat, |i: int| ZERO_BITS),
    {
        Tensor::new(t.shape.as_slice())
    }

    pub fn numel(&self) -> (n: usize)
        ensures
            n == self.data@.len(),
    {
        self.data.len()
    }

    pub fn ndim(&self) -> (n: usize)
        ensures
            n == self.shape@.len(),
    {
        self.shape.len()
    }

    /// Leading axis length (batch / rows for 2D); 1 for a scalar shape.
    pub fn rows(&self) -> (r: usize)
        ensures
            r == (if self.shape@.len() == 0 { 1 } else { self.shape@[0] }),
    {
        if self.shape.len() == 0 {
            1
        } else {
            self.shape[0]
        }
    }

    /// Trailing axis length (features / cols for 2D); 1 for a scalar shape.
    pub fn cols(&self) -> (c: usize)
        ensures
            c == (if self.shape@.len() == 0 { 1 } else { self.shape@.last() }),
    {
        if self.shape.len() == 0 {
            1
        } else {
            self.shape[self.shape.len() - 1]
        }
    }

    pub fn reshape(&mut self, shape: &[usize])
        requires
            numel_fits(shape@),
            shape_product(shape@) == old(self).data@.len(),
        ensures
            final(self).shape@ == shape@,
            final(self).data@ == old(self).data@,
            final(self).wf(),
    {
        self.shape = vstd::slice::slice_to_vec(shape);
    }

    pub fn viewed(self, shape: &[usize]) -> (t: Self)
        requires
            numel_fits(shape@),
            shape_product(shape@) == self.data@.len(),
        ensures
            t.shape@ == shape@,
            t.data@ == self.data@,
            t.wf(),
    {
        let mut t = self;
        t.reshape(shape);
        t
    }

    /// Copies the elements of `src` when both tensors have the same shape; returns
    /// whether it did.
    pub fn copy_from(&mut self, src: &Tensor) -> (ok: bool)
        requires
            old(self).wf(),
            src.wf(),
        ensures
            ok == (old(self).shape@ == src.shape@),
            final(self).shape@ == old(self).shape@,
            ok ==> final(self).data@ == src.data@,
            !ok ==> final(self).data@ == old(self).data@,
    {
        if !same_dims(&self.shape, &src.shape) {
            return false;
        }
        let mut i: usize = 0;
        while i < src.data.len()
            invariant
                i <= src.data@.len(),
                self.data@.len() == src.data@.len(),
                self.shape@ == old(self).shape@,
                forall|j: int| 0 <= j < i ==> self.data@[j] == src.data@[j],
            decreases src.data@.len() - i,
        {
            self.data.set(i, src.data[i]);
            i = i + 1;
        }
        assert(self.data@ == src.data@);
        true
    }

    /// Sets every element to `+0.0`.
    pub fn clear(&mut self)
        ensures
            final(self).shape@ == old(self).shape@,
            final(self).data@ == Seq::new(old(self).data@.len(), |i: int| ZERO_BITS),
    {
        self.fill(ZERO_BITS);
    }

    /// Sets every element to the value whose bit pattern is `x`.
    pub fn fill(&mut self, x: u32)
        ensures
            final(self).shape@ == old(self).shape@,
            final(self).data@ == Seq::new(old(self).data@.len(), |i: int| x),
    {
        let mut i: usize = 0;
        while i < self.data.len()
            invariant
                i <= self.data@.len(),
                self.data@.len() == old(self).data@.len(),
                self.shape@ == old(self).shape@,
                forall|j: int| 0 <= j < i ==> self.data@[j] == x,
            decreases self.data@.len() - i,
        {
            self.data.set(i, x);
            i = i + 1;
        }
        assert(self.data@ == Seq::new(old(self).data@.len(), |i: int| x));
    }
}

/// Whether two shapes are equal, dimension by dimension.
pub fn same_dims(a: &Vec<usize>, b: &Vec<usize>) -> (r: bool)
    ensures
        r == (a@ == b@),
{
    if a.len() != b.len() {
        return false;
    }
    let mut i: usize = 0;
    while i < a.len()
        invariant
            i <= a@.len(),
            a@.len() == b@.len(),
            forall|j: int| 0 <= j < i ==> a@[j] == b@[j],
        decreases a@.len() - i,
    {
        if a[i] != b[i] {
            return false;
        }
        i = i + 1;
    }
    assert(a@ == b@);
    true
}

/// Whether two tensors have the same shape.
pub fn same_shape(a: &Tensor, b: &Tensor) -> (r: bool)
    ensures
        r == (a.shape@ == b.shape@),
{
    same_dims(&a.shape, &b.shape)
}

/// A zeroed tensor of the shape of `t`.
pub fn zero_like(t: &Tensor) -> (z: Tensor)
    requires
        numel_fits(t.shape@),
    ensures
        z.wf(),
        z.shape@ == t.shape@,
        z.data@ == Seq::new(shape_product(t.shape@) as nat, |i: int| ZERO_BITS),
{
    Tensor::zeros_like(t)
}

/// Row `k` of a row-major table with `cols` columns.
pub open spec fn row_of(data: Seq<u32>, k: int, cols: int) -> Seq<u32> {
    data.subrange(k * cols, k * cols + cols)
}

/// `x` with `row` written over columns `k * cols .. k * cols + cols`.
pub open spec fn put_row(x: Seq<u32>, k: int, cols: int, row: Seq<u32>) -> Seq<u32> {
    x.subrange(0, k * cols) + row + x.subrange(k * cols + cols, x.len() as int)
}

/// Row `k` of a table of `n` rows of `cols` columns lies inside the table.
pub proof fn lemma_row_in_range(k: int, n: int, cols: int)
    requires
        0 <= k < n,
        0 <= cols,
    ensures
        0 <= k * cols,
        k * cols + cols <= n * cols,
{
    vstd::arithmetic::mul::lemma_mul_inequality(k + 1, n, cols);
    vstd::arithmetic::mul::lemma_mul_is_distributive_add_other_way(cols, k, 1);
    vstd::arithmetic::mul::lemma_mul_nonnegative(k, cols);
}

/// Writes `src` over `dst[at .. at + src.len()]`.
pub fn copy_into(dst: &mut Vec<u32>, at: usize, src: &[u32])
    requires
        at + src@.len() <= old(dst)@.len(),
    ensures
        final(dst)@ == old(dst)@.subrange(0, at as int) + src@ + old(dst)@.subrange(at + src@.len(), old(dst)@.len() as int),
{
    let dl = dst.len();
    let mut i: usize = 0;
    while i < src.len()
        invariant
            i <= src@.len(),
            dl == old(dst)@.len(),
            at + src@.len() <= old(dst)@.len(),
            dst@.len() == old(dst)@.len(),
            forall|k: int| 0 <= k < at ==> dst@[k] == old(dst)@[k],
            forall|k: int| at + src@.len() <= k < dst@.len() ==> dst@[k] == old(dst)@[k],
            forall|k: int| 0 <= k < i ==> dst@[at + k] == src@[k],
            forall|k: int| at + i <= k < at + src@.len() ==> dst@[k] == old(dst)@[k],
        decreases src@.len() - i,
    {
        dst.set(at + i, src[i]);
        i = i + 1;
    }
    assert(dst@ =~= old(dst)@.subrange(0, at as int) + src@ + old(dst)@.subrange(at + src@.len(), old(dst)@.len() as int));
}

/// Writing row `k` leaves the length alone, puts `row` at `k` and keeps every
/// other row.
pub proof fn lemma_put_row(x: Seq<u32>, k: int, cols: int, row: Seq<u32>, j: int)
    requires
        0 <= k,
        0 <= j,
        0 <= cols,
        row.len() == cols,
        k * cols + cols <= x.len(),
        j * cols + cols <= x.len(),
    ensures
        put_row(x, k, cols, row).len() == x.len(),
        j == k ==> row_of(put_row(x, k, cols, row), j, cols) == row,
        j != k ==> row_of(put_row(x, k, cols, row), j, cols) == row_of(x, j, cols),
{
    let p = put_row(x, k, cols, row);
    vstd::arithmetic::mul::lemma_mul_nonnegative(k, cols);
    vstd::arithmetic::mul::lemma_mul_nonnegative(j, cols);
    if j == k {
        assert(row_of(p, j, cols) =~= row);
    } else if j < k {
        vstd::arithmetic::mul::lemma_mul_inequality(j + 1, k, cols);
        vstd::arithmetic::mul::lemma_mul_is_distributive_add_other_way(cols, j, 1);
        assert(row_of(p, j, cols) =~= row_of(x, j, cols));
    } else {
        vstd::arithmetic::mul::lemma_mul_inequality(k + 1, j, cols);
        vstd::arithmetic::mul::lemma_mul_is_distributive_add_other_way(cols, k, 1);
        assert(row_of(p, j, cols) =~= row_of(x, j, cols));
    }
}

/// Rows of `src` gathered into `out`: `out` holds `indices.len()` rows, row `k`
/// being row `indices[k]` of `src`.
pub open spec fn gathered(out: Seq<u32>, src: Seq<u32>, indices: Seq<usize>, cols: int) -> bool {
    forall|k: int| 0 <= k < indices.len() ==> #[trigger] row_of(out, k, cols) == row_of(src, indices[k] as int, cols)
}

/// Every listed row lies inside `src` for rows of `cols` columns.
pub open spec fn rows_in_range(src: Seq<u32>, indices: Seq<usize>, cols: int) -> bool {
    forall|k: int| 0 <= k < indices.len() ==> #[trigger] indices[k] * cols + cols <= src.len()
}

/// Gather a contiguous batch of rows from a 2D tensor into `out` `[batch, cols]`;
/// returns whether the shapes allowed it (and `out` is unchanged when not).
pub fn gather_rows(out: &mut Tensor, src: &Tensor, indices: &[usize]) -> (ok: bool)
    requires
        old(out).wf(),
        src.wf(),
        src.shape@.len() == 2 && old(out).shape@ == seq![indices@.len() as usize, src.shape@[1]] ==> rows_in_range(
            src.data@, indices@, src.shape@[1] as int),
    ensures
        ok == (src.shape@.len() == 2 && old(out).shape@ == seq![indices@.len() as usize, src.shape@[1]]),
        final(out).shape == old(out).shape,
        ok ==> final(out).data@.len() == old(out).data@.len() && gathered(final(out).data@, src.data@, indices@, src.shape@[1] as int),
        !ok ==> final(out).data == old(out).data,
{
    if src.shape.len() != 2 || out.shape.len() != 2 {
        return false;
    }
    let cols = src.shape[1];
    if out.shape[0] != indices.len() || out.shape[1] != cols {
        proof {
            if out.shape@ == seq![indices@.len() as usize, src.shape@[1]] {
                assert(out.shape@[0] == indices@.len());
            }
        }
        return false;
    }
    assert(out.shape@ =~= seq![indices@.len() as usize, src.shape@[1]]);
    let n = indices.len();
    let ol = out.data.len();
    let sl = src.data.len();
    proof {
        assert(out.shape@.drop_last().drop_last() =~= Seq::<usize>::empty());
        assert(shape_product(out.shape@.drop_last().drop_last()) == 1);
        assert(shape_product(out.shape@.drop_last()) == n);
        assert(shape_product(out.shape@) == n * cols);
    }
    let mut k: usize = 0;
    while k < n
        invariant
            k <= n,
            n == indices@.len(),
            cols == src.shape@[1],
            src.shape@.len() == 2,
            ol == out.data@.len(),
            sl == src.data@.len(),
            out.data@.len() == n * cols,
            out.shape == old(out).shape,
            rows_in_range(src.data@, indices@, cols as int),
            forall|j: int| 0 <= j < k ==> #[trigger] row_of(out.data@, j, cols as int) == row_of(src.data@, indices@[j] as int, cols as int),
        decreases n - k,
    {
        let row = indices[k];
        proof {
            assert(row * cols + cols <= src.data@.len());
            lemma_row_in_range(k as int, n as int, cols as int);
            vstd::arithmetic::mul::lemma_mul_nonnegative(row as int, cols as int);
        }
        let s = vstd::slice::slice_subrange(src.data.as_slice(), row * cols, row * cols + cols);
        let ghost before = out.data@;
        copy_into(&mut out.data, k * cols, s);
        proof {
            assert(out.data@ == put_row(before, k as int, cols as int, s@));
            assert(s@ == row_of(src.data@, row as int, cols as int));
            assert forall|j: int| 0 <= j < k + 1 implies #[trigger] row_of(out.data@, j, cols as int) == row_of(src.data@, indices@[j] as int, cols as int) by {
                lemma_row_in_range(j, n as int, cols as int);
                lemma_put_row(before, k as int, cols as int, s@, j);
            }
        }
        k = k + 1;
    }
    true
}

/// How `out = a + b` is computed: element by element on equal shapes, or a row
/// vector `b` (`[F]`, `[1, F]` or `[F, 1]`) added to every row of `a` `[B, F]`.
#[derive(Clone, Copy, Debug, PartialEq, Eq, Structural)]
pub enum AddKernel {
    Elementwise,
    RowBroadcast { batch: usize, feat: usize },
}

/// The sum `out = a + b` for these shapes: element by element when all three
/// agree, else a row broadcast over a 2D `a` that `out` matches, else rejected.
pub open spec fn spec_add_plan(out: Seq<usize>, a: Seq<usize>, b: Seq<usize>) -> Option<AddKernel> {
    if a == b && out == a {
        Some(AddKernel::Elementwise)
    } else if a.len() == 2 && out == a && (b == seq![a[1]] || b == seq![1usize, a[1]] || b == seq![a[1], 1usize]) {
        Some(AddKernel::RowBroadcast { batch: a[0], feat: a[1] })
    } else {
        None
    }
}

/// Decides how `out = a + b` is computed for these shapes, or rejects it.
pub fn add_plan(out: &Vec<usize>, a: &Vec<usize>, b: &Vec<usize>) -> (r: Option<AddKernel>)
    ensures
        r == spec_add_plan(out@, a@, b@),
{
    if same_dims(a, b) && same_dims(out, a) {
        return Some(AddKernel::Elementwise);
    }
    if a.len() == 2 && same_dims(out, a) {
        let batch = a[0];
        let feat = a[1];
        let row = (b.len() == 1 && b[0] == feat) || (b.len() == 2 && b[0] == 1 && b[1] == feat);
        let col = b.len() == 2 && b[0] == feat && b[1] == 1;
        proof {
            if b@.len() == 1 && b@[0] == feat {
                assert(b@ =~= seq![a@[1]]);
            }
            if b@.len() == 2 && b@[0] == 1 && b@[1] == feat {
                assert(b@ =~= seq![1usize, a@[1]]);
            }
            if b@.len() == 2 && b@[0] == feat && b@[1] == 1 {
                assert(b@ =~= seq![a@[1], 1usize]);
            }
        }
        if row || col {
            return Some(AddKernel::RowBroadcast { batch, feat });
        }
    }
    None
}

/// The index of the first id that is not below `v` (the length when there is none).
pub open spec fn first_bad(ids: Seq<usize>, v: int) -> int
    decreases ids.len(),
{
    if ids.len() == 0 {
        0
    } else if first_bad(ids.drop_last(), v) < ids.len() - 1 {
        first_bad(ids.drop_last(), v)
    } else if ids.last() >= v {
        ids.len() - 1
    } else {
        ids.len() as int
    }
}

proof fn lemma_first_bad(ids: Seq<usize>, v: int)
    ensures
        0 <= first_bad(ids, v) <= ids.len(),
        forall|i: int| 0 <= i < first_bad(ids, v) ==> #[trigger] ids[i] < v,
        first_bad(ids, v) < ids.len() ==> ids[first_bad(ids, v)] >= v,
    decreases ids.len(),
{
    if ids.len() > 0 {
        lemma_first_bad(ids.drop_last(), v);
        assert forall|i: int| 0 <= i < first_bad(ids, v) implies #[trigger] ids[i] < v by {
            if i < ids.len() - 1 {
                assert(ids.drop_last()[i] == ids[i]);
            }
        }
    }
}

/// Embedding lookup: for ids of shape `ids_shape` and a table `weight` `[V, D]`,
/// `out` `[..., D]` gets row `ids[i]` of the table as its row `i`. False, with
/// `out` unchanged, when the shapes do not fit; false when an id is not below
/// `V`, after writing the rows before that id.
pub fn tensor_embedding(out: &mut Tensor, ids_shape: &[usize], ids: &[usize], weight: &Tensor) -> (ok: bool)
    requires
        old(out).wf(),
        weight.wf(),
        ids@.len() == shape_product(ids_shape@),
    ensures
        ({
            let shape_ok = weight.shape@.len() == 2 && old(out).shape@ == ids_shape@.push(weight.shape@[1]);
            let d = weight.shape@[1] as int;
            let stop = first_bad(ids@, weight.shape@[0] as int);
            &&& final(out).shape == old(out).shape
            &&& final(out).data@.len() == old(out).data@.len()
            &&& ok == (shape_ok && stop == ids@.len())
            &&& !shape_ok ==> final(out).data == old(out).data
            &&& shape_ok ==> forall|i: int| 0 <= i < stop ==> #[trigger] row_of(final(out).data@, i, d)
                == row_of(weight.data@, ids@[i] as int, d)
            &&& shape_ok ==> forall|i: int| stop <= i < ids@.len() ==> #[trigger] row_of(final(out).data@, i, d)
                == row_of(old(out).data@, i, d)
        }),
{
    if weight.shape.len() != 2 {
        return false;
    }
    let v = weight.shape[0];
    let d = weight.shape[1];
    let n = ids.len();
    let ok_shape = out.shape.len() > 0 && out.shape.len() - 1 == ids_shape.len() && out.shape[ids_shape.len()] == d && {
        let mut same = true;
        let mut k: usize = 0;
        while k < ids_shape.len()
            invariant
                k <= ids_shape@.len(),
                out.shape@.len() == ids_shape@.len() + 1,
                same == (forall|j: int| 0 <= j < k ==> out.shape@[j] == ids_shape@[j]),
            decreases ids_shape@.len() - k,
        {
            if out.shape[k] != ids_shape[k] {
                same = false;
            }
            k = k + 1;
        }
        same
    };
    proof {
        if ok_shape {
            assert(out.shape@ =~= ids_shape@.push(d));
        }
        if out.shape@ == ids_shape@.push(weight.shape@[1]) {
            assert(out.shape@[ids_shape@.len() as int] == d);
        }
    }
    if !ok_shape {
        return false;
    }
    let ol = out.data.len();
    let wl = weight.data.len();
    proof {
        let ws = weight.shape@;
        assert(ws.drop_last().drop_last() =~= Seq::<usize>::empty());
        assert(shape_product(ws.drop_last().drop_last()) == 1);
        assert(shape_product(ws.drop_last()) == v);
        assert(out.shape@.drop_last() =~= ids_shape@);
        assert(out.data@.len() == n * d);
        lemma_first_bad(ids@, v as int);
    }
    let mut i: usize = 0;
    while i < n
        invariant
            i <= n,
            n == ids@.len(),
            ol == out.data@.len(),
            out.data@.len() == n * d,
            wl == weight.data@.len(),
            weight.data@.len() == v * d,
            weight.shape@.len() == 2,
            v == weight.shape@[0],
            d == weight.shape@[1],
            out.shape == old(out).shape,
            out.data@.len() == old(out).data@.len(),
            old(out).shape@ == ids_shape@.push(d),
            forall|j: int| 0 <= j < i ==> #[trigger] ids@[j] < v,
            forall|j: int| 0 <= j < i ==> #[trigger] row_of(out.data@, j, d as int) == row_of(weight.data@, ids@[j] as int, d as int),
            forall|j: int| i <= j < n ==> #[trigger] row_of(out.data@, j, d as int) == row_of(old(out).data@, j, d as int),
            0 <= first_bad(ids@, v as int) <= n,
            forall|j: int| 0 <= j < first_bad(ids@, v as int) ==> #[trigger] ids@[j] < v,
            first_bad(ids@, v as int) < n ==> ids@[first_bad(ids@, v as int)] >= v,
        decreases n - i,
    {
        let id = ids[i];
        if id >= v {
            proof {
                let fb = first_bad(ids@, v as int);
                if fb < i {
                    assert(ids@[fb] < v);
                }
                if fb > i {
                    assert(ids@[i as int] < v);
                }
            }
            return false;
        }
        proof {
            lemma_row_in_range(id as int, v as int, d as int);
            lemma_row_in_range(i as int, n as int, d as int);
        }
        let src = vstd::slice::slice_subrange(weight.data.as_slice(), id * d, id * d + d);
        let ghost before = out.data@;
        copy_into(&mut out.data, i * d, src);
        proof {
            assert(out.data@ == put_row(before, i as int, d as int, src@));
            assert forall|j: int| 0 <= j < i + 1 implies #[trigger] row_of(out.data@, j, d as int) == row_of(weight.data@, ids@[j] as int, d as int) by {
                lemma_row_in_range(j, n as int, d as int);
                lemma_put_row(before, i as int, d as int, src@, j);
            }
            assert forall|j: int| i + 1 <= j < n implies #[trigger] row_of(out.data@, j, d as int) == row_of(old(out).data@, j, d as int) by {
                lemma_row_in_range(j, n as int, d as int);
                lemma_put_row(before, i as int, d as int, src@, j);
            }
        }
        i = i + 1;
    }
    proof {
        let fb = first_bad(ids@, v as int);
        if fb < n {
            assert(ids@[fb] < v);
        }
    }
    true
}

/// Whether the gradient of a bias added to every row (`[F]` beside a 2D gradient
/// `[B, F]`, or the `[1, 1]` bias) is summed over the gradient's rows; otherwise it
/// is added element by element.
pub open spec fn spec_bias_sums_rows(bias: Seq<usize>, grad: Seq<usize>) -> bool {
    (bias.len() == 1 && grad.len() == 2 && bias[0] == grad[1]) || (bias == seq![1usize, 1usize] && grad.len() == 2)
}

/// Decides how the gradient of an added bias of shape `bias` is taken from the
/// output gradient of shape `grad`.
pub fn bias_sums_rows(bias: &Vec<usize>, grad: &Vec<usize>) -> (r: bool)
    ensures
        r == spec_bias_sums_rows(bias@, grad@),
{
    let row = bias.len() == 1 && grad.len() == 2 && bias[0] == grad[1];
    let unit = bias.len() == 2 && bias[0] == 1 && bias[1] == 1 && grad.len() == 2;
    proof {
        if bias@.len() == 2 && bias@[0] == 1 && bias@[1] == 1 {
            assert(bias@ =~= seq![1usize, 1usize]);
        }
    }
    row || unit
}

} // verus!
