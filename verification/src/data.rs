use crate::prng::{spec_advance, spec_advance_n, spec_output, Prng, PrngState};
use crate::model::zeros;
use crate::tensor::{gather_rows, gathered, lemma_row_in_range, row_of, rows_in_range, Tensor};
use vstd::prelude::*;

verus! {

/// In-memory pair of 2D tensors `[N, Fx]` / `[N, Fy]`.
pub struct TensorDataset {
    pub x: Tensor,
    pub y: Tensor,
}

impl TensorDataset {
    /// Both tensors well-formed, 2D, with one row per sample.
    pub open spec fn wf(&self) -> bool {
        &&& self.x.wf()
        &&& self.y.wf()
        &&& self.x.shape@.len() == 2
        &&& self.y.shape@.len() == 2
        &&& self.x.shape@[0] == self.y.shape@[0]
    }

    pub fn new(x: Tensor, y: Tensor) -> (d: Self)
        requires
            x.shape@.len() == 2,
            y.shape@.len() == 2,
            x.shape@[0] == y.shape@[0],
        ensures
            d.x == x,
            d.y == y,
    {
        TensorDataset { x, y }
    }

    /// Gathers the listed samples into `bx` and `by`; false (leaving `by` alone)
    /// when `bx` has the wrong shape, false when `by` does.
    pub fn gather_batch(&self, indices: &[usize], bx: &mut Tensor, by: &mut Tensor) -> (ok: bool)
        requires
            self.wf(),
            old(bx).wf(),
            old(by).wf(),
            old(bx).shape@ == seq![indices@.len() as usize, self.x.shape@[1]] ==> forall|k: int|
                0 <= k < indices@.len() ==> #[trigger] indices@[k] < self.x.shape@[0],
        ensures
            ({
                let okx = old(bx).shape@ == seq![indices@.len() as usize, self.x.shape@[1]];
                let oky = old(by).shape@ == seq![indices@.len() as usize, self.y.shape@[1]];
                &&& ok == (okx && oky)
                &&& final(bx).shape == old(bx).shape
                &&& final(by).shape == old(by).shape
                &&& okx ==> gathered(final(bx).data@, self.x.data@, indices@, self.x.shape@[1] as int)
                    && final(bx).data@.len() == old(bx).data@.len()
                &&& !okx ==> final(bx).data == old(bx).data
                &&& ok ==> gathered(final(by).data@, self.y.data@, indices@, self.y.shape@[1] as int)
                    && final(by).data@.len() == old(by).data@.len()
                &&& !ok ==> final(by).data == old(by).data
            }),
    {
        proof {
            self.lemma_rows_in_range(indices@);
        }
        let okx = gather_rows(bx, &self.x, indices);
        if !okx {
            return false;
        }
        gather_rows(by, &self.y, indices)
    }

    proof fn lemma_rows_in_range(&self, indices: Seq<usize>)
        requires
            self.wf(),
        ensures
            (forall|k: int| 0 <= k < indices.len() ==> #[trigger] indices[k] < self.x.shape@[0]) ==> {
                &&& rows_in_range(self.x.data@, indices, self.x.shape@[1] as int)
                &&& rows_in_range(self.y.data@, indices, self.y.shape@[1] as int)
            },
    {
        if forall|k: int| 0 <= k < indices.len() ==> #[trigger] indices[k] < self.x.shape@[0] {
            let xs = self.x.shape@;
            let ys = self.y.shape@;
            assert(xs.drop_last().drop_last() =~= Seq::<usize>::empty());
            assert(ys.drop_last().drop_last() =~= Seq::<usize>::empty());
            assert(crate::tensor::shape_product(xs.drop_last().drop_last()) == 1);
            assert(crate::tensor::shape_product(ys.drop_last().drop_last()) == 1);
            assert(crate::tensor::shape_product(xs.drop_last()) == xs[0]);
            assert(crate::tensor::shape_product(ys.drop_last()) == ys[0]);
            assert(self.x.data@.len() == xs[0] * xs[1]);
            assert(self.y.data@.len() == ys[0] * ys[1]);
            assert forall|k: int| 0 <= k < indices.len() implies #[trigger] indices[k] * (xs[1] as int) + xs[1] <= self.x.data@.len() by {
                lemma_row_in_range(indices[k] as int, xs[0] as int, xs[1] as int);
            }
            assert forall|k: int| 0 <= k < indices.len() implies #[trigger] indices[k] * (ys[1] as int) + ys[1] <= self.y.data@.len() by {
                lemma_row_in_range(indices[k] as int, ys[0] as int, ys[1] as int);
            }
        }
    }

}

/// A one-row buffer `[1, c]` holding zeros.
pub open spec fn zeroed_row(t: Tensor) -> bool {
    &&& t.shape@ == seq![1usize, t.data@.len() as usize]
    &&& t.data@ == zeros(t.data@.len() as int)
}

/// Minimal dataset interface for on-device minibatching: one sample per index,
/// written into caller-provided one-row buffers.
pub trait Dataset {
    /// What the dataset needs to hold of itself before it is read (nothing, unless
    /// an implementation says otherwise).
    open spec fn ready(&self) -> bool {
        true
    }

    /// The number of samples, where an implementation states it (`None`: not
    /// stated).
    open spec fn spec_len(&self) -> Option<nat> {
        None
    }

    /// Number of samples.
    fn len(&self) -> (n: usize)
        requires
            self.ready(),
        ensures
            self.spec_len() matches Some(k) ==> n == k,
    ;

    /// Whether there are no samples: whether `len` is zero.
    fn is_empty(&self) -> (b: bool)
        requires
            self.ready(),
        ensures
            self.spec_len() matches Some(k) ==> b == (k == 0),
    {
        self.len() == 0
    }

    /// What `get(index, ..)` leaves in zeroed one-row buffers of `xc` / `yc`
    /// columns, where an implementation states it (`None`: not stated).
    open spec fn sample(&self, index: usize, xc: usize, yc: usize) -> Option<(Seq<u32>, Seq<u32>)> {
        None
    }

    /// Writes sample `index` into `x` (features) and `y` (target); leaves the
    /// buffers' shapes and lengths as they were. Into zeroed one-row buffers it
    /// writes `sample(index, ..)`, where that is stated.
    fn get(&self, index: usize, x: &mut Tensor, y: &mut Tensor) -> (ok: bool)
        requires
            self.ready(),
            old(x).wf(),
            old(y).wf(),
        ensures
            final(x).shape == old(x).shape,
            final(y).shape == old(y).shape,
            final(x).data@.len() == old(x).data@.len(),
            final(y).data@.len() == old(y).data@.len(),
            zeroed_row(*old(x)) && zeroed_row(*old(y)) ==> (self.sample(
                index,
                old(x).data@.len() as usize,
                old(y).data@.len() as usize,
            ) matches Some((sx, sy)) ==> final(x).data@ == sx && final(y).data@ == sy),
    ;

    /// Feature / label trailing lengths for buffer allocation (excluding batch).
    fn x_cols(&self) -> (c: usize)
        requires
            self.ready(),
    ;

    fn y_cols(&self) -> (c: usize)
        requires
            self.ready(),
    ;
}

impl Dataset for TensorDataset {
    open spec fn ready(&self) -> bool {
        self.wf()
    }

    open spec fn spec_len(&self) -> Option<nat> {
        Some(self.x.shape@[0] as nat)
    }

    /// Number of samples.
    fn len(&self) -> (n: usize)
        ensures
            n == self.x.shape@[0],
    {
        self.x.rows()
    }

    /// Sample `index`: its feature row and target row. Into one-row buffers of
    /// other widths only what fits is written: the feature row when `x` fits,
    /// nothing for an index out of range.
    open spec fn sample(&self, index: usize, xc: usize, yc: usize) -> Option<(Seq<u32>, Seq<u32>)> {
        if index < self.x.shape@[0] && xc == self.x.shape@[1] {
            if yc == self.y.shape@[1] {
                Some((row_of(self.x.data@, index as int, xc as int), row_of(self.y.data@, index as int, yc as int)))
            } else {
                Some((row_of(self.x.data@, index as int, xc as int), zeros(yc as int)))
            }
        } else {
            Some((zeros(xc as int), zeros(yc as int)))
        }
    }

    /// Writes sample `index` into the one-row buffers `x` and `y`; false when the
    /// index is out of range or a buffer has the wrong shape. The feature row is
    /// written whenever the index is in range and `x` fits, the target row only
    /// when both fit; a buffer not written keeps its data.
    fn get(&self, index: usize, x: &mut Tensor, y: &mut Tensor) -> (ok: bool)
        ensures
            ({
                let xfit = index < self.x.shape@[0] && old(x).shape@ == seq![1usize, self.x.shape@[1]];
                let yfit = old(y).shape@ == seq![1usize, self.y.shape@[1]];
                &&& ok == (xfit && yfit)
                &&& xfit ==> final(x).data@ == row_of(self.x.data@, index as int, self.x.shape@[1] as int)
                &&& !xfit ==> final(x).data == old(x).data
                &&& ok ==> final(y).data@ == row_of(self.y.data@, index as int, self.y.shape@[1] as int)
                &&& !ok ==> final(y).data == old(y).data
            }),
    {
        let xl = x.data.len();
        let yl = y.data.len();
        proof {
            self.lemma_sample_fit(index, *x, *y);
        }
        if index >= self.len() {
            return false;
        }
        let idx: [usize; 1] = [index];
        let s = vstd::array::array_as_slice(&idx);
        assert(s@ == seq![index]);
        let ghost ox = x.data@;
        let ghost oy = y.data@;
        let r = self.gather_batch(s, x, y);
        proof {
            let xc = self.x.shape@[1] as int;
            let yc = self.y.shape@[1] as int;
            if x.shape@ == seq![1usize, self.x.shape@[1]] {
                lemma_one_row(x.shape@, x.data@, xc);
                assert(row_of(x.data@, 0, xc) == row_of(self.x.data@, index as int, xc));
            }
            if r {
                lemma_one_row(y.shape@, y.data@, yc);
                assert(row_of(y.data@, 0, yc) == row_of(self.y.data@, index as int, yc));
            }
        }
        r
    }

    fn x_cols(&self) -> (c: usize)
        ensures
            c == self.x.shape@[1],
    {
        self.x.cols()
    }

    fn y_cols(&self) -> (c: usize)
        ensures
            c == self.y.shape@[1],
    {
        self.y.cols()
    }
}

/// The data of a well-formed one-row tensor `[1, c]` is its row 0.
proof fn lemma_one_row(shape: Seq<usize>, data: Seq<u32>, c: int)
    requires
        shape == seq![1usize, c as usize],
        0 <= c,
        c as usize == c,
        data.len() == crate::tensor::shape_product(shape),
    ensures
        data.len() == c,
        row_of(data, 0, c) == data,
{
    let s1 = seq![1usize];
    assert(shape.drop_last() =~= s1);
    assert(s1.drop_last() =~= Seq::<usize>::empty());
    assert(crate::tensor::shape_product(s1.drop_last()) == 1);
    assert(crate::tensor::shape_product(s1) == 1);
    assert(crate::tensor::shape_product(shape) == c);
    assert(row_of(data, 0, c) =~= data);
}

impl TensorDataset {
    /// For zeroed one-row buffers, fitting the sample's rows is having their widths.
    proof fn lemma_sample_fit(&self, index: usize, x: Tensor, y: Tensor)
        requires
            x.data@.len() <= usize::MAX,
            y.data@.len() <= usize::MAX,
        ensures
            zeroed_row(x) ==> (x.shape@ == seq![1usize, self.x.shape@[1]] <==> x.data@.len() == self.x.shape@[1]),
            zeroed_row(y) ==> (y.shape@ == seq![1usize, self.y.shape@[1]] <==> y.data@.len() == self.y.shape@[1]),
    {
        if zeroed_row(x) && x.shape@ == seq![1usize, self.x.shape@[1]] {
            assert(x.shape@[1] == self.x.shape@[1]);
            assert(seq![1usize, x.data@.len() as usize][1] == x.data@.len() as usize);
        }
        if zeroed_row(y) && y.shape@ == seq![1usize, self.y.shape@[1]] {
            assert(y.shape@[1] == self.y.shape@[1]);
            assert(seq![1usize, y.data@.len() as usize][1] == y.data@.len() as usize);
        }
    }
}

/// Fisher–Yates from position `i` down to 1: swap entry `i` with entry
/// `draw % (i + 1)`, taking one draw from the generator per step. Gives the
/// shuffled order and the generator state after the draws.
pub open spec fn spec_fisher_yates(s: Seq<usize>, st: PrngState, i: nat) -> (Seq<usize>, PrngState)
    decreases i,
{
    if i == 0 {
        (s, st)
    } else {
        let j = ((spec_output(st) as usize) % ((i + 1) as usize)) as int;
        spec_fisher_yates(s.update(i as int, s[j]).update(j, s[i as int]), spec_advance(st), (i - 1) as nat)
    }
}

/// The shuffle of a whole order: every position from the last down to 1.
pub open spec fn spec_shuffle(s: Seq<usize>, st: PrngState) -> (Seq<usize>, PrngState) {
    if s.len() == 0 {
        (s, st)
    } else {
        spec_fisher_yates(s, st, (s.len() - 1) as nat)
    }
}

proof fn lemma_swap_multiset(s: Seq<usize>, i: int, j: int)
    requires
        0 <= i < s.len(),
        0 <= j < s.len(),
    ensures
        s.update(i, s[j]).update(j, s[i]).to_multiset() == s.to_multiset(),
{
    broadcast use vstd::seq_lib::to_multiset_update;
    broadcast use vstd::multiset::group_multiset_axioms;
    broadcast use vstd::seq_lib::to_multiset_contains;
    if i != j {
        let t = s.update(i, s[j]);
        assert(t[j] == s[j]);
        assert(s.to_multiset().count(s[i]) > 0) by {
            assert(s.contains(s[i]));
        }
        assert(t.update(j, s[i]).to_multiset() =~= s.to_multiset());
    } else {
        assert(s.update(i, s[j]).update(j, s[i]) =~= s);
    }
}

/// Shuffling never loses or duplicates an entry: the result is a permutation.
pub proof fn lemma_fisher_yates_permutes(s: Seq<usize>, st: PrngState, i: nat)
    requires
        i < s.len(),
        s.len() <= usize::MAX,
    ensures
        spec_fisher_yates(s, st, i).0.to_multiset() == s.to_multiset(),
        spec_fisher_yates(s, st, i).0.len() == s.len(),
    decreases i,
{
    if i > 0 {
        let j = ((spec_output(st) as usize) % ((i + 1) as usize)) as int;
        let t = s.update(i as int, s[j]).update(j, s[i as int]);
        assert((i + 1) as usize == i + 1);
        assert(j < i + 1);
        lemma_swap_multiset(s, i as int, j);
        lemma_fisher_yates_permutes(t, spec_advance(st), (i - 1) as nat);
    }
}

proof fn lemma_advance_n_front(st: PrngState, k: nat)
    ensures
        spec_advance_n(spec_advance(st), k) == spec_advance_n(st, k + 1),
    decreases k,
{
    assert(spec_advance_n(st, 0) == st);
    if k > 0 {
        lemma_advance_n_front(st, (k - 1) as nat);
        assert(spec_advance_n(st, k + 1) == spec_advance(spec_advance_n(st, k)));
    }
}

/// Fisher–Yates from position `i` down takes exactly `i` draws from the generator.
pub proof fn lemma_fisher_yates_draws(s: Seq<usize>, st: PrngState, i: nat)
    ensures
        spec_fisher_yates(s, st, i).1 == spec_advance_n(st, i),
    decreases i,
{
    if i > 0 {
        let j = ((spec_output(st) as usize) % ((i + 1) as usize)) as int;
        let t = s.update(i as int, s[j]).update(j, s[i as int]);
        lemma_fisher_yates_draws(t, spec_advance(st), (i - 1) as nat);
        lemma_advance_n_front(st, (i - 1) as nat);
    }
}

/// Shuffling an order of `n` entries takes `n - 1` draws (none for an empty order)
/// and gives a permutation of it.
pub proof fn lemma_shuffle_draws(s: Seq<usize>, st: PrngState)
    requires
        s.len() <= usize::MAX,
    ensures
        s.len() > 0 ==> spec_shuffle(s, st).1 == spec_advance_n(st, (s.len() - 1) as nat),
        s.len() == 0 ==> spec_shuffle(s, st) == (s, st),
        spec_shuffle(s, st).0.to_multiset() == s.to_multiset(),
        spec_shuffle(s, st).0.len() == s.len(),
{
    if s.len() > 0 {
        lemma_fisher_yates_draws(s, st, (s.len() - 1) as nat);
        lemma_fisher_yates_permutes(s, st, (s.len() - 1) as nat);
    }
}

/// Shuffle helper for index order (Fisher–Yates), drawing from `rng`.
pub fn shuffle_indices(order: &mut [usize], rng: &mut Prng)
    ensures
        (final(order)@, final(rng)@) == spec_shuffle(old(order)@, old(rng)@),
        final(order)@.to_multiset() == old(order)@.to_multiset(),
        final(order)@.len() == old(order)@.len(),
{
    let n = order.len();
    if n == 0 {
        return;
    }
    proof {
        lemma_fisher_yates_permutes(order@, rng@, (n - 1) as nat);
    }
    let mut i: usize = n - 1;
    while i > 0
        invariant
            i < n,
            n == order@.len(),
            n == old(order)@.len(),
            spec_fisher_yates(order@, rng@, i as nat) == spec_shuffle(old(order)@, old(rng)@),
        decreases i,
    {
        let r = rng.next_u64();
        let j = (r as usize) % (i + 1);
        let a = order[i];
        let b = order[j];
        order[i] = b;
        order[j] = a;
        i = i - 1;
    }
}

} // verus!
