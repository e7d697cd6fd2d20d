use vstd::prelude::*;

verus! {

/// A shape viewed as a batch of matrices after an optional transpose:
/// `(batch, rows, cols)`. 1D is a column (a row when transposed), 2D one matrix,
/// 3D a batch; other ranks fall back to leading and trailing axis lengths.
pub open spec fn spec_mat_shape(s: Seq<usize>, transpose: bool) -> (usize, usize, usize) {
    if s.len() == 1 {
        if transpose { (1, 1, s[0]) } else { (1, s[0], 1) }
    } else if s.len() == 2 {
        if transpose { (1, s[1], s[0]) } else { (1, s[0], s[1]) }
    } else if s.len() == 3 {
        if transpose { (s[0], s[2], s[1]) } else { (s[0], s[1], s[2]) }
    } else {
        (1, if s.len() == 0 { 1 } else { s[0] }, if s.len() == 0 { 1 } else { s.last() })
    }
}

pub fn mat_shape(s: &[usize], transpose: bool) -> (r: (usize, usize, usize))
    ensures
        r == spec_mat_shape(s@, transpose),
{
    let n = s.len();
    if n == 1 {
        if transpose { (1, 1, s[0]) } else { (1, s[0], 1) }
    } else if n == 2 {
        if transpose { (1, s[1], s[0]) } else { (1, s[0], s[1]) }
    } else if n == 3 {
        if transpose { (s[0], s[2], s[1]) } else { (s[0], s[1], s[2]) }
    } else {
        let rows = if n == 0 { 1 } else { s[0] };
        let cols = if n == 0 { 1 } else { s[n - 1] };
        (1, rows, cols)
    }
}

/// How a matrix product is computed: one of three 2D kernels (with their
/// leading dimensions) or the generic batched loop.
#[derive(Clone, Copy, Debug, PartialEq, Eq, Structural)]
pub enum MatmulKernel {
    Nn { m: usize, k: usize, n: usize, lda: usize, ldb: usize, ldc: usize },
    Nt { m: usize, k: usize, n: usize, ldc: usize },
    Tn { m: usize, k: usize, n: usize, ldc: usize },
    Batched { batch: usize, a_batch: usize, b_batch: usize, a_rows: usize, a_cols: usize, b_rows: usize, b_cols: usize },
}

/// The product `out = op(a) @ op(b)` for these shapes: rejected (`None`) when the
/// inner dimensions differ, the batches are incompatible or `out` has none of the
/// accepted shapes; otherwise the kernel that computes it.
pub open spec fn spec_matmul_plan(out: Seq<usize>, a: Seq<usize>, b: Seq<usize>, ta: bool, tb: bool) -> Option<MatmulKernel> {
    let (a_batch, a_rows, a_cols) = spec_mat_shape(a, ta);
    let (b_batch, b_rows, b_cols) = spec_mat_shape(b, tb);
    let batch = if a_batch >= b_batch { a_batch } else { b_batch };
    let expected = if batch == 1 {
        seq![a_rows, b_cols]
    } else if a.len() == 2 && !ta && a[0] == batch && a[1] == a_cols {
        seq![batch, b_cols]
    } else {
        seq![batch, a_rows, b_cols]
    };
    let accepted = out == expected || (batch > 1 && out == seq![batch, b_cols] && a_rows == 1)
        || (batch > 1 && a.len() == 2 && out == seq![batch, b_cols])
        || (a.len() == 2 && out == seq![a[0], b_cols] && !ta);
    if a_cols != b_rows {
        None
    } else if a_batch != 1 && b_batch != 1 && a_batch != b_batch {
        None
    } else if !accepted {
        None
    } else if a.len() == 2 && b.len() == 2 && out.len() == 2 && !ta && !tb {
        Some(MatmulKernel::Nn { m: a[0], k: a_cols, n: b_cols, lda: a[1], ldb: b[1], ldc: out[1] })
    } else if a.len() == 2 && b.len() == 2 && out.len() == 2 && !ta && tb {
        Some(MatmulKernel::Nt { m: a[0], k: a[1], n: b[0], ldc: out[1] })
    } else if a.len() == 2 && b.len() == 2 && out.len() == 2 && ta && !tb {
        Some(MatmulKernel::Tn { m: a[1], k: a[0], n: b[1], ldc: out[1] })
    } else {
        Some(MatmulKernel::Batched { batch, a_batch, b_batch, a_rows, a_cols, b_rows, b_cols })
    }
}

fn is_pair(s: &[usize], x: usize, y: usize) -> (r: bool)
    ensures
        r == (s@ == seq![x, y]),
{
    let r = s.len() == 2 && s[0] == x && s[1] == y;
    proof {
        if s@.len() == 2 && s@[0] == x && s@[1] == y {
            assert(s@ =~= seq![x, y]);
        }
    }
    r
}

fn is_triple(s: &[usize], x: usize, y: usize, z: usize) -> (r: bool)
    ensures
        r == (s@ == seq![x, y, z]),
{
    let r = s.len() == 3 && s[0] == x && s[1] == y && s[2] == z;
    proof {
        if s@.len() == 3 && s@[0] == x && s@[1] == y && s@[2] == z {
            assert(s@ =~= seq![x, y, z]);
        }
    }
    r
}

/// Decides how `out = op(a) @ op(b)` is computed for these shapes (the shape
/// checks of the tensor matmul), or rejects it.
pub fn matmul_plan(out: &[usize], a: &[usize], b: &[usize], transpose_a: bool, transpose_b: bool) -> (r: Option<MatmulKernel>)
    ensures
        r == spec_matmul_plan(out@, a@, b@, transpose_a, transpose_b),
{
    let (a_batch, a_rows, a_cols) = mat_shape(a, transpose_a);
    let (b_batch, b_rows, b_cols) = mat_shape(b, transpose_b);
    if a_cols != b_rows {
        return None;
    }
    let batch = if a_batch >= b_batch { a_batch } else { b_batch };
    if a_batch != 1 && b_batch != 1 && a_batch != b_batch {
        return None;
    }
    let exp_ok = if batch == 1 {
        is_pair(out, a_rows, b_cols)
    } else if a.len() == 2 && !transpose_a && a[0] == batch && a[1] == a_cols {
        is_pair(out, batch, b_cols)
    } else {
        is_triple(out, batch, a_rows, b_cols)
    };
    let alt1 = batch > 1 && is_pair(out, batch, b_cols) && a_rows == 1;
    let alt2 = batch > 1 && a.len() == 2 && is_pair(out, batch, b_cols);
    let alt3 = a.len() == 2 && is_pair(out, a[0], b_cols) && !transpose_a;
    if !(exp_ok || alt1 || alt2 || alt3) {
        return None;
    }
    if a.len() == 2 && b.len() == 2 && out.len() == 2 && !transpose_a && !transpose_b {
        return Some(MatmulKernel::Nn { m: a[0], k: a_cols, n: b_cols, lda: a[1], ldb: b[1], ldc: out[1] });
    }
    if a.len() == 2 && b.len() == 2 && out.len() == 2 && !transpose_a && transpose_b {
        return Some(MatmulKernel::Nt { m: a[0], k: a[1], n: b[0], ldc: out[1] });
    }
    if a.len() == 2 && b.len() == 2 && out.len() == 2 && transpose_a && !transpose_b {
        return Some(MatmulKernel::Tn { m: a[1], k: a[0], n: b[1], ldc: out[1] });
    }
    Some(MatmulKernel::Batched { batch, a_batch, b_batch, a_rows, a_cols, b_rows, b_cols })
}

/// A product whose inner dimensions agree and whose batches are compatible (equal,
/// or one of them a single matrix) is computed batch by batch over the larger
/// batch count, into `[batch, rows of op(a), cols of op(b)]`.
pub proof fn lemma_plan_batched(out: Seq<usize>, a: Seq<usize>, b: Seq<usize>, ta: bool, tb: bool)
    requires
        spec_mat_shape(a, ta).2 == spec_mat_shape(b, tb).1,
        spec_mat_shape(a, ta).0 == spec_mat_shape(b, tb).0 || spec_mat_shape(a, ta).0 == 1 || spec_mat_shape(b, tb).0 == 1,
        ({
            let m = if spec_mat_shape(a, ta).0 >= spec_mat_shape(b, tb).0 { spec_mat_shape(a, ta).0 } else { spec_mat_shape(b, tb).0 };
            &&& m > 1
            &&& out == seq![m, spec_mat_shape(a, ta).1, spec_mat_shape(b, tb).2]
            &&& !(a.len() == 2 && !ta && a[0] == m && a[1] == spec_mat_shape(a, ta).2)
        }),
    ensures
        ({
            let (ab, ar, ac) = spec_mat_shape(a, ta);
            let (bb, br, bc) = spec_mat_shape(b, tb);
            &&& spec_matmul_plan(out, a, b, ta, tb) matches Some(MatmulKernel::Batched { batch, .. }) && batch >= ab
                && batch >= bb && (batch == ab || batch == bb)
            &&& spec_matmul_plan(out, a, b, ta, tb) == Some(MatmulKernel::Batched {
                batch: out[0],
                a_batch: ab,
                b_batch: bb,
                a_rows: ar,
                a_cols: ac,
                b_rows: br,
                b_cols: bc,
            })
        }),
{
}

/// Batches of different sizes, neither a single matrix, are refused.
pub proof fn lemma_plan_batches_clash(out: Seq<usize>, a: Seq<usize>, b: Seq<usize>, ta: bool, tb: bool)
    requires
        spec_mat_shape(a, ta).0 != spec_mat_shape(b, tb).0,
        spec_mat_shape(a, ta).0 != 1,
        spec_mat_shape(b, tb).0 != 1,
    ensures
        spec_matmul_plan(out, a, b, ta, tb) is None,
{
}

/// A 2D product whose operands agree on the inner dimension is always accepted,
/// and written to an `[rows, cols]` output by a 2D kernel.
pub proof fn lemma_plan_2d(m: usize, k: usize, n: usize)
    ensures
        spec_matmul_plan(seq![m, n], seq![m, k], seq![k, n], false, false)
            == Some(MatmulKernel::Nn { m, k, n, lda: k, ldb: n, ldc: n }),
{
}

} // verus!
