use crate::prng::Prng;
use crate::tensor::{numel_fits, same_dims, shape_product, Tensor};
use vstd::prelude::*;

verus! {

pub const MV_FLAG_NONE: u32 = 0u32;
pub const MV_FLAG_REQUIRES_GRAD: u32 = 1u32;
pub const MV_FLAG_PARAMETER: u32 = 2u32;
pub const MV_FLAG_INPUT: u32 = 4u32;
pub const MV_FLAG_OUTPUT: u32 = 8u32;
pub const MV_FLAG_DESIRED_OUTPUT: u32 = 16u32;
pub const MV_FLAG_COST: u32 = 32u32;

/// Whether bit `f` is set in `flags`.
pub open spec fn has_flag(flags: u32, f: u32) -> bool {
    flags & f != 0
}

/// Per-op hyper-parameters. Floating-point parameters (dropout probability,
/// layer-norm epsilon) are held by their `f32` bit patterns.
#[derive(Clone, Copy, PartialEq, Eq, Debug, Structural)]
pub enum OpParams {
    NoParams,
    Matmul { transpose_a: bool, transpose_b: bool },
    Dropout { p: u32 },
    LayerNorm { eps: u32 },
    Conv2d { stride: usize, padding: usize },
    MaxPool2d { kernel: usize, stride: usize },
}

impl Default for OpParams {
    fn default() -> (p: Self)
        ensures
            p == OpParams::NoParams,
    {
        OpParams::NoParams
    }
}

/// Operation that computes a model variable from its inputs.
#[derive(Clone, Copy, PartialEq, Eq, Debug, Structural)]
pub enum ModelVarOp {
    Null,
    Create,
    Relu,
    Sigmoid,
    Tanh,
    Gelu,
    Softmax,
    Add,
    Sub,
    Matmul,
    CrossEntropy,
    LayerNorm,
    Dropout,
    Conv2d,
    MaxPool2d,
    Embedding,
}

impl ModelVarOp {
    /// How many input slots the op reads.
    pub open spec fn arity(self) -> int {
        match self {
            ModelVarOp::Null | ModelVarOp::Create => 0,
            ModelVarOp::Relu | ModelVarOp::Sigmoid | ModelVarOp::Tanh | ModelVarOp::Gelu
            | ModelVarOp::Softmax | ModelVarOp::Dropout | ModelVarOp::MaxPool2d => 1,
            ModelVarOp::Add | ModelVarOp::Sub | ModelVarOp::Matmul | ModelVarOp::CrossEntropy
            | ModelVarOp::Embedding => 2,
            ModelVarOp::LayerNorm | ModelVarOp::Conv2d => 3,
        }
    }

    pub fn num_inputs(self) -> (n: usize)
        ensures
            n == self.arity(),
    {
        match self {
            ModelVarOp::Null | ModelVarOp::Create => 0,
            ModelVarOp::Relu | ModelVarOp::Sigmoid | ModelVarOp::Tanh | ModelVarOp::Gelu
            | ModelVarOp::Softmax | ModelVarOp::Dropout | ModelVarOp::MaxPool2d => 1,
            ModelVarOp::Add | ModelVarOp::Sub | ModelVarOp::Matmul | ModelVarOp::CrossEntropy
            | ModelVarOp::Embedding => 2,
            ModelVarOp::LayerNorm => 3,
            ModelVarOp::Conv2d => 3,
        }
    }
}

/// A node of the computation graph: a value tensor, an optional gradient, and the
/// op with the indices of the nodes it reads.
pub struct ModelVar {
    pub index: usize,
    pub flags: u32,
    pub val: Tensor,
    pub grad: Option<Tensor>,
    pub op: ModelVarOp,
    pub inputs: [Option<usize>; 3],
    pub params: OpParams,
    /// Scratch for dropout masks, layernorm stats, maxpool indices.
    pub cache: Option<Tensor>,
}

/// Var `v` reads var `j` through one of the input slots its op uses.
pub open spec fn reads(v: ModelVar, j: usize) -> bool {
    ||| (v.op.arity() > 0 && v.inputs[0] == Some(j))
    ||| (v.op.arity() > 1 && v.inputs[1] == Some(j))
    ||| (v.op.arity() > 2 && v.inputs[2] == Some(j))
}

impl ModelVar {
    pub open spec fn requires_grad_spec(&self) -> bool {
        has_flag(self.flags, MV_FLAG_REQUIRES_GRAD)
    }

    /// Well-formed as the var at position `i` of a graph: its index is `i`, its
    /// tensors match its shape, it has a gradient exactly when it requires one,
    /// and it only reads vars created before it.
    pub open spec fn wf_at(&self, i: int) -> bool {
        &&& self.index == i
        &&& self.val.wf()
        &&& numel_fits(self.val.shape@)
        &&& (self.grad.is_some() <==> self.requires_grad_spec())
        &&& (self.grad matches Some(g) ==> g.wf() && g.shape@ == self.val.shape@)
        &&& forall|j: usize| #[trigger] reads(*self, j) ==> j < i
    }

    pub fn val(&self) -> (t: &Tensor)
        ensures
            *t == self.val,
    {
        &self.val
    }

    pub fn val_mut(&mut self) -> (t: &mut Tensor)
        ensures
            *t == old(self).val,
            final(self).val == *final(t),
            final(self).grad == old(self).grad,
            final(self).index == old(self).index,
            final(self).flags == old(self).flags,
            final(self).op == old(self).op,
            final(self).inputs == old(self).inputs,
            final(self).params == old(self).params,
            final(self).cache == old(self).cache,
    {
        &mut self.val
    }

    pub fn grad(&self) -> (t: &Tensor)
        requires
            self.grad.is_some(),
        ensures
            *t == self.grad.unwrap(),
    {
        match &self.grad {
            Some(g) => g,
            None => {
                proof {
                    assert(false);
                }
                &self.val
            },
        }
    }

    pub fn grad_mut(&mut self) -> (t: &mut Tensor)
        requires
            old(self).grad.is_some(),
        ensures
            *t == old(self).grad.unwrap(),
            final(self).grad == Some(*final(t)),
            final(self).val == old(self).val,
            final(self).index == old(self).index,
            final(self).flags == old(self).flags,
            final(self).op == old(self).op,
            final(self).inputs == old(self).inputs,
            final(self).params == old(self).params,
            final(self).cache == old(self).cache,
    {
        match &mut self.grad {
            Some(g) => g,
            None => {
                proof {
                    assert(false);
                }
                &mut self.val
            },
        }
    }

    pub fn has_grad(&self) -> (b: bool)
        ensures
            b == self.grad.is_some(),
    {
        self.grad.is_some()
    }

    pub fn requires_grad(&self) -> (b: bool)
        ensures
            b == self.requires_grad_spec(),
    {
        self.flags & MV_FLAG_REQUIRES_GRAD != 0
    }
}

/// An ordered list of var indices to evaluate.
pub struct ModelProgram {
    pub vars: Vec<usize>,
}

/// `n` zero bit patterns.
pub open spec fn zeros(n: int) -> Seq<u32> {
    Seq::new(n as nat, |i: int| crate::tensor::ZERO_BITS)
}

/// `v` is a var just created at `index` with the given shape, flags and wiring:
/// zero value, zero gradient exactly when the flags ask for one, no cache.
pub open spec fn is_fresh_var(
    v: ModelVar,
    index: int,
    shape: Seq<usize>,
    flags: u32,
    op: ModelVarOp,
    inputs: [Option<usize>; 3],
    params: OpParams,
) -> bool {
    &&& v.index == index
    &&& v.flags == flags
    &&& v.val.shape@ == shape
    &&& v.val.data@ == zeros(shape_product(shape))
    &&& (if has_flag(flags, MV_FLAG_REQUIRES_GRAD) {
        v.grad matches Some(g) && g.shape@ == shape && g.data@ == zeros(shape_product(shape))
    } else {
        v.grad is None
    })
    &&& v.op == op
    &&& v.inputs == inputs
    &&& v.params == params
    &&& v.cache is None
}

/// The role slot (input, output, ...) after creating var `index` with `flags`.
pub open spec fn role_after(old_role: Option<usize>, flags: u32, bit: u32, index: int) -> Option<usize> {
    if has_flag(flags, bit) {
        Some(index as usize)
    } else {
        old_role
    }
}

/// Slot `o` names a var that requires a gradient.
pub open spec fn slot_requires_grad(vars: Seq<ModelVar>, o: Option<usize>) -> bool {
    o matches Some(j) && vars[j as int].requires_grad_spec()
}

/// `flags`, plus `MV_FLAG_REQUIRES_GRAD` when any of the inputs requires a gradient.
pub open spec fn grad_flags(vars: Seq<ModelVar>, inputs: [Option<usize>; 3], flags: u32) -> u32 {
    if slot_requires_grad(vars, inputs[0]) || slot_requires_grad(vars, inputs[1])
        || slot_requires_grad(vars, inputs[2]) {
        flags | MV_FLAG_REQUIRES_GRAD
    } else {
        flags
    }
}

/// Every used slot of `inputs` names an existing var.
pub open spec fn inputs_in_range(inputs: [Option<usize>; 3], n: int) -> bool {
    &&& (inputs[0] matches Some(j) ==> j < n)
    &&& (inputs[1] matches Some(j) ==> j < n)
    &&& (inputs[2] matches Some(j) ==> j < n)
}

/// The indices of the vars flagged as parameters, in creation order.
pub open spec fn param_indices_of(vars: Seq<ModelVar>) -> Seq<usize>
    decreases vars.len(),
{
    if vars.len() == 0 {
        Seq::empty()
    } else {
        let rest = param_indices_of(vars.drop_last());
        if has_flag(vars.last().flags, MV_FLAG_PARAMETER) {
            rest.push(vars.last().index)
        } else {
            rest
        }
    }
}

/// Bytes of `f32` storage of the parameter values: four per element.
pub open spec fn param_bytes_of(vars: Seq<ModelVar>) -> int
    decreases vars.len(),
{
    if vars.len() == 0 {
        0
    } else {
        param_bytes_of(vars.drop_last()) + if has_flag(vars.last().flags, MV_FLAG_PARAMETER) {
            vars.last().val.data@.len() * 4
        } else {
            0
        }
    }
}

/// Output shape of `a @ b` after the optional transposes: both operands must be
/// 2D and agree on the inner dimension.
pub open spec fn spec_matmul_out_shape(a: Seq<usize>, b: Seq<usize>, transpose_a: bool, transpose_b: bool) -> Option<Seq<usize>> {
    if a.len() != 2 || b.len() != 2 {
        None
    } else {
        let a_r = if transpose_a { a[1] } else { a[0] };
        let a_c = if transpose_a { a[0] } else { a[1] };
        let b_r = if transpose_b { b[1] } else { b[0] };
        let b_c = if transpose_b { b[0] } else { b[1] };
        if a_c != b_r {
            None
        } else {
            Some(seq![a_r, b_c])
        }
    }
}

/// A plain product `[m, k] @ [k, n]` has shape `[m, n]`; inner dimensions that
/// differ are refused.
pub proof fn lemma_matmul_shape_plain(m: usize, k: usize, k2: usize, n: usize)
    ensures
        spec_matmul_out_shape(seq![m, k], seq![k2, n], false, false) == if k == k2 {
            Some(seq![m, n])
        } else {
            None
        },
{
}

/// Transposing an operand is the same as swapping its two dimensions: in
/// particular `[m, k] @ [n, k]^T` has shape `[m, n]`.
pub proof fn lemma_matmul_shape_transpose(a: Seq<usize>, b: Seq<usize>, ta: bool, tb: bool)
    ensures
        b.len() == 2 ==> spec_matmul_out_shape(a, b, ta, true) == spec_matmul_out_shape(a, seq![b[1], b[0]], ta, false),
        a.len() == 2 ==> spec_matmul_out_shape(a, b, true, tb) == spec_matmul_out_shape(seq![a[1], a[0]], b, false, tb),
        a.len() == 2 && b.len() == 2 && !ta && a[1] == b[1] ==> spec_matmul_out_shape(a, b, false, true) == Some(
            seq![a[0], b[0]],
        ),
{
    if b.len() == 2 {
        let b2 = seq![b[1], b[0]];
        assert(b2[0] == b[1] && b2[1] == b[0]);
    }
    if a.len() == 2 {
        let a2 = seq![a[1], a[0]];
        assert(a2[0] == a[1] && a2[1] == a[0]);
    }
}

/// Output length of a convolution or pooling window along one axis.
pub open spec fn spec_window_out(in_dim: int, kernel: int, stride: int, pad: int) -> int {
    (in_dim + 2 * pad - kernel) / stride + 1
}

/// The window fits: positive stride, kernel no larger than the padded input, and
/// the padded length and the output length representable.
pub open spec fn window_ok(in_dim: int, kernel: int, stride: int, pad: int) -> bool {
    &&& stride > 0
    &&& kernel <= in_dim + 2 * pad
    &&& in_dim + 2 * pad <= usize::MAX
    &&& in_dim + 2 * pad - kernel < usize::MAX
}

/// Output shape of a conv2d of an NCHW input by an `[O, I, KH, KW]` weight.
pub open spec fn spec_conv2d_shape(x: Seq<usize>, w: Seq<usize>, stride: usize, padding: usize) -> Seq<usize> {
    seq![
        x[0],
        w[0],
        spec_window_out(x[2] as int, w[2] as int, stride as int, padding as int) as usize,
        spec_window_out(x[3] as int, w[3] as int, stride as int, padding as int) as usize,
    ]
}

/// Output shape of a square max-pool over an NCHW input.
pub open spec fn spec_pool_shape(x: Seq<usize>, kernel: usize, stride: usize) -> Seq<usize> {
    seq![
        x[0],
        x[1],
        spec_window_out(x[2] as int, kernel as int, stride as int, 0) as usize,
        spec_window_out(x[3] as int, kernel as int, stride as int, 0) as usize,
    ]
}

/// Output length along one axis of a sliding window: `(in + 2 * pad - kernel) / stride + 1`.
pub fn conv_out_dim(in_dim: usize, kernel: usize, stride: usize, pad: usize) -> (r: usize)
    requires
        window_ok(in_dim as int, kernel as int, stride as int, pad as int),
    ensures
        r == spec_window_out(in_dim as int, kernel as int, stride as int, pad as int),
{
    let padded = in_dim + 2 * pad;
    let span = padded - kernel;
    assert(span / stride <= span) by {
        vstd::arithmetic::div_mod::lemma_div_is_ordered_by_denominator(span as int, 1, stride as int);
    }
    span / stride + 1
}

pub fn matmul_out_shape(a: &[usize], b: &[usize], transpose_a: bool, transpose_b: bool) -> (r: Option<Vec<usize>>)
    ensures
        match r {
            Some(v) => spec_matmul_out_shape(a@, b@, transpose_a, transpose_b) == Some(v@),
            None => spec_matmul_out_shape(a@, b@, transpose_a, transpose_b) is None,
        },
{
    if a.len() != 2 || b.len() != 2 {
        return None;
    }
    let a_r = if transpose_a { a[1] } else { a[0] };
    let a_c = if transpose_a { a[0] } else { a[1] };
    let b_r = if transpose_b { b[1] } else { b[0] };
    let b_c = if transpose_b { b[0] } else { b[1] };
    if a_c != b_r {
        return None;
    }
    let mut out: Vec<usize> = Vec::new();
    out.push(a_r);
    out.push(b_c);
    assert(out@ == seq![a_r, b_c]);
    Some(out)
}

/// A computation graph under construction or ready to run.
pub struct ModelContext {
    pub vars: Vec<ModelVar>,
    pub input: Option<usize>,
    pub output: Option<usize>,
    pub desired_output: Option<usize>,
    pub cost: Option<usize>,
    pub forward_prog: ModelProgram,
    pub cost_prog: ModelProgram,
    /// Controls dropout behavior.
    pub training: bool,
    pub rng: Prng,
}

impl ModelContext {
    /// Well-formed graph: every var is well-formed at its position (so reads only
    /// earlier vars), and the role slots name existing vars.
    pub open spec fn wf(&self) -> bool {
        &&& forall|i: int| 0 <= i < self.vars@.len() ==> #[trigger] self.vars@[i].wf_at(i)
        &&& (self.input matches Some(j) ==> j < self.vars@.len())
        &&& (self.output matches Some(j) ==> j < self.vars@.len())
        &&& (self.desired_output matches Some(j) ==> j < self.vars@.len())
        &&& (self.cost matches Some(j) ==> j < self.vars@.len())
    }

    /// `new` is `old` with one var appended, built from the given parts; the role
    /// slots follow its flags and nothing else changes.
    pub open spec fn appended(
        old: ModelContext,
        new: ModelContext,
        shape: Seq<usize>,
        flags: u32,
        op: ModelVarOp,
        inputs: [Option<usize>; 3],
        params: OpParams,
    ) -> bool {
        let idx = old.vars@.len() as int;
        &&& new.vars@.len() == idx + 1
        &&& new.vars@.drop_last() == old.vars@
        &&& is_fresh_var(new.vars@.last(), idx, shape, flags, op, inputs, params)
        &&& new.input == role_after(old.input, flags, MV_FLAG_INPUT, idx)
        &&& new.output == role_after(old.output, flags, MV_FLAG_OUTPUT, idx)
        &&& new.desired_output == role_after(old.desired_output, flags, MV_FLAG_DESIRED_OUTPUT, idx)
        &&& new.cost == role_after(old.cost, flags, MV_FLAG_COST, idx)
        &&& new.forward_prog == old.forward_prog
        &&& new.cost_prog == old.cost_prog
        &&& new.training == old.training
        &&& new.rng == old.rng
    }

    pub fn new() -> (m: Self)
        ensures
            m.wf(),
            m.vars@.len() == 0,
            m.input is None,
            m.output is None,
            m.desired_output is None,
            m.cost is None,
            m.forward_prog.vars@.len() == 0,
            m.cost_prog.vars@.len() == 0,
            m.training,
            m.rng@ == crate::prng::spec_new_state(0x853c49e6748fea9bu64, 0xda3e39cb94b95bdbu64),
    {
        ModelContext {
            vars: Vec::new(),
            input: None,
            output: None,
            desired_output: None,
            cost: None,
            forward_prog: ModelProgram { vars: Vec::new() },
            cost_prog: ModelProgram { vars: Vec::new() },
            training: true,
            rng: Prng::new(0x853c49e6748fea9bu64, 0xda3e39cb94b95bdbu64),
        }
    }

    fn create_var_with(
        &mut self,
        shape: &[usize],
        flags: u32,
        op: ModelVarOp,
        inputs: [Option<usize>; 3],
        params: OpParams,
    ) -> (index: usize)
        requires
            numel_fits(shape@),
            old(self).wf(),
            inputs_in_range(inputs, old(self).vars@.len() as int),
        ensures
            index == old(self).vars@.len(),
            Self::appended(*old(self), *final(self), shape@, flags, op, inputs, params),
            final(self).wf(),
    {
        let index = self.vars.len();
        let grad = if flags & MV_FLAG_REQUIRES_GRAD != 0 {
            Some(Tensor::new(shape))
        } else {
            None
        };
        let var = ModelVar {
            index,
            flags,
            val: Tensor::new(shape),
            grad,
            op,
            inputs,
            params,
            cache: None,
        };
        assert forall|j: usize| #[trigger] reads(var, j) implies j < index by {}
        self.vars.push(var);
        if flags & MV_FLAG_INPUT != 0 {
            self.input = Some(index);
        }
        if flags & MV_FLAG_OUTPUT != 0 {
            self.output = Some(index);
        }
        if flags & MV_FLAG_DESIRED_OUTPUT != 0 {
            self.desired_output = Some(index);
        }
        if flags & MV_FLAG_COST != 0 {
            self.cost = Some(index);
        }
        proof {
            assert(self.vars@.drop_last() == old(self).vars@);
            assert forall|i: int| 0 <= i < self.vars@.len() implies #[trigger] self.vars@[i].wf_at(i) by {
                if i < index {
                    assert(self.vars@[i] == old(self).vars@[i]);
                }
            }
        }
        index
    }

    /// Adds a leaf var of the given shape; returns its index.
    pub fn create_var(&mut self, shape: &[usize], flags: u32) -> (index: usize)
        requires
            numel_fits(shape@),
            old(self).wf(),
        ensures
            index == old(self).vars@.len(),
            Self::appended(*old(self), *final(self), shape@, flags, ModelVarOp::Create, [None, None, None], OpParams::NoParams),
            final(self).wf(),
    {
        self.create_var_with(shape, flags, ModelVarOp::Create, [None, None, None], OpParams::NoParams)
    }

    fn maybe_grad_flag(&self, inputs: &[Option<usize>; 3], flags: u32) -> (f: u32)
        requires
            inputs_in_range(*inputs, self.vars@.len() as int),
        ensures
            f == grad_flags(self.vars@, *inputs, flags),
    {
        let mut i: usize = 0;
        while i < 3
            invariant
                i <= 3,
                inputs_in_range(*inputs, self.vars@.len() as int),
                forall|k: int| 0 <= k < i ==> !slot_requires_grad(self.vars@, #[trigger] inputs[k]),
            decreases 3 - i,
        {
            if let Some(j) = inputs[i] {
                if self.vars[j].requires_grad() {
                    return flags | MV_FLAG_REQUIRES_GRAD;
                }
            }
            i = i + 1;
        }
        flags
    }

    /// Copy of the shape of var `i`.
    fn shape_of(&self, i: usize) -> (s: Vec<usize>)
        requires
            i < self.vars@.len(),
        ensures
            s@ == self.vars@[i as int].val.shape@,
    {
        vstd::slice::slice_to_vec(self.vars[i].val.shape.as_slice())
    }

    fn unary(&mut self, input: usize, flags: u32, op: ModelVarOp, params: OpParams) -> (out: usize)
        requires
            old(self).wf(),
            input < old(self).vars@.len(),
        ensures
            out == old(self).vars@.len(),
            Self::appended(*old(self), *final(self), old(self).vars@[input as int].val.shape@,
                grad_flags(old(self).vars@, [Some(input), None, None], flags), op,
                [Some(input), None, None], params),
            final(self).wf(),
    {
        let shape = self.shape_of(input);
        let ins: [Option<usize>; 3] = [Some(input), None, None];
        let flags = self.maybe_grad_flag(&ins, flags);
        proof {
            assert(self.vars@[input as int].wf_at(input as int));
        }
        self.create_var_with(shape.as_slice(), flags, op, ins, params)
    }

    pub fn relu(&mut self, input: usize, flags: u32) -> (out: usize)
        requires
            old(self).wf(),
            input < old(self).vars@.len(),
        ensures
            out == old(self).vars@.len(),
            Self::appended(*old(self), *final(self), old(self).vars@[input as int].val.shape@,
                grad_flags(old(self).vars@, [Some(input), None, None], flags), ModelVarOp::Relu,
                [Some(input), None, None], OpParams::NoParams),
            final(self).wf(),
    {
        self.unary(input, flags, ModelVarOp::Relu, OpParams::NoParams)
    }

    pub fn sigmoid(&mut self, input: usize, flags: u32) -> (out: usize)
        requires
            old(self).wf(),
            input < old(self).vars@.len(),
        ensures
            out == old(self).vars@.len(),
            Self::appended(*old(self), *final(self), old(self).vars@[input as int].val.shape@,
                grad_flags(old(self).vars@, [Some(input), None, None], flags), ModelVarOp::Sigmoid,
                [Some(input), None, None], OpParams::NoParams),
            final(self).wf(),
    {
        self.unary(input, flags, ModelVarOp::Sigmoid, OpParams::NoParams)
    }

    pub fn tanh(&mut self, input: usize, flags: u32) -> (out: usize)
        requires
            old(self).wf(),
            input < old(self).vars@.len(),
        ensures
            out == old(self).vars@.len(),
            Self::appended(*old(self), *final(self), old(self).vars@[input as int].val.shape@,
                grad_flags(old(self).vars@, [Some(input), None, None], flags), ModelVarOp::Tanh,
                [Some(input), None, None], OpParams::NoParams),
            final(self).wf(),
    {
        self.unary(input, flags, ModelVarOp::Tanh, OpParams::NoParams)
    }

    pub fn gelu(&mut self, input: usize, flags: u32) -> (out: usize)
        requires
            old(self).wf(),
            input < old(self).vars@.len(),
        ensures
            out == old(self).vars@.len(),
            Self::appended(*old(self), *final(self), old(self).vars@[input as int].val.shape@,
                grad_flags(old(self).vars@, [Some(input), None, None], flags), ModelVarOp::Gelu,
                [Some(input), None, None], OpParams::NoParams),
            final(self).wf(),
    {
        self.unary(input, flags, ModelVarOp::Gelu, OpParams::NoParams)
    }

    pub fn softmax(&mut self, input: usize, flags: u32) -> (out: usize)
        requires
            old(self).wf(),
            input < old(self).vars@.len(),
        ensures
            out == old(self).vars@.len(),
            Self::appended(*old(self), *final(self), old(self).vars@[input as int].val.shape@,
                grad_flags(old(self).vars@, [Some(input), None, None], flags), ModelVarOp::Softmax,
                [Some(input), None, None], OpParams::NoParams),
            final(self).wf(),
    {
        self.unary(input, flags, ModelVarOp::Softmax, OpParams::NoParams)
    }

    /// Dropout with keep-probability complement `p`, given by its `f32` bit pattern.
    pub fn dropout(&mut self, input: usize, p: u32, flags: u32) -> (out: usize)
        requires
            old(self).wf(),
            input < old(self).vars@.len(),
        ensures
            out == old(self).vars@.len(),
            Self::appended(*old(self), *final(self), old(self).vars@[input as int].val.shape@,
                grad_flags(old(self).vars@, [Some(input), None, None], flags), ModelVarOp::Dropout,
                [Some(input), None, None], OpParams::Dropout { p }),
            final(self).wf(),
    {
        self.unary(input, flags, ModelVarOp::Dropout, OpParams::Dropout { p })
    }

    fn binary(&mut self, a: usize, b: usize, shape: &[usize], flags: u32, op: ModelVarOp, params: OpParams) -> (out: usize)
        requires
            old(self).wf(),
            a < old(self).vars@.len(),
            b < old(self).vars@.len(),
            numel_fits(shape@),
        ensures
            out == old(self).vars@.len(),
            Self::appended(*old(self), *final(self), shape@,
                grad_flags(old(self).vars@, [Some(a), Some(b), None], flags), op,
                [Some(a), Some(b), None], params),
            final(self).wf(),
    {
        let ins: [Option<usize>; 3] = [Some(a), Some(b), None];
        let flags = self.maybe_grad_flag(&ins, flags);
        self.create_var_with(shape, flags, op, ins, params)
    }

    /// Elementwise (or bias-broadcast) sum; the output takes the shape of `a`.
    pub fn add(&mut self, a: usize, b: usize, flags: u32) -> (out: Option<usize>)
        requires
            old(self).wf(),
            a < old(self).vars@.len(),
            b < old(self).vars@.len(),
        ensures
            out == Some(old(self).vars@.len() as usize),
            Self::appended(*old(self), *final(self), old(self).vars@[a as int].val.shape@,
                grad_flags(old(self).vars@, [Some(a), Some(b), None], flags), ModelVarOp::Add,
                [Some(a), Some(b), None], OpParams::NoParams),
            final(self).wf(),
    {
        let shape = self.shape_of(a);
        proof {
            assert(self.vars@[a as int].wf_at(a as int));
        }
        Some(self.binary(a, b, shape.as_slice(), flags, ModelVarOp::Add, OpParams::NoParams))
    }

    /// Elementwise difference; `None` (and no change) when the shapes differ.
    pub fn sub(&mut self, a: usize, b: usize, flags: u32) -> (out: Option<usize>)
        requires
            old(self).wf(),
            a < old(self).vars@.len(),
            b < old(self).vars@.len(),
        ensures
            old(self).vars@[a as int].val.shape@ != old(self).vars@[b as int].val.shape@ ==> out is None
                && *final(self) == *old(self),
            old(self).vars@[a as int].val.shape@ == old(self).vars@[b as int].val.shape@ ==> {
                &&& out == Some(old(self).vars@.len() as usize)
                &&& Self::appended(*old(self), *final(self), old(self).vars@[a as int].val.shape@,
                    grad_flags(old(self).vars@, [Some(a), Some(b), None], flags), ModelVarOp::Sub,
                    [Some(a), Some(b), None], OpParams::NoParams)
            },
            final(self).wf(),
    {
        let sa = self.shape_of(a);
        let sb = self.shape_of(b);
        if !same_dims(&sa, &sb) {
            return None;
        }
        proof {
            assert(self.vars@[a as int].wf_at(a as int));
        }
        Some(self.binary(a, b, sa.as_slice(), flags, ModelVarOp::Sub, OpParams::NoParams))
    }

    /// Matrix product `a @ b` of two 2D vars.
    pub fn matmul(&mut self, a: usize, b: usize, flags: u32) -> (out: Option<usize>)
        requires
            old(self).wf(),
            a < old(self).vars@.len(),
            b < old(self).vars@.len(),
            spec_matmul_out_shape(old(self).vars@[a as int].val.shape@, old(self).vars@[b as int].val.shape@, false, false)
                matches Some(s) ==> numel_fits(s),
        ensures
            match spec_matmul_out_shape(old(self).vars@[a as int].val.shape@, old(self).vars@[b as int].val.shape@, false, false) {
                Some(s) => out == Some(old(self).vars@.len() as usize) && Self::appended(*old(self), *final(self), s,
                    grad_flags(old(self).vars@, [Some(a), Some(b), None], flags), ModelVarOp::Matmul,
                    [Some(a), Some(b), None], OpParams::Matmul { transpose_a: false, transpose_b: false }),
                None => out is None && *final(self) == *old(self),
            },
            final(self).wf(),
    {
        self.matmul_ex(a, b, false, false, flags)
    }

    /// Matrix product with optional transposes of either operand.
    pub fn matmul_ex(&mut self, a: usize, b: usize, transpose_a: bool, transpose_b: bool, flags: u32) -> (out: Option<usize>)
        requires
            old(self).wf(),
            a < old(self).vars@.len(),
            b < old(self).vars@.len(),
            spec_matmul_out_shape(old(self).vars@[a as int].val.shape@, old(self).vars@[b as int].val.shape@, transpose_a, transpose_b)
                matches Some(s) ==> numel_fits(s),
        ensures
            match spec_matmul_out_shape(old(self).vars@[a as int].val.shape@, old(self).vars@[b as int].val.shape@, transpose_a, transpose_b) {
                Some(s) => out == Some(old(self).vars@.len() as usize) && Self::appended(*old(self), *final(self), s,
                    grad_flags(old(self).vars@, [Some(a), Some(b), None], flags), ModelVarOp::Matmul,
                    [Some(a), Some(b), None], OpParams::Matmul { transpose_a, transpose_b }),
                None => out is None && *final(self) == *old(self),
            },
            final(self).wf(),
    {
        let a_shape = self.shape_of(a);
        let b_shape = self.shape_of(b);
        let out_shape = match matmul_out_shape(a_shape.as_slice(), b_shape.as_slice(), transpose_a, transpose_b) {
            Some(s) => s,
            None => return None,
        };
        Some(self.binary(a, b, out_shape.as_slice(), flags, ModelVarOp::Matmul, OpParams::Matmul { transpose_a, transpose_b }))
    }

    /// Elementwise cross entropy of target `p` against prediction `q`; `None` (and no
    /// change) when the shapes differ.
    pub fn cross_entropy(&mut self, p: usize, q: usize, flags: u32) -> (out: Option<usize>)
        requires
            old(self).wf(),
            p < old(self).vars@.len(),
            q < old(self).vars@.len(),
        ensures
            old(self).vars@[p as int].val.shape@ != old(self).vars@[q as int].val.shape@ ==> out is None
                && *final(self) == *old(self),
            old(self).vars@[p as int].val.shape@ == old(self).vars@[q as int].val.shape@ ==> {
                &&& out == Some(old(self).vars@.len() as usize)
                &&& Self::appended(*old(self), *final(self), old(self).vars@[p as int].val.shape@,
                    grad_flags(old(self).vars@, [Some(p), Some(q), None], flags), ModelVarOp::CrossEntropy,
                    [Some(p), Some(q), None], OpParams::NoParams)
            },
            final(self).wf(),
    {
        let sp = self.shape_of(p);
        let sq = self.shape_of(q);
        if !same_dims(&sp, &sq) {
            return None;
        }
        proof {
            assert(self.vars@[p as int].wf_at(p as int));
        }
        Some(self.binary(p, q, sp.as_slice(), flags, ModelVarOp::CrossEntropy, OpParams::NoParams))
    }

    /// Layer normalisation of `x` with scale `gamma` and shift `beta`; `eps` is the
    /// bit pattern of the `f32` epsilon.
    pub fn layer_norm(&mut self, x: usize, gamma: usize, beta: usize, eps: u32, flags: u32) -> (out: usize)
        requires
            old(self).wf(),
            x < old(self).vars@.len(),
            gamma < old(self).vars@.len(),
            beta < old(self).vars@.len(),
        ensures
            out == old(self).vars@.len(),
            Self::appended(*old(self), *final(self), old(self).vars@[x as int].val.shape@,
                grad_flags(old(self).vars@, [Some(x), Some(gamma), Some(beta)], flags), ModelVarOp::LayerNorm,
                [Some(x), Some(gamma), Some(beta)], OpParams::LayerNorm { eps }),
            final(self).wf(),
    {
        let shape = self.shape_of(x);
        let ins: [Option<usize>; 3] = [Some(x), Some(gamma), Some(beta)];
        let flags = self.maybe_grad_flag(&ins, flags);
        proof {
            assert(self.vars@[x as int].wf_at(x as int));
        }
        self.create_var_with(shape.as_slice(), flags, ModelVarOp::LayerNorm, ins, OpParams::LayerNorm { eps })
    }

    /// NCHW convolution of `x` by `weight` (optionally plus `bias`); `None` (and no
    /// change) unless both `x` and `weight` are 4D.
    pub fn conv2d(&mut self, x: usize, weight: usize, bias: Option<usize>, stride: usize, padding: usize, flags: u32) -> (out: Option<usize>)
        requires
            old(self).wf(),
            x < old(self).vars@.len(),
            weight < old(self).vars@.len(),
            bias matches Some(bi) ==> bi < old(self).vars@.len(),
            ({
                let xs = old(self).vars@[x as int].val.shape@;
                let ws = old(self).vars@[weight as int].val.shape@;
                xs.len() == 4 && ws.len() == 4 ==> {
                    &&& window_ok(xs[2] as int, ws[2] as int, stride as int, padding as int)
                    &&& window_ok(xs[3] as int, ws[3] as int, stride as int, padding as int)
                    &&& numel_fits(spec_conv2d_shape(xs, ws, stride, padding))
                }
            }),
        ensures
            ({
                let xs = old(self).vars@[x as int].val.shape@;
                let ws = old(self).vars@[weight as int].val.shape@;
                if xs.len() == 4 && ws.len() == 4 {
                    &&& out == Some(old(self).vars@.len() as usize)
                    &&& Self::appended(*old(self), *final(self), spec_conv2d_shape(xs, ws, stride, padding),
                        grad_flags(old(self).vars@, [Some(x), Some(weight), bias], flags), ModelVarOp::Conv2d,
                        [Some(x), Some(weight), bias], OpParams::Conv2d { stride, padding })
                } else {
                    out is None && *final(self) == *old(self)
                }
            }),
            final(self).wf(),
    {
        let xs = self.shape_of(x);
        let ws = self.shape_of(weight);
        if xs.len() != 4 {
            return None;
        }
        if ws.len() != 4 {
            return None;
        }
        let n = xs[0];
        let ih = xs[2];
        let iw = xs[3];
        let oc = ws[0];
        let kh = ws[2];
        let kw = ws[3];
        let oh = conv_out_dim(ih, kh, stride, padding);
        let ow = conv_out_dim(iw, kw, stride, padding);
        let mut shape: Vec<usize> = Vec::new();
        shape.push(n);
        shape.push(oc);
        shape.push(oh);
        shape.push(ow);
        assert(shape@ == spec_conv2d_shape(xs@, ws@, stride, padding));
        let ins: [Option<usize>; 3] = [Some(x), Some(weight), bias];
        let flags = self.maybe_grad_flag(&ins, flags);
        Some(self.create_var_with(shape.as_slice(), flags, ModelVarOp::Conv2d, ins, OpParams::Conv2d { stride, padding }))
    }

    /// Square max-pool of an NCHW var; `None` (and no change) unless `x` is 4D.
    pub fn max_pool2d(&mut self, x: usize, kernel: usize, stride: usize, flags: u32) -> (out: Option<usize>)
        requires
            old(self).wf(),
            x < old(self).vars@.len(),
            ({
                let xs = old(self).vars@[x as int].val.shape@;
                xs.len() == 4 ==> {
                    &&& window_ok(xs[2] as int, kernel as int, stride as int, 0)
                    &&& window_ok(xs[3] as int, kernel as int, stride as int, 0)
                    &&& numel_fits(spec_pool_shape(xs, kernel, stride))
                }
            }),
        ensures
            ({
                let xs = old(self).vars@[x as int].val.shape@;
                if xs.len() == 4 {
                    &&& out == Some(old(self).vars@.len() as usize)
                    &&& Self::appended(*old(self), *final(self), spec_pool_shape(xs, kernel, stride),
                        grad_flags(old(self).vars@, [Some(x), None, None], flags), ModelVarOp::MaxPool2d,
                        [Some(x), None, None], OpParams::MaxPool2d { kernel, stride })
                } else {
                    out is None && *final(self) == *old(self)
                }
            }),
            final(self).wf(),
    {
        let xs = self.shape_of(x);
        if xs.len() != 4 {
            return None;
        }
        let oh = conv_out_dim(xs[2], kernel, stride, 0);
        let ow = conv_out_dim(xs[3], kernel, stride, 0);
        let mut shape: Vec<usize> = Vec::new();
        shape.push(xs[0]);
        shape.push(xs[1]);
        shape.push(oh);
        shape.push(ow);
        assert(shape@ == spec_pool_shape(xs@, kernel, stride));
        let ins: [Option<usize>; 3] = [Some(x), None, None];
        let flags = self.maybe_grad_flag(&ins, flags);
        Some(self.create_var_with(shape.as_slice(), flags, ModelVarOp::MaxPool2d, ins, OpParams::MaxPool2d { kernel, stride }))
    }

    /// Embedding lookup of the ids in `indices` into the rows of the 2D `weight`;
    /// `None` (and no change) unless `weight` is 2D.
    pub fn embedding(&mut self, indices: usize, weight: usize, flags: u32) -> (out: Option<usize>)
        requires
            old(self).wf(),
            indices < old(self).vars@.len(),
            weight < old(self).vars@.len(),
            old(self).vars@[weight as int].val.shape@.len() == 2 ==> numel_fits(
                old(self).vars@[indices as int].val.shape@.push(old(self).vars@[weight as int].val.shape@[1])),
        ensures
            ({
                let ws = old(self).vars@[weight as int].val.shape@;
                if ws.len() == 2 {
                    &&& out == Some(old(self).vars@.len() as usize)
                    &&& Self::appended(*old(self), *final(self), old(self).vars@[indices as int].val.shape@.push(ws[1]),
                        grad_flags(old(self).vars@, [Some(indices), Some(weight), None], flags), ModelVarOp::Embedding,
                        [Some(indices), Some(weight), None], OpParams::NoParams)
                } else {
                    out is None && *final(self) == *old(self)
                }
            }),
            final(self).wf(),
    {
        let mut shape = self.shape_of(indices);
        let ws = self.shape_of(weight);
        if ws.len() != 2 {
            return None;
        }
        shape.push(ws[1]);
        Some(self.binary(indices, weight, shape.as_slice(), flags, ModelVarOp::Embedding, OpParams::NoParams))
    }

    /// Indices of variables marked `MV_FLAG_PARAMETER`, in creation order.
    pub fn parameter_indices(&self) -> (r: Vec<usize>)
        ensures
            r@ == param_indices_of(self.vars@),
    {
        let mut r: Vec<usize> = Vec::new();
        let mut i: usize = 0;
        while i < self.vars.len()
            invariant
                i <= self.vars@.len(),
                r@ == param_indices_of(self.vars@.take(i as int)),
            decreases self.vars@.len() - i,
        {
            proof {
                assert(self.vars@.take(i + 1).drop_last() == self.vars@.take(i as int));
            }
            if self.vars[i].flags & MV_FLAG_PARAMETER != 0 {
                r.push(self.vars[i].index);
            }
            i = i + 1;
        }
        assert(self.vars@.take(self.vars@.len() as int) == self.vars@);
        r
    }

    /// Zeroes the gradient of every parameter var that has one; nothing else changes.
    pub fn clear_parameter_grads(&mut self)
        requires
            old(self).wf(),
        ensures
            final(self).wf(),
            final(self).vars@.len() == old(self).vars@.len(),
            forall|i: int| 0 <= i < old(self).vars@.len() ==> #[trigger] grads_cleared(old(self).vars@[i], final(self).vars@[i]),
            final(self).input == old(self).input,
            final(self).output == old(self).output,
            final(self).desired_output == old(self).desired_output,
            final(self).cost == old(self).cost,
            final(self).forward_prog == old(self).forward_prog,
            final(self).cost_prog == old(self).cost_prog,
            final(self).training == old(self).training,
            final(self).rng == old(self).rng,
    {
        let params = self.parameter_indices();
        let n = self.vars.len();
        proof {
            assert forall|i: int| 0 <= i < self.vars@.len() implies #[trigger] self.vars@[i].index == i by {
                assert(self.vars@[i].wf_at(i));
            }
            lemma_param_indices_are_params(self.vars@);
        }
        let mut k: usize = 0;
        while k < params.len()
            invariant
                k <= params@.len(),
                n == old(self).vars@.len(),
                params@ == param_indices_of(old(self).vars@),
                self.wf(),
                self.vars@.len() == old(self).vars@.len(),
                forall|i: int| 0 <= i < old(self).vars@.len() && !params@.take(k as int).contains(i as usize) ==>
                    #[trigger] self.vars@[i] == old(self).vars@[i],
                forall|i: int| 0 <= i < old(self).vars@.len() && params@.take(k as int).contains(i as usize) ==>
                    #[trigger] grads_cleared(old(self).vars@[i], self.vars@[i]),
                forall|a: int| 0 <= a < params@.len() ==> #[trigger] params@[a] < old(self).vars@.len()
                    && has_flag(old(self).vars@[params@[a] as int].flags, MV_FLAG_PARAMETER),
                forall|i: int| 0 <= i < old(self).vars@.len() && has_flag(old(self).vars@[i].flags, MV_FLAG_PARAMETER) ==> params@.contains(i as usize),
                params@.no_duplicates(),
                self.input == old(self).input,
                self.output == old(self).output,
                self.desired_output == old(self).desired_output,
                self.cost == old(self).cost,
                self.forward_prog == old(self).forward_prog,
                self.cost_prog == old(self).cost_prog,
                self.training == old(self).training,
                self.rng == old(self).rng,
            decreases params@.len() - k,
        {
            let idx = params[k];
            let ghost before = self.vars@;
            proof {
                assert(!params@.take(k as int).contains(idx)) by {
                    if params@.take(k as int).contains(idx) {
                        let a = choose|a: int| 0 <= a < k && params@.take(k as int)[a] == idx;
                        assert(params@[a] == params@[k as int]);
                    }
                }
                assert(self.vars@[idx as int] == old(self).vars@[idx as int]);
            }
            if self.vars[idx].has_grad() {
                let v = &mut self.vars[idx];
                v.grad_mut().clear();
            }
            proof {
                assert(params@.take(k + 1) == params@.take(k as int).push(idx));
                assert forall|i: int| 0 <= i < old(self).vars@.len() && i != idx implies self.vars@[i] == before[i] by {}
                assert(grads_cleared(old(self).vars@[idx as int], self.vars@[idx as int]));
                assert(before[idx as int].wf_at(idx as int));
                assert forall|j: usize| #[trigger] reads(self.vars@[idx as int], j) implies j < idx by {
                    assert(reads(before[idx as int], j));
                }
                assert(self.vars@[idx as int].wf_at(idx as int));
                assert forall|i: int| 0 <= i < old(self).vars@.len() && !params@.take(k + 1).contains(i as usize)
                    implies #[trigger] self.vars@[i] == old(self).vars@[i] by {
                    assert(params@.take(k + 1)[k as int] == idx);
                    assert(i != idx);
                    assert(!params@.take(k as int).contains(i as usize)) by {
                        if params@.take(k as int).contains(i as usize) {
                            let a = choose|a: int| 0 <= a < k && params@.take(k as int)[a] == i as usize;
                            assert(params@.take(k + 1)[a] == i as usize);
                        }
                    }
                }
                assert forall|i: int| 0 <= i < old(self).vars@.len() && params@.take(k + 1).contains(i as usize)
                    implies #[trigger] grads_cleared(old(self).vars@[i], self.vars@[i]) by {
                    if i != idx {
                        let pre = params@.take(k + 1);
                        let a = choose|a: int| 0 <= a < pre.len() && pre[a] == i as usize;
                        assert(pre[k as int] == idx);
                        assert((i as usize) as int == i);
                        assert(a < k);
                        assert(params@.take(k as int)[a] == i as usize);
                    }
                }
                assert forall|i: int| 0 <= i < self.vars@.len() implies #[trigger] self.vars@[i].wf_at(i) by {
                    if i != idx {
                        assert(before[i].wf_at(i));
                    }
                }
            }
            k = k + 1;
        }
        proof {
            assert(params@.take(params@.len() as int) == params@);
            assert forall|i: int| 0 <= i < old(self).vars@.len() implies #[trigger] grads_cleared(old(self).vars@[i], self.vars@[i]) by {
                if has_flag(old(self).vars@[i].flags, MV_FLAG_PARAMETER) {
                    assert(params@.contains(i as usize));
                }
            }
        }
    }

    /// Zeroes, before a backward pass over `prog`, the gradient of every var of
    /// the program that requires one and is not a parameter; nothing else changes.
    pub fn clear_program_grads(&mut self, prog: &ModelProgram)
        requires
            old(self).wf(),
            forall|k: int| 0 <= k < prog.vars@.len() ==> #[trigger] prog.vars@[k] < old(self).vars@.len(),
        ensures
            final(self).wf(),
            final(self).vars@.len() == old(self).vars@.len(),
            forall|i: int| 0 <= i < old(self).vars@.len() ==> if prog.vars@.contains(i as usize) && resets_grad(
                old(self).vars@[i],
            ) {
                grad_reset(old(self).vars@[i], #[trigger] final(self).vars@[i])
            } else {
                final(self).vars@[i] == old(self).vars@[i]
            },
            final(self).input == old(self).input,
            final(self).output == old(self).output,
            final(self).desired_output == old(self).desired_output,
            final(self).cost == old(self).cost,
            final(self).forward_prog == old(self).forward_prog,
            final(self).cost_prog == old(self).cost_prog,
            final(self).training == old(self).training,
            final(self).rng == old(self).rng,
    {
        let n = self.vars.len();
        let mut k: usize = 0;
        while k < prog.vars.len()
            invariant
                k <= prog.vars@.len(),
                n == old(self).vars@.len(),
                forall|a: int| 0 <= a < prog.vars@.len() ==> #[trigger] prog.vars@[a] < n,
                self.wf(),
                self.vars@.len() == n,
                forall|i: int| 0 <= i < n ==> if prog.vars@.take(k as int).contains(i as usize) && resets_grad(
                    old(self).vars@[i],
                ) {
                    grad_reset(old(self).vars@[i], #[trigger] self.vars@[i])
                } else {
                    self.vars@[i] == old(self).vars@[i]
                },
                self.input == old(self).input,
                self.output == old(self).output,
                self.desired_output == old(self).desired_output,
                self.cost == old(self).cost,
                self.forward_prog == old(self).forward_prog,
                self.cost_prog == old(self).cost_prog,
                self.training == old(self).training,
                self.rng == old(self).rng,
            decreases prog.vars@.len() - k,
        {
            let idx = prog.vars[k];
            let ghost before = self.vars@;
            proof {
                assert(prog.vars@.take(k + 1) == prog.vars@.take(k as int).push(idx));
                assert(before[idx as int].wf_at(idx as int));
            }
            if self.vars[idx].requires_grad() && self.vars[idx].flags & MV_FLAG_PARAMETER == 0 {
                proof {
                    assert(resets_grad(old(self).vars@[idx as int])) by {
                        if !prog.vars@.take(k as int).contains(idx) || !resets_grad(old(self).vars@[idx as int]) {
                            assert(before[idx as int] == old(self).vars@[idx as int]);
                        } else {
                            assert(grad_reset(old(self).vars@[idx as int], before[idx as int]));
                        }
                    }
                }
                let v = &mut self.vars[idx];
                v.grad_mut().clear();
                proof {
                    assert(self.vars@[idx as int].wf_at(idx as int)) by {
                        assert forall|j: usize| #[trigger] reads(self.vars@[idx as int], j) implies j < idx by {
                            assert(reads(before[idx as int], j));
                        }
                    }
                    assert forall|i: int| 0 <= i < self.vars@.len() implies #[trigger] self.vars@[i].wf_at(i) by {
                        if i != idx {
                            assert(before[i].wf_at(i));
                        }
                    }
                }
            } else {
                proof {
                    assert(!resets_grad(old(self).vars@[idx as int])) by {
                        if prog.vars@.take(k as int).contains(idx) && resets_grad(old(self).vars@[idx as int]) {
                            assert(grad_reset(old(self).vars@[idx as int], before[idx as int]));
                        } else {
                            assert(before[idx as int] == old(self).vars@[idx as int]);
                        }
                    }
                }
            }
            proof {
                assert forall|i: int| 0 <= i < n implies if prog.vars@.take(k + 1).contains(i as usize) && resets_grad(
                    old(self).vars@[i],
                ) {
                    grad_reset(old(self).vars@[i], #[trigger] self.vars@[i])
                } else {
                    self.vars@[i] == old(self).vars@[i]
                } by {
                    if i != idx {
                        assert(self.vars@[i] == before[i]);
                        assert(prog.vars@.take(k + 1).contains(i as usize) == prog.vars@.take(k as int).contains(i as usize)) by {
                            if prog.vars@.take(k + 1).contains(i as usize) {
                                let a = choose|a: int| 0 <= a < k + 1 && #[trigger] prog.vars@.take(k + 1)[a] == i as usize;
                                assert(a < k);
                                assert(prog.vars@.take(k as int)[a] == i as usize);
                            }
                        }
                    } else {
                        assert(prog.vars@.take(k + 1)[k as int] == idx);
                        assert(prog.vars@.take(k + 1).contains(i as usize));
                    }
                }
            }
            k = k + 1;
        }
        assert(prog.vars@.take(prog.vars@.len() as int) == prog.vars@);
    }

    /// Approximate parameter storage in bytes (f32 weights only).
    pub fn parameter_bytes(&self) -> (b: u64)
        requires
            forall|i: int| 0 <= i < self.vars@.len() ==> #[trigger] self.vars@[i].val.data@.len() * 4 <= usize::MAX,
            param_bytes_of(self.vars@) <= u64::MAX,
        ensures
            b == param_bytes_of(self.vars@),
    {
        let mut b: u64 = 0;
        let mut i: usize = 0;
        while i < self.vars.len()
            invariant
                i <= self.vars@.len(),
                forall|i: int| 0 <= i < self.vars@.len() ==> #[trigger] self.vars@[i].val.data@.len() * 4 <= usize::MAX,
                param_bytes_of(self.vars@) <= u64::MAX,
                b == param_bytes_of(self.vars@.take(i as int)),
            decreases self.vars@.len() - i,
        {
            proof {
                assert(self.vars@.take(i + 1).drop_last() == self.vars@.take(i as int));
                lemma_param_bytes_prefix(self.vars@, i + 1);
            }
            if self.vars[i].flags & MV_FLAG_PARAMETER != 0 {
                let n = self.vars[i].val.data.len() * 4;
                b = b + n as u64;
            }
            i = i + 1;
        }
        assert(self.vars@.take(self.vars@.len() as int) == self.vars@);
        b
    }
}

/// `new` is `old` with its gradient zeroed if `old` is a parameter that has one,
/// and otherwise the same.
pub open spec fn grads_cleared(old: ModelVar, new: ModelVar) -> bool {
    if has_flag(old.flags, MV_FLAG_PARAMETER) && old.grad.is_some() {
        grad_reset(old, new)
    } else {
        new == old
    }
}

/// `new` is `old` with its gradient zeroed, and otherwise the same.
pub open spec fn grad_reset(old: ModelVar, new: ModelVar) -> bool {
    &&& new.grad matches Some(g) && g.shape@ == old.grad.unwrap().shape@
        && g.data@ == zeros(old.grad.unwrap().data@.len() as int)
    &&& new.val == old.val
    &&& new.index == old.index
    &&& new.flags == old.flags
    &&& new.op == old.op
    &&& new.inputs == old.inputs
    &&& new.params == old.params
    &&& new.cache == old.cache
}

/// A var whose gradient a backward pass starts from zero: one that requires a
/// gradient and is not a parameter (parameters accumulate across passes).
pub open spec fn resets_grad(v: ModelVar) -> bool {
    v.requires_grad_spec() && !has_flag(v.flags, MV_FLAG_PARAMETER)
}

/// In a well-formed graph the listed parameter indices are exactly the positions
/// of the parameter vars, each once.
pub proof fn lemma_param_indices_are_params(vars: Seq<ModelVar>)
    requires
        forall|i: int| 0 <= i < vars.len() ==> #[trigger] vars[i].index == i,
    ensures
        forall|a: int| 0 <= a < param_indices_of(vars).len() ==> #[trigger] param_indices_of(vars)[a] < vars.len()
            && has_flag(vars[param_indices_of(vars)[a] as int].flags, MV_FLAG_PARAMETER),
        forall|i: int| 0 <= i < vars.len() && has_flag(vars[i].flags, MV_FLAG_PARAMETER) ==> param_indices_of(vars).contains(i as usize),
        param_indices_of(vars).no_duplicates(),
    decreases vars.len(),
{
    if vars.len() > 0 {
        let init = vars.drop_last();
        assert forall|i: int| 0 <= i < init.len() implies #[trigger] init[i].index == i by {
            assert(init[i] == vars[i]);
        }
        lemma_param_indices_are_params(init);
        let rest = param_indices_of(init);
        let last = vars.len() - 1;
        assert forall|i: int| 0 <= i < vars.len() && has_flag(vars[i].flags, MV_FLAG_PARAMETER) implies param_indices_of(vars).contains(i as usize) by {
            if i < last {
                assert(init[i] == vars[i]);
                assert(rest.contains(i as usize));
                let a = choose|a: int| 0 <= a < rest.len() && rest[a] == i as usize;
                if has_flag(vars.last().flags, MV_FLAG_PARAMETER) {
                    assert(param_indices_of(vars)[a] == i as usize);
                }
            } else {
                assert(param_indices_of(vars).last() == vars.last().index);
            }
        }
        if has_flag(vars.last().flags, MV_FLAG_PARAMETER) {
            assert(!rest.contains(last as usize));
            assert forall|a: int| 0 <= a < param_indices_of(vars).len() implies #[trigger] param_indices_of(vars)[a] < vars.len()
                && has_flag(vars[param_indices_of(vars)[a] as int].flags, MV_FLAG_PARAMETER) by {
                if a < rest.len() {
                    assert(init[rest[a] as int] == vars[rest[a] as int]);
                }
            }
        } else {
            assert forall|a: int| 0 <= a < param_indices_of(vars).len() implies #[trigger] param_indices_of(vars)[a] < vars.len()
                && has_flag(vars[param_indices_of(vars)[a] as int].flags, MV_FLAG_PARAMETER) by {
                assert(init[rest[a] as int] == vars[rest[a] as int]);
            }
        }
    }
}

/// Parameter bytes only grow with more vars: every prefix holds at most the total.
pub proof fn lemma_param_bytes_prefix(vars: Seq<ModelVar>, k: int)
    requires
        0 <= k <= vars.len(),
    ensures
        0 <= param_bytes_of(vars.take(k)) <= param_bytes_of(vars),
    decreases vars.len() - k,
{
    if k == vars.len() {
        assert(vars.take(k) == vars);
        lemma_param_bytes_nonneg(vars);
    } else {
        assert(vars.drop_last().take(k) == vars.take(k));
        lemma_param_bytes_prefix(vars.drop_last(), k);
    }
}

pub proof fn lemma_param_bytes_nonneg(vars: Seq<ModelVar>)
    ensures
        param_bytes_of(vars) >= 0,
    decreases vars.len(),
{
    if vars.len() > 0 {
        lemma_param_bytes_nonneg(vars.drop_last());
    }
}

} // verus!
