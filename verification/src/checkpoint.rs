use crate::model::{has_flag, param_indices_of, ModelContext, ModelVar, MV_FLAG_PARAMETER};
use vstd::bytes::{spec_u32_from_le_bytes, spec_u32_to_le_bytes, spec_u64_from_le_bytes, spec_u64_to_le_bytes};
use vstd::prelude::*;

verus! {

/// The four bytes that open a checkpoint: `MLCK`.
pub open spec fn magic() -> Seq<u8> {
    seq![77u8, 76u8, 67u8, 75u8]
}

/// The only format version there is.
pub const VERSION: u32 = 1u32;

/// One moment slot of the optimizer: the parameter key and its first and second
/// moments, each `f32` held by its bit pattern.
pub struct OptimizerSlot {
    pub key: usize,
    pub m: Vec<u32>,
    pub v: Vec<u32>,
}

/// Optimizer state stored beside the parameters: the global step, the moment
/// slots, and the hyper-parameters `beta1, beta2, eps, weight_decay` (bit patterns).
pub struct OptimizerState {
    pub step: u64,
    pub slots: Vec<OptimizerSlot>,
    pub hypers: [u32; 4],
}

/// Mathematical content of a moment slot.
pub struct SlotView {
    pub key: usize,
    pub m: Seq<u32>,
    pub v: Seq<u32>,
}

/// Mathematical content of optimizer state.
pub struct OptView {
    pub step: u64,
    pub slots: Seq<SlotView>,
    pub hypers: Seq<u32>,
}

impl View for OptimizerSlot {
    type V = SlotView;

    open spec fn view(&self) -> SlotView {
        SlotView { key: self.key, m: self.m@, v: self.v@ }
    }
}

impl View for OptimizerState {
    type V = OptView;

    open spec fn view(&self) -> OptView {
        OptView { step: self.step, slots: self.slots@.map_values(|s: OptimizerSlot| s@), hypers: self.hypers@ }
    }
}

// ---------------------------------------------------------------------------
// Encoding
// ---------------------------------------------------------------------------

/// Little-endian words, one after the other.
pub open spec fn enc_u32s(s: Seq<u32>) -> Seq<u8>
    decreases s.len(),
{
    if s.len() == 0 {
        Seq::empty()
    } else {
        enc_u32s(s.drop_last()) + spec_u32_to_le_bytes(s.last())
    }
}

/// Dimensions, each widened to a little-endian `u64`.
pub open spec fn enc_dims(s: Seq<usize>) -> Seq<u8>
    decreases s.len(),
{
    if s.len() == 0 {
        Seq::empty()
    } else {
        enc_dims(s.drop_last()) + spec_u64_to_le_bytes(s.last() as u64)
    }
}

/// The record of parameter var `i`: index, rank, dimensions, element count and
/// elements. Counts are written as `u32`, truncated.
pub open spec fn enc_param(vars: Seq<ModelVar>, i: usize) -> Seq<u8> {
    let t = vars[i as int].val;
    spec_u64_to_le_bytes(i as u64) + spec_u32_to_le_bytes(t.shape@.len() as u32) + enc_dims(t.shape@)
        + spec_u32_to_le_bytes(t.data@.len() as u32) + enc_u32s(t.data@)
}

/// The records of the listed vars, in order.
pub open spec fn enc_params(vars: Seq<ModelVar>, idxs: Seq<usize>) -> Seq<u8>
    decreases idxs.len(),
{
    if idxs.len() == 0 {
        Seq::empty()
    } else {
        enc_params(vars, idxs.drop_last()) + enc_param(vars, idxs.last())
    }
}

/// A moment slot: key, length, first moments, second moments.
pub open spec fn enc_slot(s: SlotView) -> Seq<u8> {
    spec_u64_to_le_bytes(s.key as u64) + spec_u32_to_le_bytes(s.m.len() as u32) + enc_u32s(s.m) + enc_u32s(s.v)
}

pub open spec fn enc_slots(s: Seq<SlotView>) -> Seq<u8>
    decreases s.len(),
{
    if s.len() == 0 {
        Seq::empty()
    } else {
        enc_slots(s.drop_last()) + enc_slot(s.last())
    }
}

/// The optimizer section: a `0` word when there is none, else `1`, the step, the
/// slot count, the slots and the hyper-parameters.
pub open spec fn enc_opt(o: Option<OptView>) -> Seq<u8> {
    match o {
        None => spec_u32_to_le_bytes(0),
        Some(o) => spec_u32_to_le_bytes(1) + spec_u64_to_le_bytes(o.step) + spec_u32_to_le_bytes(o.slots.len() as u32)
            + enc_slots(o.slots) + enc_u32s(o.hypers),
    }
}

/// A whole checkpoint of the parameters of `vars` and optional optimizer state.
pub open spec fn spec_encode(vars: Seq<ModelVar>, opt: Option<OptView>) -> Seq<u8> {
    let idxs = param_indices_of(vars);
    magic() + spec_u32_to_le_bytes(VERSION) + spec_u32_to_le_bytes(idxs.len() as u32) + enc_params(vars, idxs) + enc_opt(opt)
}

/// Appends `v` in little-endian order.
pub fn write_u32(w: &mut Vec<u8>, v: u32)
    ensures
        final(w)@ == old(w)@ + spec_u32_to_le_bytes(v),
{
    let mut b = vstd::bytes::u32_to_le_bytes(v);
    w.append(&mut b);
}

/// Appends `v` in little-endian order.
pub fn write_u64(w: &mut Vec<u8>, v: u64)
    ensures
        final(w)@ == old(w)@ + spec_u64_to_le_bytes(v),
{
    let mut b = vstd::bytes::u64_to_le_bytes(v);
    w.append(&mut b);
}

/// Appends each element (an `f32` bit pattern) in little-endian order.
pub fn write_f32_slice(w: &mut Vec<u8>, data: &[u32])
    ensures
        final(w)@ == old(w)@ + enc_u32s(data@),
{
    let mut i: usize = 0;
    while i < data.len()
        invariant
            i <= data@.len(),
            w@ == old(w)@ + enc_u32s(data@.take(i as int)),
        decreases data@.len() - i,
    {
        proof {
            assert(data@.take(i + 1).drop_last() == data@.take(i as int));
        }
        write_u32(w, data[i]);
        proof {
            assert(w@ == old(w)@ + enc_u32s(data@.take(i + 1)));
        }
        i = i + 1;
    }
    assert(data@.take(data@.len() as int) == data@);
}

fn write_dims(w: &mut Vec<u8>, dims: &[usize])
    ensures
        final(w)@ == old(w)@ + enc_dims(dims@),
{
    let mut i: usize = 0;
    while i < dims.len()
        invariant
            i <= dims@.len(),
            w@ == old(w)@ + enc_dims(dims@.take(i as int)),
        decreases dims@.len() - i,
    {
        proof {
            assert(dims@.take(i + 1).drop_last() == dims@.take(i as int));
        }
        write_u64(w, dims[i] as u64);
        proof {
            assert(w@ == old(w)@ + enc_dims(dims@.take(i + 1)));
        }
        i = i + 1;
    }
    assert(dims@.take(dims@.len() as int) == dims@);
}

/// Serialises the parameters of `model` (and the optimizer state, when given) in
/// the native checkpoint format.
pub fn encode_checkpoint(model: &ModelContext, opt: Option<&OptimizerState>) -> (bytes: Vec<u8>)
    requires
        model.wf(),
    ensures
        bytes@ == spec_encode(model.vars@, match opt { Some(o) => Some(o@), None => None }),
{
    let mut w: Vec<u8> = Vec::new();
    w.push(77u8);
    w.push(76u8);
    w.push(67u8);
    w.push(75u8);
    assert(w@ == magic());
    write_u32(&mut w, VERSION);
    let params = model.parameter_indices();
    write_u32(&mut w, params.len() as u32);
    let ghost head = w@;
    proof {
        assert forall|i: int| 0 <= i < model.vars@.len() implies #[trigger] model.vars@[i].index == i by {
            assert(model.vars@[i].wf_at(i));
        }
        crate::model::lemma_param_indices_are_params(model.vars@);
    }
    let mut k: usize = 0;
    while k < params.len()
        invariant
            k <= params@.len(),
            params@ == param_indices_of(model.vars@),
            forall|a: int| 0 <= a < params@.len() ==> #[trigger] params@[a] < model.vars@.len(),
            w@ == head + enc_params(model.vars@, params@.take(k as int)),
        decreases params@.len() - k,
    {
        let i = params[k];
        proof {
            assert(params@.take(k + 1).drop_last() == params@.take(k as int));
            assert(params@.take(k + 1).last() == i);
        }
        let val = &model.vars[i].val;
        write_u64(&mut w, i as u64);
        write_u32(&mut w, val.shape.len() as u32);
        write_dims(&mut w, val.shape.as_slice());
        write_u32(&mut w, val.data.len() as u32);
        write_f32_slice(&mut w, val.data.as_slice());
        proof {
            assert(w@ == head + enc_params(model.vars@, params@.take(k + 1)));
        }
        k = k + 1;
    }
    assert(params@.take(params@.len() as int) == params@);
    let ghost body = w@;
    match opt {
        Some(o) => {
            write_u32(&mut w, 1);
            write_u64(&mut w, o.step);
            write_u32(&mut w, o.slots.len() as u32);
            let ghost mid = w@;
            let ghost sv = o.slots@.map_values(|s: OptimizerSlot| s@);
            let mut j: usize = 0;
            while j < o.slots.len()
                invariant
                    j <= o.slots@.len(),
                    sv == o.slots@.map_values(|s: OptimizerSlot| s@),
                    w@ == mid + enc_slots(sv.take(j as int)),
                decreases o.slots@.len() - j,
            {
                let s = &o.slots[j];
                proof {
                    assert(sv.take(j + 1).drop_last() == sv.take(j as int));
                    assert(sv.take(j + 1).last() == s@);
                }
                write_u64(&mut w, s.key as u64);
                write_u32(&mut w, s.m.len() as u32);
                write_f32_slice(&mut w, s.m.as_slice());
                write_f32_slice(&mut w, s.v.as_slice());
                proof {
                    assert(w@ == mid + enc_slots(sv.take(j + 1)));
                }
                j = j + 1;
            }
            assert(sv.take(sv.len() as int) == sv);
            let hs = o.hypers.as_slice();
            assert(hs@ == o.hypers@);
            write_f32_slice(&mut w, hs);
        },
        None => {
            write_u32(&mut w, 0);
        },
    }
    w
}

// ---------------------------------------------------------------------------
// Decoding
// ---------------------------------------------------------------------------

/// The little-endian `u32` at `pos`, if the bytes reach that far.
pub open spec fn rd_u32(b: Seq<u8>, pos: int) -> Option<u32> {
    if 0 <= pos && pos + 4 <= b.len() {
        Some(spec_u32_from_le_bytes(b.subrange(pos, pos + 4)))
    } else {
        None
    }
}

/// The little-endian `u64` at `pos`, if the bytes reach that far.
pub open spec fn rd_u64(b: Seq<u8>, pos: int) -> Option<u64> {
    if 0 <= pos && pos + 8 <= b.len() {
        Some(spec_u64_from_le_bytes(b.subrange(pos, pos + 8)))
    } else {
        None
    }
}

/// `n` consecutive little-endian `u32` words from `pos`, if the bytes reach that far.
pub open spec fn rd_u32s(b: Seq<u8>, pos: int, n: int) -> Option<Seq<u32>> {
    if 0 <= pos && 0 <= n && pos + 4 * n <= b.len() {
        Some(Seq::new(n as nat, |i: int| spec_u32_from_le_bytes(b.subrange(pos + 4 * i, pos + 4 * i + 4))))
    } else {
        None
    }
}

/// `n` consecutive little-endian `u64` dimensions from `pos`, narrowed to `usize`.
pub open spec fn rd_dims(b: Seq<u8>, pos: int, n: int) -> Option<Seq<usize>> {
    if 0 <= pos && 0 <= n && pos + 8 * n <= b.len() {
        Some(Seq::new(n as nat, |i: int| spec_u64_from_le_bytes(b.subrange(pos + 8 * i, pos + 8 * i + 8)) as usize))
    } else {
        None
    }
}

/// Why loading a checkpoint failed (mathematical form of [`CheckpointError`]).
pub enum LoadFail {
    Eof,
    BadMagic,
    Version(u32),
    Count(usize, usize),
    NotParam(usize),
    Shape(usize, Seq<usize>),
}

/// Why loading a checkpoint failed.
pub enum CheckpointError {
    /// The bytes end before the record being read.
    UnexpectedEof,
    /// The file does not start with `MLCK`.
    BadMagic,
    UnsupportedVersion(u32),
    ParamCountMismatch { file: usize, model: usize },
    /// A record names a var that is not a parameter of the model.
    NotAParameter(usize),
    /// A record's shape or element count differs from the model's var.
    ShapeMismatch { index: usize, file_shape: Vec<usize> },
}

impl CheckpointError {
    pub open spec fn fail(&self) -> LoadFail {
        match self {
            CheckpointError::UnexpectedEof => LoadFail::Eof,
            CheckpointError::BadMagic => LoadFail::BadMagic,
            CheckpointError::UnsupportedVersion(v) => LoadFail::Version(*v),
            CheckpointError::ParamCountMismatch { file, model } => LoadFail::Count(*file, *model),
            CheckpointError::NotAParameter(i) => LoadFail::NotParam(*i),
            CheckpointError::ShapeMismatch { index, file_shape } => LoadFail::Shape(*index, file_shape@),
        }
    }
}

/// Outcome of reading one parameter record.
pub enum ParamStep {
    Fail(LoadFail),
    /// The var index, its new elements, and where the next record starts.
    Rec(usize, Seq<u32>, int),
}

/// Reads the parameter record at `pos`, checking it against `vars` as soon as the
/// index is known (is it a parameter?) and once the record is read (same shape and
/// element count?).
pub open spec fn param_step(b: Seq<u8>, pos: int, vars: Seq<ModelVar>) -> ParamStep {
    match rd_u64(b, pos) {
        None => ParamStep::Fail(LoadFail::Eof),
        Some(raw) => {
            let idx = raw as usize;
            if !(idx < vars.len() && has_flag(vars[idx as int].flags, MV_FLAG_PARAMETER)) {
                ParamStep::Fail(LoadFail::NotParam(idx))
            } else {
                match rd_u32(b, pos + 8) {
                    None => ParamStep::Fail(LoadFail::Eof),
                    Some(nd) => {
                        let ndim = nd as usize;
                        match rd_dims(b, pos + 12, ndim as int) {
                            None => ParamStep::Fail(LoadFail::Eof),
                            Some(shape) => {
                                let p2 = pos + 12 + 8 * ndim;
                                match rd_u32(b, p2) {
                                    None => ParamStep::Fail(LoadFail::Eof),
                                    Some(ne) => {
                                        let numel = ne as usize;
                                        match rd_u32s(b, p2 + 4, numel as int) {
                                            None => ParamStep::Fail(LoadFail::Eof),
                                            Some(data) => {
                                                if vars[idx as int].val.shape@ != shape || vars[idx as int].val.data@.len() != numel {
                                                    ParamStep::Fail(LoadFail::Shape(idx, shape))
                                                } else {
                                                    ParamStep::Rec(idx, data, p2 + 4 + 4 * numel)
                                                }
                                            },
                                        }
                                    },
                                }
                            },
                        }
                    },
                }
            }
        },
    }
}

/// Reads `k` parameter records from `pos`: the records accepted before any
/// failure, and where reading ended (or why it failed).
pub open spec fn spec_params(b: Seq<u8>, pos: int, vars: Seq<ModelVar>, k: nat) -> (Seq<(usize, Seq<u32>)>, Result<int, LoadFail>)
    decreases k,
{
    if k == 0 {
        (Seq::empty(), Ok(pos))
    } else {
        let (prev, r) = spec_params(b, pos, vars, (k - 1) as nat);
        match r {
            Err(e) => (prev, Err(e)),
            Ok(p) => match param_step(b, p, vars) {
                ParamStep::Fail(e) => (prev, Err(e)),
                ParamStep::Rec(idx, data, p2) => (prev.push((idx, data)), Ok(p2)),
            },
        }
    }
}

/// Reads the moment slot at `pos`.
pub open spec fn slot_step(b: Seq<u8>, pos: int) -> Option<(SlotView, int)> {
    match rd_u64(b, pos) {
        None => None,
        Some(key) => match rd_u32(b, pos + 8) {
            None => None,
            Some(ne) => {
                let n = ne as usize;
                match rd_u32s(b, pos + 12, n as int) {
                    None => None,
                    Some(m) => match rd_u32s(b, pos + 12 + 4 * n, n as int) {
                        None => None,
                        Some(v) => Some((SlotView { key: key as usize, m, v }, pos + 12 + 8 * n)),
                    },
                }
            },
        },
    }
}

/// Reads `k` moment slots from `pos`.
pub open spec fn spec_slots(b: Seq<u8>, pos: int, k: nat) -> Option<(Seq<SlotView>, int)>
    decreases k,
{
    if k == 0 {
        Some((Seq::empty(), pos))
    } else {
        match spec_slots(b, pos, (k - 1) as nat) {
            None => None,
            Some((prev, p)) => match slot_step(b, p) {
                None => None,
                Some((s, p2)) => Some((prev.push(s), p2)),
            },
        }
    }
}

/// Reads the optimizer section at `pos`: absent unless its first word is `1`.
pub open spec fn spec_opt(b: Seq<u8>, pos: int) -> Result<Option<OptView>, LoadFail> {
    match rd_u32(b, pos) {
        None => Err(LoadFail::Eof),
        Some(has) => if has != 1 {
            Ok(None)
        } else {
            match rd_u64(b, pos + 4) {
                None => Err(LoadFail::Eof),
                Some(step) => match rd_u32(b, pos + 12) {
                    None => Err(LoadFail::Eof),
                    Some(ns) => match spec_slots(b, pos + 16, ns as usize as nat) {
                        None => Err(LoadFail::Eof),
                        Some((slots, p)) => match rd_u32s(b, p, 4) {
                            None => Err(LoadFail::Eof),
                            Some(h) => Ok(Some(OptView { step, slots, hypers: h })),
                        },
                    },
                },
            }
        },
    }
}

/// Loading a checkpoint into a model whose vars are `vars`: the parameter records
/// accepted (in order), and the optimizer state read or the first failure.
pub open spec fn spec_load(b: Seq<u8>, vars: Seq<ModelVar>) -> (Seq<(usize, Seq<u32>)>, Result<Option<OptView>, LoadFail>) {
    if b.len() < 4 {
        (Seq::empty(), Err(LoadFail::Eof))
    } else if b.subrange(0, 4) != magic() {
        (Seq::empty(), Err(LoadFail::BadMagic))
    } else {
        match rd_u32(b, 4) {
            None => (Seq::empty(), Err(LoadFail::Eof)),
            Some(ver) => if ver != VERSION {
                (Seq::empty(), Err(LoadFail::Version(ver)))
            } else {
                match rd_u32(b, 8) {
                    None => (Seq::empty(), Err(LoadFail::Eof)),
                    Some(np) => {
                        let expected = param_indices_of(vars).len();
                        if np as usize != expected {
                            (Seq::empty(), Err(LoadFail::Count(np as usize, expected as usize)))
                        } else {
                            let (applied, r) = spec_params(b, 12, vars, np as usize as nat);
                            match r {
                                Err(e) => (applied, Err(e)),
                                Ok(p) => (applied, spec_opt(b, p)),
                            }
                        }
                    },
                }
            },
        }
    }
}

/// The elements of var `i` after the accepted records are written in order.
pub open spec fn data_after(applied: Seq<(usize, Seq<u32>)>, i: usize, d: Seq<u32>) -> Seq<u32>
    decreases applied.len(),
{
    if applied.len() == 0 {
        d
    } else if applied.last().0 == i {
        applied.last().1
    } else {
        data_after(applied.drop_last(), i, d)
    }
}

/// `new` is `old` with its value elements replaced by `d`.
pub open spec fn with_data(old: ModelVar, new: ModelVar, d: Seq<u32>) -> bool {
    &&& new.val.shape@ == old.val.shape@
    &&& new.val.data@ == d
    &&& new.grad == old.grad
    &&& new.index == old.index
    &&& new.flags == old.flags
    &&& new.op == old.op
    &&& new.inputs == old.inputs
    &&& new.params == old.params
    &&& new.cache == old.cache
}

/// The little-endian `u32` at `pos`.
pub fn read_u32(bytes: &[u8], pos: usize) -> (r: Option<u32>)
    requires
        pos <= bytes@.len(),
    ensures
        r == rd_u32(bytes@, pos as int),
{
    if bytes.len() - pos < 4 {
        return None;
    }
    let s = vstd::slice::slice_subrange(bytes, pos, pos + 4);
    Some(vstd::bytes::u32_from_le_bytes(s))
}

/// The little-endian `u64` at `pos`.
pub fn read_u64(bytes: &[u8], pos: usize) -> (r: Option<u64>)
    requires
        pos <= bytes@.len(),
    ensures
        r == rd_u64(bytes@, pos as int),
{
    if bytes.len() - pos < 8 {
        return None;
    }
    let s = vstd::slice::slice_subrange(bytes, pos, pos + 8);
    Some(vstd::bytes::u64_from_le_bytes(s))
}

/// `n` little-endian words (`f32` bit patterns) from `pos`.
pub fn read_f32_slice(bytes: &[u8], pos: usize, n: usize) -> (r: Option<Vec<u32>>)
    requires
        pos <= bytes@.len(),
    ensures
        match r {
            Some(v) => rd_u32s(bytes@, pos as int, n as int) == Some(v@),
            None => rd_u32s(bytes@, pos as int, n as int) is None,
        },
{
    if n > (bytes.len() - pos) / 4 {
        return None;
    }
    let mut out: Vec<u32> = Vec::new();
    assert(4 * n <= bytes@.len() - pos) by (nonlinear_arith)
        requires
            n <= (bytes@.len() - pos) / 4,
            pos <= bytes@.len(),
    ;
    let len = bytes.len();
    let mut i: usize = 0;
    let mut at: usize = pos;
    while i < n
        invariant
            i <= n,
            len == bytes@.len(),
            pos <= bytes@.len(),
            4 * n <= bytes@.len() - pos,
            at == pos + 4 * i,
            out@.len() == i,
            forall|k: int| 0 <= k < i ==> #[trigger] out@[k] == spec_u32_from_le_bytes(
                bytes@.subrange(pos + 4 * k, pos + 4 * k + 4)),
        decreases n - i,
    {
        let s = vstd::slice::slice_subrange(bytes, at, at + 4);
        out.push(vstd::bytes::u32_from_le_bytes(s));
        i = i + 1;
        at = at + 4;
    }
    assert(out@ == Seq::new(n as nat, |k: int| spec_u32_from_le_bytes(bytes@.subrange(pos + 4 * k, pos + 4 * k + 4))));
    Some(out)
}

/// `n` little-endian `u64` dimensions from `pos`, each narrowed to `usize`.
fn read_dims(bytes: &[u8], pos: usize, n: usize) -> (r: Option<Vec<usize>>)
    requires
        pos <= bytes@.len(),
    ensures
        match r {
            Some(v) => rd_dims(bytes@, pos as int, n as int) == Some(v@),
            None => rd_dims(bytes@, pos as int, n as int) is None,
        },
{
    if n > (bytes.len() - pos) / 8 {
        return None;
    }
    let mut out: Vec<usize> = Vec::new();
    assert(8 * n <= bytes@.len() - pos) by (nonlinear_arith)
        requires
            n <= (bytes@.len() - pos) / 8,
            pos <= bytes@.len(),
    ;
    let len = bytes.len();
    let mut i: usize = 0;
    let mut at: usize = pos;
    while i < n
        invariant
            i <= n,
            len == bytes@.len(),
            pos <= bytes@.len(),
            8 * n <= bytes@.len() - pos,
            at == pos + 8 * i,
            out@.len() == i,
            forall|k: int| 0 <= k < i ==> #[trigger] out@[k] == spec_u64_from_le_bytes(
                bytes@.subrange(pos + 8 * k, pos + 8 * k + 8)) as usize,
        decreases n - i,
    {
        let s = vstd::slice::slice_subrange(bytes, at, at + 8);
        let d = vstd::bytes::u64_from_le_bytes(s);
        out.push(d as usize);
        i = i + 1;
        at = at + 8;
    }
    assert(out@ == Seq::new(n as nat, |k: int| spec_u64_from_le_bytes(bytes@.subrange(pos + 8 * k, pos + 8 * k + 8)) as usize));
    Some(out)
}

/// The mathematical form of an optional optimizer state.
pub open spec fn opt_view(o: Option<OptimizerState>) -> Option<OptView> {
    match o {
        Some(x) => Some(x@),
        None => None,
    }
}

proof fn lemma_params_fail_stable(b: Seq<u8>, pos: int, vars: Seq<ModelVar>, k: nat, m: nat)
    requires
        k <= m,
        spec_params(b, pos, vars, k).1 is Err,
    ensures
        spec_params(b, pos, vars, m) == spec_params(b, pos, vars, k),
    decreases m - k,
{
    if m > k {
        lemma_params_fail_stable(b, pos, vars, k, (m - 1) as nat);
    }
}

proof fn lemma_slots_fail_stable(b: Seq<u8>, pos: int, k: nat, m: nat)
    requires
        k <= m,
        spec_slots(b, pos, k) is None,
    ensures
        spec_slots(b, pos, m) is None,
    decreases m - k,
{
    if m > k {
        lemma_slots_fail_stable(b, pos, k, (m - 1) as nat);
    }
}

/// Accepted records name parameters of the model and carry as many elements as
/// the var holds.
proof fn lemma_params_records(b: Seq<u8>, pos: int, vars: Seq<ModelVar>, k: nat)
    ensures
        forall|a: int| 0 <= a < spec_params(b, pos, vars, k).0.len() ==> {
            let r = #[trigger] spec_params(b, pos, vars, k).0[a];
            r.0 < vars.len() && r.1.len() == vars[r.0 as int].val.data@.len()
        },
    decreases k,
{
    if k > 0 {
        lemma_params_records(b, pos, vars, (k - 1) as nat);
    }
}

proof fn lemma_data_after_len(applied: Seq<(usize, Seq<u32>)>, vars: Seq<ModelVar>, i: usize)
    requires
        i < vars.len(),
        forall|a: int| 0 <= a < applied.len() ==> (#[trigger] applied[a]).0 < vars.len()
            && applied[a].1.len() == vars[applied[a].0 as int].val.data@.len(),
    ensures
        data_after(applied, i, vars[i as int].val.data@).len() == vars[i as int].val.data@.len(),
    decreases applied.len(),
{
    if applied.len() > 0 && applied.last().0 != i {
        lemma_data_after_len(applied.drop_last(), vars, i);
    }
}

fn read_slots(bytes: &[u8], pos: usize, k: usize) -> (r: Option<(Vec<OptimizerSlot>, usize)>)
    requires
        pos <= bytes@.len(),
    ensures
        match r {
            Some((v, p)) => spec_slots(bytes@, pos as int, k as nat) == Some((v@.map_values(|s: OptimizerSlot| s@), p as int))
                && p <= bytes@.len(),
            None => spec_slots(bytes@, pos as int, k as nat) is None,
        },
{
    let len = bytes.len();
    let mut out: Vec<OptimizerSlot> = Vec::new();
    let mut p = pos;
    let mut j: usize = 0;
    while j < k
        invariant
            j <= k,
            len == bytes@.len(),
            p <= bytes@.len(),
            spec_slots(bytes@, pos as int, j as nat) == Some((out@.map_values(|s: OptimizerSlot| s@), p as int)),
        decreases k - j,
    {
        let key = match read_u64(bytes, p) {
            Some(x) => x,
            None => {
                proof {
                    lemma_slots_fail_stable(bytes@, pos as int, (j + 1) as nat, k as nat);
                }
                return None;
            },
        };
        let ne = match read_u32(bytes, p + 8) {
            Some(x) => x,
            None => {
                proof {
                    lemma_slots_fail_stable(bytes@, pos as int, (j + 1) as nat, k as nat);
                }
                return None;
            },
        };
        let n = ne as usize;
        let m = match read_f32_slice(bytes, p + 12, n) {
            Some(x) => x,
            None => {
                proof {
                    lemma_slots_fail_stable(bytes@, pos as int, (j + 1) as nat, k as nat);
                }
                return None;
            },
        };
        assert(p + 12 + 4 * n <= bytes@.len());
        let v = match read_f32_slice(bytes, p + 12 + 4 * n, n) {
            Some(x) => x,
            None => {
                proof {
                    lemma_slots_fail_stable(bytes@, pos as int, (j + 1) as nat, k as nat);
                }
                return None;
            },
        };
        let slot = OptimizerSlot { key: key as usize, m, v };
        let ghost prev = out@;
        out.push(slot);
        p = p + 12 + 8 * n;
        proof {
            assert(out@.map_values(|s: OptimizerSlot| s@) == prev.map_values(|s: OptimizerSlot| s@).push(slot@));
        }
        j = j + 1;
    }
    Some((out, p))
}

fn read_optimizer(bytes: &[u8], pos: usize) -> (r: Result<Option<OptimizerState>, CheckpointError>)
    requires
        pos <= bytes@.len(),
    ensures
        match r {
            Ok(o) => spec_opt(bytes@, pos as int) == Ok::<Option<OptView>, LoadFail>(opt_view(o)),
            Err(e) => spec_opt(bytes@, pos as int) == Err::<Option<OptView>, LoadFail>(e.fail()),
        },
{
    let len = bytes.len();
    let has = match read_u32(bytes, pos) {
        Some(x) => x,
        None => return Err(CheckpointError::UnexpectedEof),
    };
    if has != 1 {
        return Ok(None);
    }
    let step = match read_u64(bytes, pos + 4) {
        Some(x) => x,
        None => return Err(CheckpointError::UnexpectedEof),
    };
    let ns = match read_u32(bytes, pos + 12) {
        Some(x) => x,
        None => return Err(CheckpointError::UnexpectedEof),
    };
    let (slots, p) = match read_slots(bytes, pos + 16, ns as usize) {
        Some(x) => x,
        None => return Err(CheckpointError::UnexpectedEof),
    };
    let h = match read_f32_slice(bytes, p, 4) {
        Some(x) => x,
        None => return Err(CheckpointError::UnexpectedEof),
    };
    let hypers: [u32; 4] = [h[0], h[1], h[2], h[3]];
    assert(hypers@ == h@);
    let st = OptimizerState { step, slots, hypers };
    Ok(Some(st))
}

/// Loads a checkpoint into `model`, writing each parameter record into its var as
/// soon as the record is accepted (so a failure can leave the records before it
/// applied). Returns the optimizer state the checkpoint holds, if any.
pub fn load_checkpoint_bytes(bytes: &[u8], model: &mut ModelContext) -> (r: Result<Option<OptimizerState>, CheckpointError>)
    requires
        old(model).wf(),
    ensures
        ({
            let (applied, res) = spec_load(bytes@, old(model).vars@);
            &&& match r {
                Ok(o) => res == Ok::<Option<OptView>, LoadFail>(opt_view(o)),
                Err(e) => res == Err::<Option<OptView>, LoadFail>(e.fail()),
            }
            &&& final(model).vars@.len() == old(model).vars@.len()
            &&& forall|i: int| 0 <= i < old(model).vars@.len() ==> #[trigger] with_data(old(model).vars@[i],
                final(model).vars@[i], data_after(applied, i as usize, old(model).vars@[i].val.data@))
        }),
        final(model).wf(),
        final(model).input == old(model).input,
        final(model).output == old(model).output,
        final(model).desired_output == old(model).desired_output,
        final(model).cost == old(model).cost,
        final(model).forward_prog == old(model).forward_prog,
        final(model).cost_prog == old(model).cost_prog,
        final(model).training == old(model).training,
        final(model).rng == old(model).rng,
{
    let ghost vars0 = model.vars@;
    proof {
        assert forall|i: int| 0 <= i < vars0.len() implies #[trigger] with_data(vars0[i], vars0[i], data_after(Seq::empty(), i as usize, vars0[i].val.data@)) by {}
    }
    if bytes.len() < 4 {
        return Err(CheckpointError::UnexpectedEof);
    }
    if bytes[0] != 77u8 || bytes[1] != 76u8 || bytes[2] != 67u8 || bytes[3] != 75u8 {
        proof {
            assert(bytes@.subrange(0, 4) != magic()) by {
                if bytes@.subrange(0, 4) == magic() {
                    assert(bytes@.subrange(0, 4)[0] == bytes@[0]);
                    assert(bytes@.subrange(0, 4)[1] == bytes@[1]);
                    assert(bytes@.subrange(0, 4)[2] == bytes@[2]);
                    assert(bytes@.subrange(0, 4)[3] == bytes@[3]);
                }
            }
        }
        return Err(CheckpointError::BadMagic);
    }
    assert(bytes@.subrange(0, 4) == magic());
    let ver = match read_u32(bytes, 4) {
        Some(x) => x,
        None => return Err(CheckpointError::UnexpectedEof),
    };
    if ver != VERSION {
        return Err(CheckpointError::UnsupportedVersion(ver));
    }
    let np = match read_u32(bytes, 8) {
        Some(x) => x,
        None => return Err(CheckpointError::UnexpectedEof),
    };
    let nparams = np as usize;
    let expected = model.parameter_indices().len();
    if nparams != expected {
        return Err(CheckpointError::ParamCountMismatch { file: nparams, model: expected });
    }
    let nvars = model.vars.len();
    let len = bytes.len();
    let mut pos: usize = 12;
    let mut k: usize = 0;
    let ghost mut applied: Seq<(usize, Seq<u32>)> = Seq::empty();
    while k < nparams
        invariant
            k <= nparams,
            nparams == np as usize,
            nvars == vars0.len(),
            len == bytes@.len(),
            vars0 == old(model).vars@,
            old(model).wf(),
            pos <= bytes@.len(),
            bytes@.len() >= 4,
            bytes@.subrange(0, 4) == magic(),
            rd_u32(bytes@, 4) == Some(VERSION),
            rd_u32(bytes@, 8) == Some(np),
            np as usize == param_indices_of(vars0).len(),
            spec_params(bytes@, 12, vars0, k as nat) == (applied, Ok::<int, LoadFail>(pos as int)),
            forall|a: int| 0 <= a < applied.len() ==> (#[trigger] applied[a]).0 < vars0.len()
                && applied[a].1.len() == vars0[applied[a].0 as int].val.data@.len(),
            model.vars@.len() == vars0.len(),
            forall|i: int| 0 <= i < vars0.len() ==> #[trigger] with_data(vars0[i], model.vars@[i],
                data_after(applied, i as usize, vars0[i].val.data@)),
            model.wf(),
            model.input == old(model).input,
            model.output == old(model).output,
            model.desired_output == old(model).desired_output,
            model.cost == old(model).cost,
            model.forward_prog == old(model).forward_prog,
            model.cost_prog == old(model).cost_prog,
            model.training == old(model).training,
            model.rng == old(model).rng,
        decreases nparams - k,
    {
        proof {
            lemma_params_records(bytes@, 12, vars0, (k + 1) as nat);
        }
        let raw = match read_u64(bytes, pos) {
            Some(x) => x,
            None => {
                proof {
                    lemma_params_fail_stable(bytes@, 12, vars0, (k + 1) as nat, nparams as nat);
                }
                return Err(CheckpointError::UnexpectedEof);
            },
        };
        let idx = raw as usize;
        if idx >= nvars || model.vars[idx].flags & MV_FLAG_PARAMETER == 0 {
            proof {
                if idx < nvars {
                    assert(with_data(vars0[idx as int], model.vars@[idx as int], data_after(applied, (idx as int) as usize, vars0[idx as int].val.data@)));
                }
                lemma_params_fail_stable(bytes@, 12, vars0, (k + 1) as nat, nparams as nat);
            }
            return Err(CheckpointError::NotAParameter(idx));
        }
        proof {
            assert(with_data(vars0[idx as int], model.vars@[idx as int], data_after(applied, (idx as int) as usize, vars0[idx as int].val.data@)));
        }
        let nd = match read_u32(bytes, pos + 8) {
            Some(x) => x,
            None => {
                proof {
                    lemma_params_fail_stable(bytes@, 12, vars0, (k + 1) as nat, nparams as nat);
                }
                return Err(CheckpointError::UnexpectedEof);
            },
        };
        let ndim = nd as usize;
        let shape = match read_dims(bytes, pos + 12, ndim) {
            Some(x) => x,
            None => {
                proof {
                    lemma_params_fail_stable(bytes@, 12, vars0, (k + 1) as nat, nparams as nat);
                }
                return Err(CheckpointError::UnexpectedEof);
            },
        };
        let p2 = pos + 12 + 8 * ndim;
        let ne = match read_u32(bytes, p2) {
            Some(x) => x,
            None => {
                proof {
                    lemma_params_fail_stable(bytes@, 12, vars0, (k + 1) as nat, nparams as nat);
                }
                return Err(CheckpointError::UnexpectedEof);
            },
        };
        let numel = ne as usize;
        let data = match read_f32_slice(bytes, p2 + 4, numel) {
            Some(x) => x,
            None => {
                proof {
                    lemma_params_fail_stable(bytes@, 12, vars0, (k + 1) as nat, nparams as nat);
                }
                return Err(CheckpointError::UnexpectedEof);
            },
        };
        proof {
            lemma_data_after_len(applied, vars0, idx);
        }
        if !crate::tensor::same_dims(&model.vars[idx].val.shape, &shape) || model.vars[idx].val.data.len() != numel {
            proof {
                lemma_params_fail_stable(bytes@, 12, vars0, (k + 1) as nat, nparams as nat);
            }
            return Err(CheckpointError::ShapeMismatch { index: idx, file_shape: shape });
        }
        let ghost before = model.vars@;
        {
            let v = &mut model.vars[idx];
            v.val.data = data;
        }
        proof {
            let ghost new_applied = applied.push((idx, data@));
            assert(spec_params(bytes@, 12, vars0, (k + 1) as nat) == (new_applied, Ok::<int, LoadFail>(p2 + 4 + 4 * numel)));
            assert forall|i: int| 0 <= i < vars0.len() implies #[trigger] with_data(vars0[i], model.vars@[i],
                data_after(new_applied, i as usize, vars0[i].val.data@)) by {
                assert(new_applied.drop_last() == applied);
                assert((i as usize) as int == i);
                assert(with_data(vars0[i], before[i], data_after(applied, i as usize, vars0[i].val.data@)));
                if i != idx {
                    assert(model.vars@[i] == before[i]);
                } else {
                    assert(new_applied.last() == (idx, data@));
                    assert(data_after(new_applied, i as usize, vars0[i].val.data@) == data@);
                    assert(model.vars@[i].val.data@ == data@);
                    assert(model.vars@[i].val.shape@ == before[i].val.shape@);
                }
            }
            assert forall|i: int| 0 <= i < model.vars@.len() implies #[trigger] model.vars@[i].wf_at(i) by {
                assert(vars0[i].wf_at(i));
                assert(with_data(vars0[i], model.vars@[i], data_after(new_applied, i as usize, vars0[i].val.data@)));
                lemma_data_after_len(new_applied, vars0, i as usize);
                assert forall|j: usize| #[trigger] crate::model::reads(model.vars@[i], j) implies j < i by {
                    assert(crate::model::reads(vars0[i], j));
                }
            }
            applied = new_applied;
        }
        pos = p2 + 4 + 4 * numel;
        k = k + 1;
    }
    read_optimizer(bytes, pos)
}

} // verus!

verus! {

// ---------------------------------------------------------------------------
// Round trip
// ---------------------------------------------------------------------------

/// The bytes of `b` from `p` on begin with `x`.
pub open spec fn at(b: Seq<u8>, p: int, x: Seq<u8>) -> bool {
    0 <= p && p + x.len() <= b.len() && b.subrange(p, p + x.len()) == x
}

proof fn lemma_at_split(b: Seq<u8>, p: int, x: Seq<u8>, y: Seq<u8>)
    requires
        at(b, p, x + y),
    ensures
        at(b, p, x),
        at(b, p + x.len(), y),
{
    let whole = b.subrange(p, p + x.len() + y.len());
    assert forall|k: int| 0 <= k < x.len() implies b.subrange(p, p + x.len())[k] == x[k] by {
        assert(whole[k] == b[p + k]);
        assert((x + y)[k] == x[k]);
    }
    assert(b.subrange(p, p + x.len()) =~= x);
    assert forall|k: int| 0 <= k < y.len() implies b.subrange(p + x.len(), p + x.len() + y.len())[k] == y[k] by {
        assert(whole[x.len() + k] == b[p + x.len() + k]);
        assert((x + y)[x.len() + k] == y[k]);
    }
    assert(b.subrange(p + x.len(), p + x.len() + y.len()) =~= y);
}

proof fn lemma_rd_u32_at(b: Seq<u8>, p: int, x: u32)
    requires
        at(b, p, spec_u32_to_le_bytes(x)),
    ensures
        rd_u32(b, p) == Some(x),
{
    vstd::bytes::lemma_auto_spec_u32_to_from_le_bytes();
}

proof fn lemma_rd_u64_at(b: Seq<u8>, p: int, x: u64)
    requires
        at(b, p, spec_u64_to_le_bytes(x)),
    ensures
        rd_u64(b, p) == Some(x),
{
    vstd::bytes::lemma_auto_spec_u64_to_from_le_bytes();
}

proof fn lemma_enc_u32s(s: Seq<u32>)
    ensures
        enc_u32s(s).len() == 4 * s.len(),
        forall|i: int| 0 <= i < s.len() ==> #[trigger] enc_u32s(s).subrange(4 * i, 4 * i + 4) == spec_u32_to_le_bytes(s[i]),
    decreases s.len(),
{
    vstd::bytes::lemma_auto_spec_u32_to_from_le_bytes();
    if s.len() > 0 {
        let init = s.drop_last();
        lemma_enc_u32s(init);
        assert forall|i: int| 0 <= i < s.len() implies #[trigger] enc_u32s(s).subrange(4 * i, 4 * i + 4) == spec_u32_to_le_bytes(s[i]) by {
            let e = enc_u32s(s);
            if i < init.len() {
                assert(e.subrange(4 * i, 4 * i + 4) =~= enc_u32s(init).subrange(4 * i, 4 * i + 4));
                assert(init[i] == s[i]);
            } else {
                assert(e.subrange(4 * i, 4 * i + 4) =~= spec_u32_to_le_bytes(s.last()));
            }
        }
    }
}

proof fn lemma_enc_dims(s: Seq<usize>)
    ensures
        enc_dims(s).len() == 8 * s.len(),
        forall|i: int| 0 <= i < s.len() ==> #[trigger] enc_dims(s).subrange(8 * i, 8 * i + 8) == spec_u64_to_le_bytes(s[i] as u64),
    decreases s.len(),
{
    vstd::bytes::lemma_auto_spec_u64_to_from_le_bytes();
    if s.len() > 0 {
        let init = s.drop_last();
        lemma_enc_dims(init);
        assert forall|i: int| 0 <= i < s.len() implies #[trigger] enc_dims(s).subrange(8 * i, 8 * i + 8) == spec_u64_to_le_bytes(s[i] as u64) by {
            let e = enc_dims(s);
            if i < init.len() {
                assert(e.subrange(8 * i, 8 * i + 8) =~= enc_dims(init).subrange(8 * i, 8 * i + 8));
                assert(init[i] == s[i]);
            } else {
                assert(e.subrange(8 * i, 8 * i + 8) =~= spec_u64_to_le_bytes(s.last() as u64));
            }
        }
    }
}

proof fn lemma_rd_u32s_at(b: Seq<u8>, p: int, s: Seq<u32>)
    requires
        at(b, p, enc_u32s(s)),
    ensures
        rd_u32s(b, p, s.len() as int) == Some(s),
{
    vstd::bytes::lemma_auto_spec_u32_to_from_le_bytes();
    lemma_enc_u32s(s);
    let r = Seq::new(s.len(), |i: int| spec_u32_from_le_bytes(b.subrange(p + 4 * i, p + 4 * i + 4)));
    assert forall|i: int| 0 <= i < s.len() implies r[i] == s[i] by {
        assert(b.subrange(p + 4 * i, p + 4 * i + 4) =~= enc_u32s(s).subrange(4 * i, 4 * i + 4));
        assert(enc_u32s(s).subrange(4 * i, 4 * i + 4) == spec_u32_to_le_bytes(s[i]));
    }
    assert(r =~= s);
}

proof fn lemma_rd_dims_at(b: Seq<u8>, p: int, s: Seq<usize>)
    requires
        at(b, p, enc_dims(s)),
    ensures
        rd_dims(b, p, s.len() as int) == Some(s),
{
    vstd::bytes::lemma_auto_spec_u64_to_from_le_bytes();
    lemma_enc_dims(s);
    let r = Seq::new(s.len(), |i: int| spec_u64_from_le_bytes(b.subrange(p + 8 * i, p + 8 * i + 8)) as usize);
    assert forall|i: int| 0 <= i < s.len() implies r[i] == s[i] by {
        assert(b.subrange(p + 8 * i, p + 8 * i + 8) =~= enc_dims(s).subrange(8 * i, 8 * i + 8));
        assert(enc_dims(s).subrange(8 * i, 8 * i + 8) == spec_u64_to_le_bytes(s[i] as u64));
    }
    assert(r =~= s);
}

/// The parameter record of var `i` fits the `u32` counts of the format.
pub open spec fn param_fits(v: ModelVar) -> bool {
    v.val.shape@.len() <= u32::MAX && v.val.data@.len() <= u32::MAX
}

/// A moment slot fits the format: `u32` length, both moments of that length.
pub open spec fn slot_fits(s: SlotView) -> bool {
    s.m.len() <= u32::MAX && s.v.len() == s.m.len()
}

/// Optimizer state fits the format.
pub open spec fn opt_fits(o: Option<OptView>) -> bool {
    o matches Some(o) ==> {
        &&& o.slots.len() <= u32::MAX
        &&& forall|a: int| 0 <= a < o.slots.len() ==> slot_fits(#[trigger] o.slots[a])
        &&& o.hypers.len() == 4
    }
}

proof fn lemma_param_step_at(b: Seq<u8>, p: int, vars: Seq<ModelVar>, target: Seq<ModelVar>, i: usize)
    requires
        at(b, p, enc_param(vars, i)),
        i < vars.len(),
        vars.len() == target.len(),
        has_flag(target[i as int].flags, MV_FLAG_PARAMETER),
        target[i as int].val.shape@ == vars[i as int].val.shape@,
        target[i as int].val.data@.len() == vars[i as int].val.data@.len(),
        param_fits(vars[i as int]),
    ensures
        param_step(b, p, target) == ParamStep::Rec(i, vars[i as int].val.data@, p + enc_param(vars, i).len()),
{
    let t = vars[i as int].val;
    let e1 = spec_u64_to_le_bytes(i as u64);
    let e2 = spec_u32_to_le_bytes(t.shape@.len() as u32);
    let e3 = enc_dims(t.shape@);
    let e4 = spec_u32_to_le_bytes(t.data@.len() as u32);
    let e5 = enc_u32s(t.data@);
    vstd::bytes::lemma_auto_spec_u64_to_from_le_bytes();
    vstd::bytes::lemma_auto_spec_u32_to_from_le_bytes();
    lemma_enc_dims(t.shape@);
    lemma_enc_u32s(t.data@);
    lemma_at_split(b, p, e1 + e2 + e3 + e4, e5);
    lemma_at_split(b, p, e1 + e2 + e3, e4);
    lemma_at_split(b, p, e1 + e2, e3);
    lemma_at_split(b, p, e1, e2);
    lemma_rd_u64_at(b, p, i as u64);
    lemma_rd_u32_at(b, p + 8, t.shape@.len() as u32);
    lemma_rd_dims_at(b, p + 12, t.shape@);
    let p2 = p + 12 + 8 * t.shape@.len();
    lemma_rd_u32_at(b, p2, t.data@.len() as u32);
    lemma_rd_u32s_at(b, p2 + 4, t.data@);
}

/// The records a checkpoint of `vars` carries for the listed vars.
pub open spec fn param_records(vars: Seq<ModelVar>, idxs: Seq<usize>) -> Seq<(usize, Seq<u32>)> {
    idxs.map_values(|i: usize| (i, vars[i as int].val.data@))
}

proof fn lemma_at_params_prefix(b: Seq<u8>, p: int, vars: Seq<ModelVar>, s: Seq<usize>, k: int)
    requires
        at(b, p, enc_params(vars, s)),
        0 <= k <= s.len(),
    ensures
        at(b, p, enc_params(vars, s.take(k))),
    decreases s.len(),
{
    if k == s.len() {
        assert(s.take(k) == s);
    } else {
        lemma_at_split(b, p, enc_params(vars, s.drop_last()), enc_param(vars, s.last()));
        assert(s.drop_last().take(k) == s.take(k));
        lemma_at_params_prefix(b, p, vars, s.drop_last(), k);
    }
}

proof fn lemma_params_read(b: Seq<u8>, p: int, vars: Seq<ModelVar>, target: Seq<ModelVar>, idxs: Seq<usize>, k: nat)
    requires
        at(b, p, enc_params(vars, idxs)),
        k <= idxs.len(),
        vars.len() == target.len(),
        forall|a: int| 0 <= a < idxs.len() ==> {
            let i = #[trigger] idxs[a];
            &&& i < vars.len()
            &&& has_flag(target[i as int].flags, MV_FLAG_PARAMETER)
            &&& target[i as int].val.shape@ == vars[i as int].val.shape@
            &&& target[i as int].val.data@.len() == vars[i as int].val.data@.len()
            &&& param_fits(vars[i as int])
        },
    ensures
        spec_params(b, p, target, k) == (param_records(vars, idxs.take(k as int)), Ok::<int, LoadFail>(
            p + enc_params(vars, idxs.take(k as int)).len())),
    decreases k,
{
    if k == 0 {
        assert(param_records(vars, idxs.take(0)) =~= Seq::empty());
    } else {
        let k1 = (k - 1) as nat;
        lemma_params_read(b, p, vars, target, idxs, k1);
        let i = idxs[k1 as int];
        assert(idxs.take(k as int).drop_last() == idxs.take(k1 as int));
        assert(idxs.take(k as int).last() == i);
        lemma_at_params_prefix(b, p, vars, idxs, k as int);
        lemma_at_split(b, p, enc_params(vars, idxs.take(k1 as int)), enc_param(vars, i));
        lemma_param_step_at(b, p + enc_params(vars, idxs.take(k1 as int)).len(), vars, target, i);
        assert(param_records(vars, idxs.take(k as int)) =~= param_records(vars, idxs.take(k1 as int)).push((i, vars[i as int].val.data@)));
    }
}

proof fn lemma_at_slots_prefix(b: Seq<u8>, p: int, s: Seq<SlotView>, k: int)
    requires
        at(b, p, enc_slots(s)),
        0 <= k <= s.len(),
    ensures
        at(b, p, enc_slots(s.take(k))),
    decreases s.len(),
{
    if k == s.len() {
        assert(s.take(k) == s);
    } else {
        lemma_at_split(b, p, enc_slots(s.drop_last()), enc_slot(s.last()));
        assert(s.drop_last().take(k) == s.take(k));
        lemma_at_slots_prefix(b, p, s.drop_last(), k);
    }
}

proof fn lemma_slots_read(b: Seq<u8>, p: int, s: Seq<SlotView>, k: nat)
    requires
        at(b, p, enc_slots(s)),
        k <= s.len(),
        forall|a: int| 0 <= a < s.len() ==> slot_fits(#[trigger] s[a]),
    ensures
        spec_slots(b, p, k) == Some((s.take(k as int), p + enc_slots(s.take(k as int)).len())),
    decreases k,
{
    if k == 0 {
        assert(s.take(0) =~= Seq::<SlotView>::empty());
    } else {
        let k1 = (k - 1) as nat;
        lemma_slots_read(b, p, s, k1);
        let sl = s[k1 as int];
        assert(s.take(k as int).drop_last() == s.take(k1 as int));
        assert(s.take(k as int).last() == sl);
        lemma_at_slots_prefix(b, p, s, k as int);
        let q = p + enc_slots(s.take(k1 as int)).len();
        lemma_at_split(b, p, enc_slots(s.take(k1 as int)), enc_slot(sl));
        assert(slot_fits(sl));
        let e1 = spec_u64_to_le_bytes(sl.key as u64);
        let e2 = spec_u32_to_le_bytes(sl.m.len() as u32);
        let e3 = enc_u32s(sl.m);
        let e4 = enc_u32s(sl.v);
        vstd::bytes::lemma_auto_spec_u64_to_from_le_bytes();
        vstd::bytes::lemma_auto_spec_u32_to_from_le_bytes();
        lemma_enc_u32s(sl.m);
        lemma_enc_u32s(sl.v);
        lemma_at_split(b, q, e1 + e2 + e3, e4);
        lemma_at_split(b, q, e1 + e2, e3);
        lemma_at_split(b, q, e1, e2);
        lemma_rd_u64_at(b, q, sl.key as u64);
        lemma_rd_u32_at(b, q + 8, sl.m.len() as u32);
        lemma_rd_u32s_at(b, q + 12, sl.m);
        lemma_rd_u32s_at(b, q + 12 + 4 * sl.m.len(), sl.v);
        assert(slot_step(b, q) == Some((SlotView { key: sl.key, m: sl.m, v: sl.v }, q + enc_slot(sl).len())));
        assert(s.take(k1 as int).push(sl) == s.take(k as int));
    }
}

proof fn lemma_opt_read(b: Seq<u8>, p: int, o: Option<OptView>)
    requires
        at(b, p, enc_opt(o)),
        opt_fits(o),
    ensures
        spec_opt(b, p) == Ok::<Option<OptView>, LoadFail>(o),
{
    vstd::bytes::lemma_auto_spec_u64_to_from_le_bytes();
    vstd::bytes::lemma_auto_spec_u32_to_from_le_bytes();
    match o {
        None => {
            lemma_rd_u32_at(b, p, 0);
        },
        Some(v) => {
            let e1 = spec_u32_to_le_bytes(1);
            let e2 = spec_u64_to_le_bytes(v.step);
            let e3 = spec_u32_to_le_bytes(v.slots.len() as u32);
            let e4 = enc_slots(v.slots);
            let e5 = enc_u32s(v.hypers);
            lemma_at_split(b, p, e1 + e2 + e3 + e4, e5);
            lemma_at_split(b, p, e1 + e2 + e3, e4);
            lemma_at_split(b, p, e1 + e2, e3);
            lemma_at_split(b, p, e1, e2);
            lemma_rd_u32_at(b, p, 1);
            lemma_rd_u64_at(b, p + 4, v.step);
            lemma_rd_u32_at(b, p + 12, v.slots.len() as u32);
            lemma_slots_read(b, p + 16, v.slots, v.slots.len());
            assert(v.slots.take(v.slots.len() as int) == v.slots);
            lemma_rd_u32s_at(b, p + 16 + e4.len(), v.hypers);
            assert(v == OptView { step: v.step, slots: v.slots, hypers: v.hypers });
        },
    }
}

proof fn lemma_data_after_records(vars: Seq<ModelVar>, idxs: Seq<usize>, i: usize, d: Seq<u32>)
    ensures
        data_after(param_records(vars, idxs), i, d) == if idxs.contains(i) { vars[i as int].val.data@ } else { d },
    decreases idxs.len(),
{
    if idxs.len() > 0 {
        assert(param_records(vars, idxs).drop_last() == param_records(vars, idxs.drop_last()));
        lemma_data_after_records(vars, idxs.drop_last(), i, d);
        if idxs.last() != i {
            assert(idxs.contains(i) == idxs.drop_last().contains(i)) by {
                if idxs.contains(i) {
                    let a = choose|a: int| 0 <= a < idxs.len() && idxs[a] == i;
                    assert(idxs.drop_last()[a] == i);
                }
                if idxs.drop_last().contains(i) {
                    let a = choose|a: int| 0 <= a < idxs.drop_last().len() && idxs.drop_last()[a] == i;
                    assert(idxs[a] == i);
                }
            }
        } else {
            assert(idxs[idxs.len() - 1] == i);
        }
    }
}

proof fn lemma_param_indices_same(a: Seq<ModelVar>, b: Seq<ModelVar>)
    requires
        a.len() == b.len(),
        forall|i: int| 0 <= i < a.len() ==> (#[trigger] b[i]).flags == a[i].flags && b[i].index == a[i].index,
    ensures
        param_indices_of(a) == param_indices_of(b),
    decreases a.len(),
{
    if a.len() > 0 {
        assert forall|i: int| 0 <= i < a.drop_last().len() implies (#[trigger] b.drop_last()[i]).flags == a.drop_last()[i].flags
            && b.drop_last()[i].index == a.drop_last()[i].index by {
            assert(b.drop_last()[i] == b[i] && a.drop_last()[i] == a[i]);
        }
        lemma_param_indices_same(a.drop_last(), b.drop_last());
        assert(b.last() == b[a.len() - 1]);
    }
}

/// Round trip: loading the checkpoint of a model into a model of the same shape
/// (same vars, flags and shapes) succeeds, gives back the optimizer state that was
/// saved, and leaves each parameter var holding the elements it had when saved and
/// every other var as it was.
pub proof fn lemma_checkpoint_round_trip(vars: Seq<ModelVar>, target: Seq<ModelVar>, opt: Option<OptView>)
    requires
        vars.len() <= usize::MAX,
        forall|i: int| 0 <= i < vars.len() ==> #[trigger] vars[i].index == i,
        param_indices_of(vars).len() <= u32::MAX,
        forall|i: int| 0 <= i < vars.len() ==> param_fits(#[trigger] vars[i]),
        target.len() == vars.len(),
        forall|i: int| 0 <= i < vars.len() ==> {
            &&& (#[trigger] target[i]).flags == vars[i].flags
            &&& target[i].index == vars[i].index
            &&& target[i].val.shape@ == vars[i].val.shape@
            &&& target[i].val.data@.len() == vars[i].val.data@.len()
        },
        opt_fits(opt),
    ensures
        spec_load(spec_encode(vars, opt), target).1 == Ok::<Option<OptView>, LoadFail>(opt),
        forall|i: int| 0 <= i < vars.len() ==> #[trigger] data_after(spec_load(spec_encode(vars, opt), target).0,
            i as usize, target[i].val.data@) == if has_flag(vars[i].flags, MV_FLAG_PARAMETER) {
            vars[i].val.data@
        } else {
            target[i].val.data@
        },
{
    let b = spec_encode(vars, opt);
    let idxs = param_indices_of(vars);
    let h0 = magic();
    let h1 = spec_u32_to_le_bytes(VERSION);
    let h2 = spec_u32_to_le_bytes(idxs.len() as u32);
    let pp = enc_params(vars, idxs);
    let oo = enc_opt(opt);
    vstd::bytes::lemma_auto_spec_u32_to_from_le_bytes();
    assert(at(b, 0, b)) by {
        assert(b.subrange(0, b.len() as int) =~= b);
    }
    lemma_at_split(b, 0, h0 + h1 + h2 + pp, oo);
    lemma_at_split(b, 0, h0 + h1 + h2, pp);
    lemma_at_split(b, 0, h0 + h1, h2);
    lemma_at_split(b, 0, h0, h1);
    lemma_rd_u32_at(b, 4, VERSION);
    lemma_rd_u32_at(b, 8, idxs.len() as u32);
    crate::model::lemma_param_indices_are_params(vars);
    assert forall|a: int| 0 <= a < idxs.len() implies {
        let i = #[trigger] idxs[a];
        &&& i < vars.len()
        &&& has_flag(target[i as int].flags, MV_FLAG_PARAMETER)
        &&& target[i as int].val.shape@ == vars[i as int].val.shape@
        &&& target[i as int].val.data@.len() == vars[i as int].val.data@.len()
        &&& param_fits(vars[i as int])
    } by {
        let i = idxs[a];
        assert(target[i as int].flags == vars[i as int].flags);
    }
    lemma_params_read(b, 12, vars, target, idxs, idxs.len());
    assert(idxs.take(idxs.len() as int) == idxs);
    assert((h0 + h1 + h2 + pp).len() == 12 + pp.len());
    lemma_opt_read(b, (12 + pp.len()) as int, opt);
    assert(b.subrange(0, 4) == magic());
    lemma_param_indices_same(vars, target);
    assert((idxs.len() as u32) as usize == idxs.len());
    assert(spec_params(b, 12, target, (idxs.len() as u32) as usize as nat) == (param_records(vars, idxs), Ok::<int, LoadFail>((12 + pp.len()) as int)));
    assert(spec_load(b, target) == (param_records(vars, idxs), Ok::<Option<OptView>, LoadFail>(opt)));
    assert forall|i: int| 0 <= i < vars.len() implies #[trigger] data_after(spec_load(spec_encode(vars, opt), target).0,
        i as usize, target[i].val.data@) == if has_flag(vars[i].flags, MV_FLAG_PARAMETER) {
        vars[i].val.data@
    } else {
        target[i].val.data@
    } by {
        lemma_data_after_records(vars, idxs, i as usize, target[i].val.data@);
        if idxs.contains(i as usize) {
            let a = choose|a: int| 0 <= a < idxs.len() && idxs[a] == i as usize;
            assert(idxs[a] < vars.len() && has_flag(vars[idxs[a] as int].flags, MV_FLAG_PARAMETER));
        }
    }
}

} // verus!
