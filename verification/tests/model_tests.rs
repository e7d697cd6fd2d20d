use ml_lib_rust::model::{
    matmul_out_shape, ModelContext, ModelVarOp, OpParams, MV_FLAG_COST, MV_FLAG_DESIRED_OUTPUT, MV_FLAG_INPUT,
    MV_FLAG_NONE, MV_FLAG_OUTPUT, MV_FLAG_PARAMETER, MV_FLAG_REQUIRES_GRAD,
};

/// x[1,3] @ w[3,2] + b[1,2] -> relu -> output; cross entropy against a target.
fn small_model() -> ModelContext {
    let mut m = ModelContext::new();
    let x = m.create_var(&[1, 3], MV_FLAG_INPUT);
    let w = m.create_var(&[3, 2], MV_FLAG_REQUIRES_GRAD | MV_FLAG_PARAMETER);
    let z = m.matmul(x, w, MV_FLAG_NONE).unwrap();
    let b = m.create_var(&[1, 2], MV_FLAG_REQUIRES_GRAD | MV_FLAG_PARAMETER);
    let y = m.add(z, b, MV_FLAG_NONE).unwrap();
    let out = m.relu(y, MV_FLAG_OUTPUT);
    let t = m.create_var(&[1, 2], MV_FLAG_DESIRED_OUTPUT);
    m.cross_entropy(t, out, MV_FLAG_COST).unwrap();
    m
}

#[test]
fn builders_wire_the_graph() {
    let m = small_model();
    assert_eq!(m.vars.len(), 8);
    assert_eq!(m.input, Some(0));
    assert_eq!(m.output, Some(5));
    assert_eq!(m.desired_output, Some(6));
    assert_eq!(m.cost, Some(7));
    assert_eq!(m.vars[2].op, ModelVarOp::Matmul);
    assert_eq!(m.vars[2].inputs, [Some(0), Some(1), None]);
    assert_eq!(m.vars[2].val().shape, vec![1, 2]);
    assert_eq!(m.vars[2].params, OpParams::Matmul { transpose_a: false, transpose_b: false });
    // gradient flag propagates from the weight
    assert_eq!(m.vars[2].flags, MV_FLAG_REQUIRES_GRAD);
    assert!(m.vars[2].has_grad());
    assert_eq!(m.vars[5].flags, MV_FLAG_OUTPUT | MV_FLAG_REQUIRES_GRAD);
    assert!(!m.vars[0].has_grad());
    assert!(!m.vars[6].requires_grad());
    assert_eq!(m.vars[7].op, ModelVarOp::CrossEntropy);
    for (i, v) in m.vars.iter().enumerate() {
        assert_eq!(v.index, i);
        assert_eq!(v.val().data.len(), v.val().numel());
    }
    assert_eq!(ModelVarOp::Conv2d.num_inputs(), 3);
    assert_eq!(ModelVarOp::Create.num_inputs(), 0);
    assert_eq!(ModelVarOp::Relu.num_inputs(), 1);
    assert_eq!(ModelVarOp::Embedding.num_inputs(), 2);
}

#[test]
fn compile_orders_dependencies_first() {
    let mut m = small_model();
    m.compile();
    assert_eq!(m.forward_prog.vars, vec![3, 1, 0, 2, 4, 5]);
    assert_eq!(m.cost_prog.vars, vec![3, 1, 0, 2, 4, 5, 6, 7]);
}

#[test]
fn prog_create_diamond_and_missing_root() {
    let mut m = ModelContext::new();
    let a = m.create_var(&[2], MV_FLAG_NONE);
    let b = m.relu(a, MV_FLAG_NONE);
    let c = m.add(a, b, MV_FLAG_NONE).unwrap();
    assert_eq!(m.prog_create(c).vars, vec![a, b, c]);
    assert_eq!(m.prog_create(a).vars, vec![a]);
    assert!(m.prog_create(99).vars.is_empty());
    let twice = m.add(b, b, MV_FLAG_NONE).unwrap();
    assert_eq!(m.prog_create(twice).vars, vec![a, b, twice]);
}

#[test]
fn shape_rules_of_builders() {
    let mut m = ModelContext::new();
    let a = m.create_var(&[2, 3], MV_FLAG_NONE);
    let b = m.create_var(&[3, 4], MV_FLAG_NONE);
    assert_eq!(m.sub(a, b, MV_FLAG_NONE), None);
    assert_eq!(m.cross_entropy(a, b, MV_FLAG_NONE), None);
    assert_eq!(m.vars.len(), 2);
    let p = m.matmul(a, b, MV_FLAG_NONE).unwrap();
    assert_eq!(m.vars[p].val().shape, vec![2, 4]);
    assert_eq!(m.matmul(b, a, MV_FLAG_NONE), None);
    let q = m.matmul_ex(b, b, true, false, MV_FLAG_NONE).unwrap();
    assert_eq!(m.vars[q].val().shape, vec![4, 4]);
    assert_eq!(matmul_out_shape(&[2, 3], &[2, 5], true, false), Some(vec![3, 5]));
    assert_eq!(matmul_out_shape(&[2, 3, 4], &[4, 5], false, false), None);
    let img = m.create_var(&[1, 2, 8, 8], MV_FLAG_NONE);
    let ker = m.create_var(&[4, 2, 3, 3], MV_FLAG_NONE);
    let c = m.conv2d(img, ker, None, 1, 1, MV_FLAG_NONE).unwrap();
    assert_eq!(m.vars[c].val().shape, vec![1, 4, 8, 8]);
    let c2 = m.conv2d(img, ker, None, 2, 0, MV_FLAG_NONE).unwrap();
    assert_eq!(m.vars[c2].val().shape, vec![1, 4, 3, 3]);
    assert_eq!(m.conv2d(a, ker, None, 1, 0, MV_FLAG_NONE), None);
    let pool = m.max_pool2d(img, 2, 2, MV_FLAG_NONE).unwrap();
    assert_eq!(m.vars[pool].val().shape, vec![1, 2, 4, 4]);
    assert_eq!(m.max_pool2d(a, 2, 2, MV_FLAG_NONE), None);
    let ids = m.create_var(&[5], MV_FLAG_NONE);
    let table = m.create_var(&[10, 6], MV_FLAG_REQUIRES_GRAD);
    let e = m.embedding(ids, table, MV_FLAG_NONE).unwrap();
    assert_eq!(m.vars[e].val().shape, vec![5, 6]);
    assert_eq!(m.vars[e].flags, MV_FLAG_REQUIRES_GRAD);
    assert_eq!(m.embedding(table, ids, MV_FLAG_NONE), None);
    let d = m.dropout(a, 0.25f32.to_bits(), MV_FLAG_NONE);
    assert_eq!(m.vars[d].params, OpParams::Dropout { p: 0.25f32.to_bits() });
    let g = m.create_var(&[3], MV_FLAG_NONE);
    let ln = m.layer_norm(a, g, g, 1e-5f32.to_bits(), MV_FLAG_NONE);
    assert_eq!(m.vars[ln].inputs, [Some(a), Some(g), Some(g)]);
    let s = m.sigmoid(a, MV_FLAG_NONE);
    let t = m.tanh(s, MV_FLAG_NONE);
    let ge = m.gelu(t, MV_FLAG_NONE);
    let sm = m.softmax(ge, MV_FLAG_NONE);
    assert_eq!(m.vars[sm].val().shape, vec![2, 3]);
}

#[test]
fn parameters_bytes_and_grad_clearing() {
    let mut m = small_model();
    assert_eq!(m.parameter_indices(), vec![1, 3]);
    assert_eq!(m.parameter_bytes(), 32);
    for i in [1usize, 3, 2] {
        let n = m.vars[i].grad().data.len();
        m.vars[i].grad_mut().data = vec![1.0f32.to_bits(); n];
    }
    m.clear_parameter_grads();
    assert!(m.vars[1].grad().data.iter().all(|&b| b == 0));
    assert!(m.vars[3].grad().data.iter().all(|&b| b == 0));
    // non-parameter gradients are left alone
    assert!(m.vars[2].grad().data.iter().all(|&b| b == 1.0f32.to_bits()));
}

#[test]
fn clear_program_grads_resets_activations_but_not_parameters() {
    let mut m = small_model();
    m.compile();
    let one = 1.0f32.to_bits();
    for v in m.vars.iter_mut() {
        if v.has_grad() {
            v.grad_mut().fill(one);
        }
    }
    let prog = ml_lib_rust::ModelProgram { vars: m.cost_prog.vars.clone() };
    m.clear_program_grads(&prog);
    // var 2 (matmul) requires a gradient and is no parameter: zeroed
    assert_eq!(m.vars[2].grad().data, vec![0u32; 2]);
    // var 1 (weight) is a parameter: kept
    assert_eq!(m.vars[1].grad().data, vec![one; 6]);
    // var 0 (input) has no gradient at all
    assert!(!m.vars[0].has_grad());
}

#[test]
fn op_params_default_is_no_params() {
    assert_eq!(OpParams::default(), OpParams::NoParams);
}
