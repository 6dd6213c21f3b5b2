use onnx_vulkan_core::rewrite::fold::resolve_reshape;
use onnx_vulkan_core::rewrite::{
    fold_const_get_slice, fold_constants, fold_prev_embed_const_mask, fuse_gqa_qk_deint,
    fuse_layernorm, int64_init, prune_dead_initializers, prune_dead_nodes,
};
use onnx_vulkan_core::{AttrValue, ElementType, GraphIr, HostTensor, InitializerIr, NameMap, NodeIr};

fn table(entries: Vec<(&str, InitializerIr)>) -> NameMap<InitializerIr> {
    let mut m = NameMap::new();
    for (name, value) in entries {
        m.insert(name.to_string(), value);
    }
    m
}

fn set(node: &mut NodeIr, name: &str, value: AttrValue) {
    node.attrs.insert(name.to_string(), value);
}

fn node(op: &str, inputs: &[&str], output: &str) -> NodeIr {
    NodeIr {
        domain: String::new(),
        op: op.into(),
        since_version: 11,
        name: output.into(),
        inputs: inputs.iter().map(|s| s.to_string()).collect(),
        outputs: vec![output.into()],
        attrs: NameMap::new(),
    }
}

fn reduce_mean(input: &str, output: &str, axes: i64) -> NodeIr {
    let mut n = node("ReduceMean", &[input], output);
    set(&mut n, "axes", AttrValue::Ints(vec![axes]));
    n
}

fn scalar(value: f32) -> InitializerIr {
    InitializerIr {
        dtype: ElementType::Float32 as i32,
        shape: vec![],
        data: value.to_le_bytes().to_vec(),
    }
}

fn vector(len: usize) -> InitializerIr {
    InitializerIr {
        dtype: ElementType::Float32 as i32,
        shape: vec![len as i64],
        data: vec![0; len * 4],
    }
}

/// The written-out pattern along one axis.
fn decomposed(axes: i64) -> GraphIr {
    GraphIr {
        nodes: vec![
            reduce_mean("x", "m", axes),
            node("Sub", &["x", "m"], "d"),
            node("Pow", &["d", "two"], "p"),
            reduce_mean("p", "v", axes),
            node("Add", &["v", "eps"], "ve"),
            node("Sqrt", &["ve"], "s"),
            node("Div", &["d", "s"], "n"),
            node("Mul", &["n", "scale"], "ns"),
            node("Add", &["ns", "bias"], "y"),
        ],
        initializers: table(vec![
            ("two", scalar(2.0)),
            ("eps", scalar(1e-5)),
            ("scale", vector(768)),
            ("bias", vector(768)),
        ]),
        inputs: vec!["x".into()],
        outputs: vec!["y".into()],
    }
}

#[test]
fn fuses_the_decomposed_pattern() {
    let mut ir = decomposed(-1);
    assert_eq!(fuse_layernorm(&mut ir), 1);
    assert_eq!(ir.nodes.len(), 1);
    let fused = &ir.nodes[0];
    assert_eq!(fused.op, "LayerNormalization");
    assert_eq!(fused.inputs, ["x", "scale", "bias"]);
    assert_eq!(fused.outputs, ["y"]);
    assert_eq!(fused.attrs.get("axis"), Some(&AttrValue::Int(-1)));
    assert_eq!(fused.attrs.get("epsilon"), Some(&AttrValue::Float(1e-5f32.to_bits())));
}

#[test]
fn the_fused_node_is_a_new_operator() {
    let mut ir = decomposed(-1);
    fuse_layernorm(&mut ir);
    assert_eq!(ir.nodes[0].domain, "");
    assert_eq!(ir.nodes[0].since_version, 17);
    assert_eq!(ir.nodes[0].name, "y_fused_LayerNormalization");
    assert_eq!(ir.nodes[0].attrs.len(), 2);
}

fn int64_vec(vals: &[i64]) -> InitializerIr {
    InitializerIr {
        dtype: ElementType::Int64 as i32,
        shape: vec![vals.len() as i64],
        data: vals.iter().flat_map(|v| v.to_le_bytes()).collect(),
    }
}

/// A `Constant` node with an int64 value.
fn constant(name: &str, vals: &[i64]) -> NodeIr {
    let mut n = node("Constant", &[], name);
    set(&mut n, "value", AttrValue::Tensor(int64_vec(vals)));
    n
}

/// An attention node over `q`, `k` and `v`.
fn gqa(q: &str, k: &str, v: &str) -> NodeIr {
    let mut n = NodeIr {
        domain: "com.microsoft".into(),
        op: "GroupQueryAttention".into(),
        since_version: 21,
        name: "gqa".into(),
        inputs: [q, k, v, "pk", "pv", "seqlens", "total", "cos", "sin"]
            .iter()
            .map(|s| s.to_string())
            .collect(),
        outputs: vec!["attn".into(), "pres_k".into(), "pres_v".into()],
        attrs: NameMap::new(),
    };
    set(&mut n, "num_heads", AttrValue::Int(32));
    set(&mut n, "kv_num_heads", AttrValue::Int(8));
    set(&mut n, "scale", AttrValue::Float((1.0 / 32.0_f32.sqrt()).to_bits()));
    n
}

/// Reshape, transpose, two flat reshapes, attention.
fn rearr_graph() -> GraphIr {
    let mut perm_node = node("Transpose", &["in5"], "tout");
    set(&mut perm_node, "perm", AttrValue::Ints(vec![0, 1, 2, 4, 3]));
    GraphIr {
        nodes: vec![
            constant("shape5d", &[0, 1, 32, 16, 2]),
            constant("shape4d", &[0, 1, 32, 32]),
            constant("shape1024", &[0, 1, 1024]),
            node("Reshape", &["ln_out", "shape5d"], "in5"),
            perm_node,
            node("Reshape", &["tout", "shape4d"], "q3d"),
            node("Reshape", &["q3d", "shape1024"], "qflat"),
            gqa("qflat", "k3d", "v3d"),
        ],
        initializers: NameMap::new(),
        inputs: vec![
            "ln_out".into(),
            "k3d".into(),
            "v3d".into(),
            "pk".into(),
            "pv".into(),
            "seqlens".into(),
            "total".into(),
            "cos".into(),
            "sin".into(),
        ],
        outputs: vec!["attn".into(), "pres_k".into(), "pres_v".into()],
    }
}

#[test]
fn fuses_the_q_rearr_into_gqa() {
    let mut ir = rearr_graph();
    assert_eq!(fuse_gqa_qk_deint(&mut ir), 1, "the rearr Transpose must be removed");
    // The trailing Reshape now views the buffer in front of the transpose.
    let reshaped = ir.nodes.iter().find(|n| n.name == "q3d").unwrap();
    assert_eq!(reshaped.inputs, ["in5", "shape4d"]);
    // The attention is told to rearrange.
    let g = ir.nodes.iter().find(|n| n.op == "GroupQueryAttention").unwrap();
    assert_eq!(g.attrs.get("qk_reorder"), Some(&AttrValue::Int(1)));
    assert!(!ir.nodes.iter().any(|n| n.op == "Transpose"));
    assert_eq!(ir.nodes.len(), 7);
}

#[test]
fn leaves_a_non_rearr_perm_alone() {
    let mut ir = rearr_graph();
    let t = ir.nodes.iter_mut().find(|n| n.op == "Transpose").unwrap();
    set(t, "perm", AttrValue::Ints(vec![0, 1, 2, 3, 4]));
    assert_eq!(fuse_gqa_qk_deint(&mut ir), 0);
    assert!(ir.nodes.iter().any(|n| n.op == "Transpose"));
}

#[test]
fn leaves_a_double_consume_rearr_alone() {
    let mut ir = rearr_graph();
    // A second reader of the transposed value keeps it alive.
    ir.nodes.push(node("Identity", &["tout"], "tout_copy"));
    ir.outputs.push("tout_copy".into());
    assert_eq!(fuse_gqa_qk_deint(&mut ir), 0);
    assert!(ir.nodes.iter().any(|n| n.op == "Transpose"));
}

#[test]
fn leaves_heads_of_another_size_alone() {
    let mut ir = rearr_graph();
    ir.nodes[1] = constant("shape4d", &[0, 1, 64, 16]);
    assert_eq!(fuse_gqa_qk_deint(&mut ir), 0);
}

#[test]
fn leaves_the_value_leg_alone() {
    let mut ir = rearr_graph();
    ir.nodes[7] = gqa("k3d", "v3d", "qflat");
    assert_eq!(fuse_gqa_qk_deint(&mut ir), 0);
}

#[test]
fn keeps_subgraph_captured_values_alive() {
    let branch = || {
        // The subgraph reads `w` as a declared input and as a bare node input.
        let sub = GraphIr {
            nodes: vec![
                node("Identity", &["w"], "w_use_declared"),
                node("Identity", &["w"], "w_use_bare"),
            ],
            initializers: NameMap::new(),
            inputs: vec!["w".into()],
            outputs: vec!["w_use_declared".into(), "w_use_bare".into()],
        };
        let mut n = node("If", &["cond"], "branch_out");
        set(&mut n, "then_branch", AttrValue::Graph(Box::new(sub)));
        n
    };

    let mut ir = GraphIr {
        nodes: vec![branch()],
        initializers: table(vec![(
            "w",
            InitializerIr {
                dtype: ElementType::Float32 as i32,
                shape: vec![4],
                data: vec![0u8; 16],
            },
        )]),
        inputs: vec!["cond".into()],
        outputs: vec!["branch_out".into()],
    };
    let released = prune_dead_initializers(&mut ir);
    assert_eq!(released, 0, "subgraph-read initializer must not be pruned");
    assert!(ir.initializers.contains_key("w"));
    // What produces a value that the subgraph reads must survive too.
    let mut ir2 = GraphIr {
        nodes: vec![node("Identity", &["x"], "w"), branch()],
        initializers: NameMap::new(),
        inputs: vec!["x".into(), "cond".into()],
        outputs: vec!["branch_out".into()],
    };
    let dropped = prune_dead_nodes(&mut ir2);
    assert!(
        ir2.nodes.iter().any(|n| n.name == "w"),
        "subgraph-read producer must not be pruned (dropped {dropped})"
    );
}

#[test]
fn values_defined_within_a_subgraph_are_not_captured() {
    let inner = GraphIr {
        nodes: vec![node("Identity", &["deep"], "deep_use")],
        initializers: NameMap::new(),
        inputs: vec![],
        outputs: vec!["deep_use".into()],
    };
    let mut nested = node("If", &["flag"], "nested_out");
    set(&mut nested, "else_branch", AttrValue::Graph(Box::new(inner)));
    let sub = GraphIr {
        nodes: vec![node("Neg", &["x"], "own"), node("Abs", &["own"], "use"), nested],
        initializers: NameMap::new(),
        inputs: vec![],
        outputs: vec!["use".into()],
    };
    let mut branch = node("If", &["cond"], "y");
    set(&mut branch, "then_branch", AttrValue::Graph(Box::new(sub)));
    let mut ir = GraphIr {
        nodes: vec![branch],
        initializers: table(vec![("own", vector(2)), ("deep", vector(3)), ("flag", vector(4))]),
        inputs: vec!["cond".into(), "x".into()],
        outputs: vec!["y".into()],
    };
    assert_eq!(prune_dead_initializers(&mut ir), 8);
    assert!(!ir.initializers.contains_key("own"));
    assert!(ir.initializers.contains_key("deep"));
    assert!(ir.initializers.contains_key("flag"));
}

#[test]
fn leaves_a_channel_axis_normalization_alone() {
    let mut ir = decomposed(1);
    assert_eq!(fuse_layernorm(&mut ir), 0);
    assert_eq!(ir.nodes.len(), 9);
}

#[test]
fn fuses_without_the_bias_add() {
    let mut ir = decomposed(-1);
    ir.nodes.pop();
    ir.outputs = vec!["ns".into()];
    assert_eq!(fuse_layernorm(&mut ir), 1);
    assert_eq!(ir.nodes[0].inputs, ["x", "scale"]);
    assert_eq!(ir.nodes[0].outputs, ["ns"]);
}

#[test]
fn refuses_when_an_intermediate_escapes() {
    let mut ir = decomposed(-1);
    ir.nodes.push(node("Neg", &["s"], "leak"));
    ir.outputs.push("leak".into());
    assert_eq!(fuse_layernorm(&mut ir), 0);

    let mut ir = decomposed(-1);
    ir.outputs.push("v".into());
    assert_eq!(fuse_layernorm(&mut ir), 0);
}

#[test]
fn refuses_a_scalar_scale() {
    let mut ir = decomposed(-1);
    ir.initializers.insert("scale".into(), vector(1));
    assert_eq!(fuse_layernorm(&mut ir), 0);
}

#[test]
fn refuses_an_exponent_that_is_not_two() {
    let mut ir = decomposed(-1);
    ir.initializers.insert("two".into(), scalar(3.0));
    assert_eq!(fuse_layernorm(&mut ir), 0);
}

#[test]
fn a_bias_of_another_length_stays_outside() {
    let mut ir = decomposed(-1);
    ir.initializers.insert("bias".into(), vector(4));
    assert_eq!(fuse_layernorm(&mut ir), 1);
    assert_eq!(ir.nodes.len(), 2);
    assert_eq!(ir.nodes[0].outputs, ["ns"]);
    assert_eq!(ir.nodes[1].inputs, ["ns", "bias"]);
}

#[test]
fn fuses_consecutive_patterns_and_keeps_topological_order() {
    let mut ir = decomposed(-1);
    let second: Vec<NodeIr> = decomposed(-1)
        .nodes
        .into_iter()
        .map(|mut n| {
            let rename = |s: &String| match s.as_str() {
                "x" => "y".to_string(),
                "scale" | "bias" | "two" | "eps" => s.clone(),
                other => format!("{other}2"),
            };
            n.inputs = n.inputs.iter().map(rename).collect();
            n.outputs = n.outputs.iter().map(rename).collect();
            n
        })
        .collect();
    ir.nodes.extend(second);
    ir.outputs = vec!["y2".into()];
    assert_eq!(fuse_layernorm(&mut ir), 2);
    assert_eq!(ir.nodes.len(), 2);
    assert_eq!(ir.nodes[0].outputs, ["y"]);
    assert_eq!(ir.nodes[1].inputs[0], "y");
}

fn int8(shape: Vec<i64>, values: &[i8]) -> InitializerIr {
    InitializerIr {
        dtype: ElementType::Int8 as i32,
        shape,
        data: values.iter().map(|&v| v as u8).collect(),
    }
}

#[test]
fn folds_a_constant_weight_dequantization() {
    let mut ir = GraphIr {
        nodes: vec![
            node("DequantizeLinear", &["w_q", "w_scale", "w_zp"], "w"),
            node("Conv", &["x", "w"], "y"),
        ],
        initializers: table(vec![
            ("w_q", int8(vec![2, 2], &[-2, -1, 1, 2])),
            ("w_scale", scalar(0.5)),
            ("w_zp", int8(vec![], &[-1])),
        ]),
        inputs: vec!["x".into()],
        outputs: vec!["y".into()],
    };
    assert_eq!(fold_constants(&mut ir), 1);
    assert_eq!(ir.nodes.len(), 1);
    assert_eq!(ir.nodes[0].op, "Conv");

    let w = ir.initializers.get("w").unwrap();
    assert_eq!(w.dtype, ElementType::Float32 as i32);
    assert_eq!(w.shape, [2, 2]);
    let values: Vec<f32> = HostTensor::new(w.dtype, w.shape.clone(), w.data.clone())
        .to_f32()
        .unwrap()
        .into_iter()
        .map(f32::from_bits)
        .collect();
    assert_eq!(values, [-0.5, 0.0, 1.0, 1.5]);

    // the int8 source and its quantization parameters are now unread
    assert_eq!(prune_dead_initializers(&mut ir), 4 + 4 + 1);
    assert!(!ir.initializers.contains_key("w_q"));
    assert!(ir.initializers.contains_key("w"));
}

#[test]
fn folds_transitively_in_one_pass() {
    let mut ir = GraphIr {
        nodes: vec![
            node("DequantizeLinear", &["w_q", "w_scale"], "w"),
            node("Reshape", &["w", "shape"], "w2"),
            node("Conv", &["x", "w2"], "y"),
        ],
        initializers: table(vec![
            ("w_q", int8(vec![2, 2], &[1, 2, 3, 4])),
            ("w_scale", scalar(1.0)),
            (
                "shape",
                InitializerIr {
                    dtype: ElementType::Int64 as i32,
                    shape: vec![3],
                    data: [1i64, 4, -1].iter().flat_map(|v| v.to_le_bytes()).collect(),
                },
            ),
        ]),
        inputs: vec!["x".into()],
        outputs: vec!["y".into()],
    };
    assert_eq!(fold_constants(&mut ir), 2);
    assert_eq!(ir.nodes.len(), 1);
    assert_eq!(ir.initializers.get("w2").unwrap().shape, [1, 4, 1]);
}

#[test]
fn folds_casts_and_joins() {
    let mut cast = node("Cast", &["a"], "b");
    set(&mut cast, "to", AttrValue::Int(ElementType::Int32 as i64));
    let mut join = node("Concat", &["a", "a"], "c");
    set(&mut join, "axis", AttrValue::Int(0));
    let mut ir = GraphIr {
        nodes: vec![cast, join, node("Use", &["b", "c"], "y")],
        initializers: table(vec![("a", int64_vec(&[1, -2]))]),
        inputs: vec![],
        outputs: vec!["y".into()],
    };
    assert_eq!(fold_constants(&mut ir), 2);
    assert_eq!(ir.initializers.get("b").unwrap().data, [1, 0, 0, 0, 254, 255, 255, 255]);
    assert_eq!(ir.initializers.get("c"), Some(&int64_vec(&[1, -2, 1, -2])));
}

#[test]
fn refuses_a_per_axis_dequantization() {
    let mut ir = GraphIr {
        nodes: vec![node("DequantizeLinear", &["w_q", "w_scale"], "w")],
        initializers: table(vec![
            ("w_q", int8(vec![2, 2], &[1, 2, 3, 4])),
            ("w_scale", vector(2)),
        ]),
        inputs: vec![],
        outputs: vec!["w".into()],
    };
    assert_eq!(fold_constants(&mut ir), 0);
}

#[test]
fn keeps_a_fold_that_produces_a_graph_output() {
    let mut ir = GraphIr {
        nodes: vec![node("DequantizeLinear", &["w_q", "w_scale"], "w")],
        initializers: table(vec![
            ("w_q", int8(vec![2], &[1, 2])),
            ("w_scale", scalar(1.0)),
        ]),
        inputs: vec![],
        outputs: vec!["w".into()],
    };
    assert_eq!(fold_constants(&mut ir), 0);
}

#[test]
fn reshapes_resolve_or_are_refused() {
    assert_eq!(resolve_reshape(&[2, 3, 4], &[0, -1]), Some(vec![2, 12]));
    assert_eq!(resolve_reshape(&[2, 3], &[3, 2]), Some(vec![3, 2]));
    assert_eq!(resolve_reshape(&[2, 3], &[4, -1]), None);
    assert_eq!(resolve_reshape(&[2, 3], &[5]), None);
    assert_eq!(resolve_reshape(&[2, 3], &[-1, -1]), None);
    assert_eq!(resolve_reshape(&[0, 3], &[-1, 0]), Some(vec![0, 3]));
    assert_eq!(resolve_reshape(&[2, 3], &[-2, -3]), None);
}

#[test]
fn prunes_the_constants_the_rewrite_orphans() {
    let mut ir = decomposed(-1);
    ir.initializers.remove("two");
    ir.initializers.remove("eps");
    let mut two = node("Constant", &[], "two");
    set(&mut two, "value", AttrValue::Tensor(scalar(2.0)));
    let mut eps = node("Constant", &[], "eps");
    set(&mut eps, "value", AttrValue::Tensor(scalar(1e-5)));
    ir.nodes.insert(0, two);
    ir.nodes.insert(1, eps);

    assert_eq!(fuse_layernorm(&mut ir), 1);
    assert_eq!(ir.nodes.len(), 3, "the two Constant nodes are now orphans");
    assert_eq!(prune_dead_nodes(&mut ir), 2);
    assert_eq!(ir.nodes.len(), 1);
    assert_eq!(ir.nodes[0].op, "LayerNormalization");
}

#[test]
fn pruning_a_node_orphans_its_producers() {
    let mut ir = GraphIr {
        nodes: vec![
            node("Neg", &["x"], "a"),
            node("Neg", &["a"], "b"),
            node("Neg", &["b"], "c"),
            node("Abs", &["x"], "y"),
        ],
        initializers: NameMap::new(),
        inputs: vec!["x".into()],
        outputs: vec!["y".into()],
    };
    assert_eq!(prune_dead_nodes(&mut ir), 3);
    assert_eq!(ir.nodes, vec![node("Abs", &["x"], "y")]);
}

fn f32_init(shape: &[i64]) -> InitializerIr {
    InitializerIr {
        dtype: ElementType::Float32 as i32,
        shape: shape.to_vec(),
        data: vec![0u8; (shape.iter().product::<i64>() as usize) * 4],
    }
}

fn int64_scalar(value: i64) -> InitializerIr {
    InitializerIr {
        dtype: ElementType::Int64 as i32,
        shape: vec![],
        data: value.to_le_bytes().to_vec(),
    }
}

/// A selection of row `step`, with the expanded shape joined from three parts.
fn get_slice_chain(_step: i64) -> Vec<NodeIr> {
    vec![
        node("Unsqueeze", &["step", "[0]"], "u1"),
        node("Unsqueeze", &["u1", "[0]"], "u2"),
        node("Unsqueeze", &["u2", "[0]"], "u3"),
        node("Concat", &["b", "[1]", "[1024]"], "es"),
        node("Expand", &["u3", "es"], "ex"),
        {
            let mut g = node("GatherElements", &["tbl", "ex"], "sel");
            set(&mut g, "axis", AttrValue::Int(1));
            g
        },
        node("Squeeze", &["sel", "[1]"], "sq"),
    ]
}

#[test]
fn folds_a_const_get_slice_into_a_device_slice() {
    let chain = get_slice_chain(3);
    let mut ir = GraphIr {
        nodes: chain,
        initializers: table(vec![
            ("step", int64_scalar(3)),
            ("[0]", int64_init(&[0])),
            ("b", int64_init(&[1])),
            ("[1]", int64_init(&[1])),
            ("[1024]", int64_init(&[1024])),
        ]),
        inputs: vec!["tbl".into()],
        outputs: vec!["sq".into()],
    };
    assert_eq!(fold_const_get_slice(&mut ir), 1, "the chain must match");
    // A slice of `tbl` stands in the place of the selection.
    let slice = ir.nodes.iter().find(|n| n.op == "Slice").unwrap();
    assert_eq!(slice.inputs[0], "tbl");
    assert_eq!(slice.outputs[0], "sel", "same output name downstream");
    let starts = ir.initializers.get(&format!("{}__sl_starts", slice.outputs[0])).unwrap();
    let ends = ir.initializers.get(&format!("{}__sl_ends", slice.outputs[0])).unwrap();
    let axes = ir.initializers.get(&format!("{}__sl_axes", slice.outputs[0])).unwrap();
    assert_eq!(starts.data, 3i64.to_le_bytes());
    assert_eq!(ends.data, 4i64.to_le_bytes());
    assert_eq!(axes.data, 1i64.to_le_bytes());
    // What spread the index is gone; the Squeeze survives.
    assert!(!ir.nodes.iter().any(|n| n.op == "Expand"));
    assert!(ir.nodes.iter().any(|n| n.op == "Squeeze"));
    assert!(!ir.nodes.iter().any(|n| n.op == "GatherElements"));
}

#[test]
fn refuses_a_nonconst_get_slice_index() {
    let chain = get_slice_chain(3);
    let mut ir = GraphIr {
        nodes: chain,
        initializers: table(vec![
            // `step` is not constant here.
            ("[0]", int64_init(&[0])),
            ("b", int64_init(&[1])),
            ("[1]", int64_init(&[1])),
            ("[1024]", int64_init(&[1024])),
        ]),
        inputs: vec!["tbl".into(), "step".into()],
        outputs: vec!["sq".into()],
    };
    assert_eq!(
        fold_const_get_slice(&mut ir),
        0,
        "a runtime index must never become a constant Slice"
    );
    assert!(ir.nodes.iter().any(|n| n.op == "GatherElements"));
}

#[test]
fn refuses_a_multirow_get_slice_expand() {
    // The middle dimension is 2: two rows are not one slice.
    let mut chain = get_slice_chain(3);
    for n in chain.iter_mut() {
        if n.name == "es" {
            n.inputs[1] = "[2]".into();
        }
    }
    let mut ir = GraphIr {
        nodes: chain,
        initializers: table(vec![
            ("step", int64_scalar(3)),
            ("[0]", int64_init(&[0])),
            ("b", int64_init(&[1])),
            ("[1]", int64_init(&[1])),
            ("[2]", int64_init(&[2])),
        ]),
        inputs: vec!["tbl".into()],
        outputs: vec!["sq".into()],
    };
    assert_eq!(fold_const_get_slice(&mut ir), 0);
    assert!(ir.nodes.iter().any(|n| n.op == "GatherElements"));
}

/// A masked value: zero where `step` equals `z`.
fn prev_embed_chain(_step: i64) -> Vec<NodeIr> {
    vec![
        node("Equal", &["step", "z"], "eq"),
        node("Cast", &["eq"], "f"),
        node("Neg", &["f"], "neg"),
        node("Add", &["one", "neg"], "mask"),
        node("Unsqueeze", &["mask", "[0]"], "masku"),
        node("Mul", &["lookup", "masku"], "masked"),
    ]
}

fn prev_embed_graph(step: i64) -> GraphIr {
    let mut nodes = prev_embed_chain(step);
    // What reads the masked value.
    nodes.push(node("Add", &["sel", "masked"], "out"));
    for n in nodes.iter_mut() {
        if n.name == "f" {
            set(n, "to", AttrValue::Int(ElementType::Float32 as i64));
        }
    }
    let mut table_gather = node("Gather", &["table", "prev"], "lookup");
    set(&mut table_gather, "axis", AttrValue::Int(0));
    nodes.insert(0, table_gather);
    GraphIr {
        nodes,
        initializers: table(vec![
            ("step", int64_scalar(step)),
            ("z", int64_scalar(0)),
            ("one", scalar(1.0)),
            ("[0]", int64_init(&[0])),
            ("table", f32_init(&[8, 1024])),
        ]),
        inputs: vec!["prev".into(), "sel".into()],
        outputs: vec!["out".into()],
    }
}

#[test]
fn folds_a_step_gt0_prev_embed_mask_to_the_lookup() {
    let mut ir = prev_embed_graph(5);
    assert_eq!(fold_prev_embed_const_mask(&mut ir), 1);
    // `masked` is gone; its consumer reads `lookup` directly.
    assert!(!ir.nodes.iter().any(|n| n.name == "masked"));
    let consumer = ir.nodes.iter().find(|n| n.name == "out").unwrap();
    assert_eq!(consumer.inputs, ["sel", "lookup"]);
    // The whole chain is removed.
    assert!(!ir.nodes.iter().any(|n| n.name == "eq"));
    assert!(!ir.nodes.iter().any(|n| n.name == "f"));
    assert!(!ir.nodes.iter().any(|n| n.name == "neg"));
    assert!(!ir.nodes.iter().any(|n| n.name == "mask"));
}

#[test]
fn folds_a_step0_prev_embed_mask_to_zeros() {
    let mut ir = prev_embed_graph(0);
    assert_eq!(fold_prev_embed_const_mask(&mut ir), 1);
    let consumer = ir.nodes.iter().find(|n| n.name == "out").unwrap();
    assert_eq!(consumer.inputs, ["sel", "masked__zeros"]);
    let zeros = ir.initializers.get("masked__zeros").unwrap();
    assert_eq!(zeros.shape, [1, 1024]);
    assert_eq!(zeros.data.len(), 4096);
    assert!(zeros.data.iter().all(|&b| b == 0));
}

#[test]
fn refuses_a_prev_embed_mask_with_a_runtime_step() {
    let mut ir = prev_embed_graph(0);
    // `step` becomes a runtime input: the fold must refuse.
    ir.initializers.remove("step");
    ir.inputs.push("step".into());
    assert_eq!(
        fold_prev_embed_const_mask(&mut ir),
        0,
        "a runtime step is a runtime mask"
    );
    assert!(ir.nodes.iter().any(|n| n.name == "masked"));
}

#[test]
fn a_comparison_that_others_read_stays() {
    let mut ir = prev_embed_graph(5);
    ir.nodes.push(node("Not", &["eq"], "other"));
    ir.outputs.push("other".into());
    assert_eq!(fold_prev_embed_const_mask(&mut ir), 1);
    assert!(ir.nodes.iter().any(|n| n.name == "eq"));
    assert!(!ir.nodes.iter().any(|n| n.name == "f"));
}

#[test]
fn a_stack_of_tables_gives_the_width_of_one() {
    let mut ir = prev_embed_graph(0);
    ir.initializers.insert("stack".into(), f32_init(&[2, 8, 16]));
    ir.initializers.remove("table");
    ir.nodes.insert(0, node("Gather", &["stack", "step"], "table"));
    assert_eq!(fold_prev_embed_const_mask(&mut ir), 1);
    assert_eq!(ir.initializers.get("masked__zeros").unwrap().shape, [1, 16]);
}

#[test]
fn a_mask_goes_wherever_it_is_read() {
    let mut ir = prev_embed_graph(5);
    ir.nodes.push(node("Add", &["masked", "masked"], "twice"));
    ir.outputs.push("twice".into());
    assert_eq!(fold_prev_embed_const_mask(&mut ir), 1);
    let twice = ir.nodes.iter().find(|n| n.name == "twice").unwrap();
    assert_eq!(twice.inputs, ["lookup", "lookup"]);
    assert!(!ir.nodes.iter().any(|n| n.inputs.iter().any(|i| i == "masked")));
}

#[test]
fn masks_behind_one_another_go_together() {
    // The value that the second mask is put on is itself masked.
    let mut ir = prev_embed_graph(5);
    let out = ir.nodes.pop().unwrap();
    for n in prev_embed_chain(5) {
        let rename = |s: &String| match s.as_str() {
            "step" | "z" | "one" | "[0]" => s.clone(),
            "lookup" => "masked".to_string(),
            other => format!("{other}2"),
        };
        let mut m = node(&n.op, &[], &rename(&n.outputs[0]));
        m.inputs = n.inputs.iter().map(rename).collect();
        if n.op == "Cast" {
            set(&mut m, "to", AttrValue::Int(ElementType::Float32 as i64));
        }
        ir.nodes.push(m);
    }
    let mut last = node("Add", &["sel", "masked2"], "out");
    last.name = out.name;
    ir.nodes.push(last);
    assert_eq!(fold_prev_embed_const_mask(&mut ir), 2);
    let names: Vec<&str> = ir.nodes.iter().map(|n| n.name.as_str()).collect();
    assert_eq!(names, ["lookup", "out"]);
    assert_eq!(ir.nodes[1].inputs, ["sel", "lookup"]);
}

#[test]
fn a_rearrangement_stays_unless_a_reshape_feeds_it() {
    let mut ir = rearr_graph();
    ir.nodes.retain(|n| n.name != "in5");
    ir.inputs.push("in5".into());
    assert_eq!(fuse_gqa_qk_deint(&mut ir), 0);
    let kept = ir.nodes.iter().find(|n| n.name == "q3d").unwrap();
    assert_eq!(kept.inputs[0], "tout");
}

#[test]
fn the_last_row_is_sliced_to_the_end() {
    let mut ir = GraphIr {
        nodes: get_slice_chain(-1),
        initializers: table(vec![
            ("step", int64_scalar(-1)),
            ("[0]", int64_init(&[0])),
            ("b", int64_init(&[1])),
            ("[1]", int64_init(&[1])),
            ("[1024]", int64_init(&[1024])),
        ]),
        inputs: vec!["tbl".into()],
        outputs: vec!["sq".into()],
    };
    assert_eq!(fold_const_get_slice(&mut ir), 1);
    assert_eq!(ir.initializers.get("sel__sl_starts").unwrap().data, (-1i64).to_le_bytes());
    assert_eq!(ir.initializers.get("sel__sl_ends").unwrap().data, i64::MAX.to_le_bytes());
}

#[test]
fn what_a_subgraph_reads_is_not_fused_away() {
    let mut ir = decomposed(-1);
    let inner = ir.nodes[1].outputs[0].clone();
    let sub = GraphIr {
        nodes: vec![node("Identity", &[&inner], "inside")],
        initializers: NameMap::new(),
        inputs: vec![],
        outputs: vec!["inside".into()],
    };
    let mut n = node("If", &["cond"], "branch_out");
    set(&mut n, "then_branch", AttrValue::Graph(Box::new(sub)));
    ir.nodes.push(n);
    assert_eq!(fuse_layernorm(&mut ir), 0);
}

#[test]
fn a_second_fold_finds_nothing() {
    let join = |a: &str, b: &str, out: &str| {
        let mut n = node("Concat", &[a, b], out);
        set(&mut n, "axis", AttrValue::Int(0));
        n
    };
    let mut ir = GraphIr {
        nodes: vec![
            join("a", "b", "c"),
            join("c", "a", "d"),
            join("d", "x", "y"),
        ],
        initializers: table(vec![("a", int64_vec(&[1])), ("b", int64_vec(&[2]))]),
        inputs: vec!["x".into()],
        outputs: vec!["y".into()],
    };
    assert_eq!(fold_constants(&mut ir), 2);
    assert_eq!(ir.nodes, [join("d", "x", "y")]);
    assert_eq!(ir.initializers.get("d"), Some(&int64_vec(&[1, 2, 1])));
    assert_eq!(fold_constants(&mut ir), 0);
    assert_eq!(ir.nodes, [join("d", "x", "y")]);
    assert_eq!(ir.initializers.get("d"), Some(&int64_vec(&[1, 2, 1])));
    // a value that two nodes make
    let mut ir = GraphIr {
        nodes: vec![
            join("a", "b", "c"),
            join("b", "b", "c"),
            join("c", "a", "d"),
            join("d", "x", "y"),
        ],
        initializers: table(vec![("a", int64_vec(&[1])), ("b", int64_vec(&[2]))]),
        inputs: vec!["x".into()],
        outputs: vec!["y".into()],
    };
    assert_eq!(fold_constants(&mut ir), 3);
    assert_eq!(ir.initializers.get("d"), Some(&int64_vec(&[2, 2, 1])));
    assert_eq!(fold_constants(&mut ir), 0);
    assert_eq!(ir.nodes, [join("d", "x", "y")]);
}

#[test]
fn a_cast_to_bytes_is_not_folded() {
    let mut cast = node("Cast", &["a"], "b");
    set(&mut cast, "to", AttrValue::Int(ElementType::Uint8 as i64));
    let mut ir = GraphIr {
        nodes: vec![cast, node("Use", &["b"], "y")],
        initializers: table(vec![("a", int64_vec(&[1, -2]))]),
        inputs: vec![],
        outputs: vec!["y".into()],
    };
    assert_eq!(fold_constants(&mut ir), 0);
    assert_eq!(ir.nodes.len(), 2);
}
