use onnx_vulkan_core::graph::UnknownElementType;
use onnx_vulkan_core::{
    constant_outputs, elem_size, fold_constant_params, storage_len, AttrValue, ElementType, GraphIr,
    HostTensor, InitializerIr, NameMap, NodeIr,
};

#[test]
fn element_type_codes_and_widths_match_onnx() {
    assert_eq!(ElementType::try_from(1), Ok(ElementType::Float32));
    assert_eq!(ElementType::try_from(10), Ok(ElementType::Float16));
    assert_eq!(ElementType::try_from(999), Err(UnknownElementType(999)));
    assert_eq!(elem_size(ElementType::Int8 as i32), 1);
    assert_eq!(elem_size(ElementType::Float32 as i32), 4);
    assert_eq!(elem_size(ElementType::Complex128 as i32), 16);
    assert_eq!(elem_size(ElementType::String as i32), 0);
    assert_eq!(ElementType::Int4.byte_width(), None);
    assert_eq!(storage_len(ElementType::Int4 as i32, 3), Some(2));
    assert_eq!(storage_len(ElementType::Uint2 as i32, 5), Some(2));
}

#[test]
fn codes_are_the_positions_of_the_variants() {
    for code in 0..27 {
        assert_eq!(ElementType::try_from(code).unwrap() as i32, code);
    }
    assert!(ElementType::try_from(27).is_err());
    assert!(ElementType::try_from(-1).is_err());
}

#[test]
fn unknown_element_types_name_their_code() {
    assert_eq!(UnknownElementType(999).message(), "unknown ONNX tensor element type 999");
    assert_eq!(UnknownElementType(-4).message(), "unknown ONNX tensor element type -4");
}

#[test]
fn storage_that_cannot_be_counted_is_refused() {
    assert_eq!(storage_len(ElementType::Int64 as i32, usize::MAX), None);
    assert_eq!(storage_len(ElementType::String as i32, 1), None);
    assert_eq!(storage_len(ElementType::Bool as i32, 0), Some(0));
}

fn node(op: &str, inputs: &[&str], output: &str) -> NodeIr {
    NodeIr {
        domain: String::new(),
        op: op.into(),
        since_version: 14,
        name: output.into(),
        inputs: inputs.iter().map(|s| s.to_string()).collect(),
        outputs: vec![output.into()],
        attrs: NameMap::new(),
    }
}

#[test]
fn graph_ir_is_owned_and_frontend_independent() {
    let initializer = InitializerIr {
        dtype: ElementType::Float32 as i32,
        shape: vec![2],
        data: vec![0; 8],
    };
    let mut initializers = NameMap::new();
    initializers.insert("bias".to_string(), initializer);
    let graph = GraphIr {
        nodes: vec![NodeIr {
            domain: String::new(),
            op: "Add".into(),
            since_version: 14,
            name: "add".into(),
            inputs: vec!["x".into(), "bias".into()],
            outputs: vec!["y".into()],
            attrs: NameMap::new(),
        }],
        initializers,
        inputs: vec!["x".into()],
        outputs: vec!["y".into()],
    };

    assert_eq!(graph.nodes[0].op, "Add");
    assert_eq!(graph.initializers.get("bias").unwrap().data.len(), 8);
}

fn int64(v: &[i64]) -> InitializerIr {
    let t = HostTensor::from_i64(vec![v.len() as i64], v);
    InitializerIr { dtype: t.dtype, shape: t.shape, data: t.data }
}

#[test]
fn the_last_constant_node_gives_the_value() {
    let mut a = node("Constant", &[], "c");
    a.attrs.insert("value".to_string(), AttrValue::Tensor(int64(&[1])));
    let mut b = node("Constant", &[], "c");
    b.attrs.insert("value".to_string(), AttrValue::Tensor(int64(&[2])));
    let mut foreign = node("Constant", &[], "d");
    foreign.domain = "com.example".to_string();
    foreign.attrs.insert("value".to_string(), AttrValue::Tensor(int64(&[3])));
    let values = constant_outputs(&[a, b, foreign]);
    assert_eq!(values.get("c"), Some(&int64(&[2])));
    assert_eq!(values.get("d"), None);
}

#[test]
fn constant_axes_become_an_attribute() {
    let mut initializers = NameMap::new();
    initializers.insert("axes".to_string(), int64(&[1, 2]));
    let mut sum = node("ReduceSum", &["x", "axes"], "y");
    fold_constant_params(&mut sum, &initializers);
    assert_eq!(sum.inputs, ["x"]);
    assert_eq!(sum.attrs.get("axes"), Some(&AttrValue::Ints(vec![1, 2])));
}

#[test]
fn other_nodes_keep_their_inputs() {
    let mut initializers = NameMap::new();
    initializers.insert("axes".to_string(), int64(&[1]));
    let mut min = node("ReduceMin", &["x", "axes"], "y");
    fold_constant_params(&mut min, &initializers);
    assert_eq!(min.inputs, ["x", "axes"]);

    let mut open = node("ReduceSum", &["x", "runtime"], "y");
    fold_constant_params(&mut open, &initializers);
    assert_eq!(open.inputs, ["x", "runtime"]);

    let mut set = node("ReduceSum", &["x", "axes"], "y");
    set.attrs.insert("axes".to_string(), AttrValue::Ints(vec![0]));
    fold_constant_params(&mut set, &initializers);
    assert_eq!(set.inputs, ["x", "axes"]);
}

#[test]
fn attributes_read_as_what_they_hold() {
    assert_eq!(AttrValue::Int(3).as_i64(), Some(3));
    assert_eq!(AttrValue::Float(1.5f32.to_bits()).as_f32().map(f32::from_bits), Some(1.5));
    assert_eq!(AttrValue::String("s".to_string()).as_str(), Some("s"));
    assert_eq!(AttrValue::Ints(vec![1, 2]).as_ints(), Some(&[1i64, 2][..]));
    assert_eq!(AttrValue::Int(3).as_ints(), None);
    assert_eq!(AttrValue::Int(3).as_tensor(), None);
    assert!(AttrValue::Int(3).as_graph().is_none());
}

#[test]
fn a_name_is_in_the_table_once() {
    let mut m: NameMap<i32> = NameMap::new();
    assert_eq!(m.insert("a".to_string(), 1), None);
    assert_eq!(m.insert("b".to_string(), 2), None);
    assert_eq!(m.insert("a".to_string(), 3), Some(1));
    assert_eq!(m.len(), 2);
    assert_eq!(m.get("a"), Some(&3));
    assert_eq!(m.remove("a"), Some(3));
    assert_eq!(m.remove("a"), None);
    assert!(!m.contains_key("a"));
    assert!(m.contains_key("b"));
}

#[test]
fn a_graph_starts_out_empty() {
    let ir = GraphIr::default();
    assert!(ir.nodes.is_empty() && ir.inputs.is_empty() && ir.outputs.is_empty());
    assert!(ir.initializers.get("x").is_none());
    assert_eq!(ir, GraphIr::default());
}
