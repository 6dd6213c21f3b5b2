use onnx_vulkan_core::executor::Switches;
use onnx_vulkan_core::host_ops::{binary, FLOAT, INT64};
use onnx_vulkan_core::interp::dispatch::Limits;
use onnx_vulkan_core::interp::liveness::dead_after;
use onnx_vulkan_core::interp::run::{branch, Action};
use onnx_vulkan_core::interp::work::Work;
use onnx_vulkan_core::plan::Storage;
use onnx_vulkan_core::report::{report, unsupported};
use onnx_vulkan_core::rewrite::{df_folds_enabled, gqa_qk_reorder_enabled};
use onnx_vulkan_core::{
    AttrValue, DeviceBuffer, DeviceTensor, Error, Executor, GraphIr, HostTensor, InitializerIr,
    NameMap, NodeIr, Outputs, Tensor,
};

fn node(op: &str, inputs: &[&str], outputs: &[&str]) -> NodeIr {
    NodeIr {
        domain: String::new(),
        op: op.into(),
        since_version: 13,
        name: format!("{op}_{}", outputs.first().unwrap_or(&"")),
        inputs: inputs.iter().map(|s| s.to_string()).collect(),
        outputs: outputs.iter().map(|s| s.to_string()).collect(),
        attrs: NameMap::new(),
    }
}

fn graph(nodes: Vec<NodeIr>, outputs: &[&str]) -> GraphIr {
    GraphIr {
        nodes,
        initializers: NameMap::new(),
        inputs: vec![],
        outputs: outputs.iter().map(|s| s.to_string()).collect(),
    }
}

fn host(v: i64) -> Tensor {
    Tensor::Host(HostTensor::from_i64(vec![1], &[v]))
}

fn constant(v: i64) -> InitializerIr {
    InitializerIr { dtype: INT64, shape: vec![1], data: v.to_le_bytes().to_vec() }
}

const OFF: Switches = Switches { df_folds: false, qk_reorder: false };

/// A device that hands out numbers for buffers and runs nothing.
struct Device {
    next: u64,
    back: Vec<u64>,
}

impl Device {
    fn fresh(&mut self) -> u64 {
        self.next += 1;
        self.next
    }

    fn run<'a>(
        &mut self,
        ir: &'a GraphIr,
        inputs: Vec<(&str, Tensor)>,
    ) -> Result<Outputs<'a>, Error> {
        let cache = onnx_vulkan_core::KernelCache::new();
        let given = inputs.into_iter().map(|(n, t)| (n.to_string(), t)).collect();
        let (mut run, mut env, back) = Executor::run(ir, given);
        self.back.extend(back);
        let limits = Limits { tile: 16, max_context: 100 };
        let fetched = NameMap::new();
        loop {
            match run.step(&mut env, &cache, &fetched, limits)? {
                Action::Done => return Ok(Outputs { env }),
                Action::Opened => {}
                Action::Closed(back) => self.back.extend(back),
                Action::Do(node, work) => {
                    let tensors = match work {
                        Work::Results(v) => v.into_iter().map(Tensor::Host).collect(),
                        Work::Arithmetic(op, a, b) => {
                            vec![Tensor::Host(binary(&a, &b, op, |_, x, _| x)?)]
                        }
                        Work::Place(i, _) => {
                            let name = node.inputs[i].clone();
                            let p = env.ensure_device(&name)?;
                            let h = self.fresh();
                            self.back.extend(env.placed(&name, &p, h));
                            continue;
                        }
                        Work::Plan(p) => p
                            .outputs
                            .into_iter()
                            .map(|o| {
                                assert!(matches!(o.storage, Storage::New(_)));
                                Tensor::Device(DeviceTensor {
                                    dtype: o.dtype,
                                    shape: o.shape,
                                    elem_count: o.elem_count,
                                    buf: DeviceBuffer::Owned(self.fresh()),
                                })
                            })
                            .collect(),
                        other => panic!("not expected: {other:?}"),
                    };
                    self.back.extend(run.produced(&mut env, tensors)?);
                }
            }
        }
    }
}

fn number(out: &Outputs, name: &str) -> i64 {
    let Some(Tensor::Host(t)) = out.value(name) else { panic!("{name} is on the host") };
    t.to_i64().unwrap()[0]
}

fn floats(n: usize) -> Tensor {
    Tensor::Host(HostTensor::from_f32(vec![n as i64], &vec![0; n]))
}

#[test]
fn values_live_until_their_last_reader() {
    let g = graph(
        vec![
            node("Add", &["x", "x"], &["a"]),
            node("Add", &["a", "x"], &["b"]),
            node("Add", &["b", ""], &["y"]),
        ],
        &["y"],
    );
    let dead: Vec<Vec<String>> = dead_after(&g);
    assert_eq!(dead[0], Vec::<String>::new());
    let mut second = dead[1].clone();
    second.sort();
    assert_eq!(second, vec!["a".to_string(), "x".to_string()]);
    assert_eq!(dead[2], vec!["b".to_string()]);
}

#[test]
fn outputs_and_constants_do_not_die() {
    let mut g = graph(vec![node("Add", &["w", "y"], &["z"])], &["y", "z"]);
    g.initializers.insert("w".to_string(), constant(1));
    assert_eq!(dead_after(&g), vec![Vec::<String>::new()]);
}

#[test]
fn a_graph_runs_node_by_node() {
    let mut g = graph(
        vec![node("Add", &["x", "w"], &["a"]), node("Mul", &["a", "x"], &["y"])],
        &["y"],
    );
    g.initializers.insert("w".to_string(), constant(10));
    let mut d = Device { next: 0, back: vec![] };
    let out = d.run(&g, vec![("x", host(3))]).unwrap();
    assert_eq!(number(&out, "y"), 39);
    assert!(out.value("a").is_none() && out.value("x").is_none());
    assert_eq!(out.shape_of("y").unwrap(), vec![1]);
    assert_eq!(out.dtype_of("y").unwrap(), INT64);
    assert!(!out.on_device("y"));
    assert_eq!(out.finish(), Vec::<u64>::new());
}

#[test]
fn buffers_go_back_as_soon_as_they_can() {
    let g = graph(
        vec![
            node("Relu", &["x"], &["a"]),
            node("Exp", &["a"], &["b"]),
            node("Neg", &["b"], &["y"]),
        ],
        &["y"],
    );
    let mut d = Device { next: 0, back: vec![] };
    let out = d.run(&g, vec![("x", floats(4))]).unwrap();
    assert_eq!(d.back, vec![1, 2, 3]);
    assert!(out.on_device("y"));
    assert_eq!(out.finish(), vec![4]);
}

#[test]
fn results_that_nobody_asked_for_go_back() {
    let g = graph(vec![node("DynamicQuantizeLinear", &["x"], &["q", "", "z"])], &["q", "z"]);
    let mut d = Device { next: 0, back: vec![] };
    let out = d.run(&g, vec![("x", floats(4))]).unwrap();
    assert_eq!(d.back, vec![3, 1]);
    assert!(out.value("").is_none());
    let mut left = out.finish();
    left.sort();
    assert_eq!(left, vec![2, 4]);
    let g = graph(vec![node("DynamicQuantizeLinear", &["x"], &["q"])], &["q"]);
    let mut d = Device { next: 0, back: vec![] };
    let out = d.run(&g, vec![("x", floats(4))]).unwrap();
    assert_eq!(d.back, vec![3, 4, 1]);
    assert_eq!(out.finish(), vec![2]);
}

fn choice(outer: &str) -> GraphIr {
    let mut yes = graph(vec![node("Add", &["x", "k"], &["t"])], &["t"]);
    yes.initializers.insert("k".to_string(), constant(100));
    let no = graph(vec![node("Mul", &["x", "x"], &["e"])], &["e"]);
    let mut n = node("If", &["c"], &["y"]);
    n.attrs.insert("then_branch".to_string(), AttrValue::Graph(Box::new(yes)));
    n.attrs.insert("else_branch".to_string(), AttrValue::Graph(Box::new(no)));
    graph(vec![n, node("Add", &["y", outer], &["z"])], &["z"])
}

#[test]
fn one_branch_runs() {
    let g = choice("x");
    let mut d = Device { next: 0, back: vec![] };
    let out = d.run(&g, vec![("c", host(1)), ("x", host(5))]).unwrap();
    assert_eq!(number(&out, "z"), 110);
    assert!(out.value("k").is_none() && out.value("t").is_none() && out.value("y").is_none());
    let out = d.run(&g, vec![("c", host(0)), ("x", host(5))]).unwrap();
    assert_eq!(number(&out, "z"), 30);
}

#[test]
fn constants_of_a_branch_do_not_shadow() {
    let g = choice("k");
    let mut d = Device { next: 0, back: vec![] };
    let shadowed = d.run(&g, vec![("c", host(1)), ("x", host(5)), ("k", host(7))]);
    assert!(matches!(shadowed, Err(Error::Backend(_))));
    let out = d.run(&g, vec![("c", host(0)), ("x", host(5)), ("k", host(7))]).unwrap();
    assert_eq!(number(&out, "z"), 32);
}

#[test]
fn branches_have_the_outputs_of_their_node() {
    let inner = graph(vec![], &["a", "b"]);
    let mut n = node("If", &["c"], &["y"]);
    n.attrs.insert("then_branch".to_string(), AttrValue::Graph(Box::new(inner)));
    assert!(branch(&n, true).is_none());
    assert!(branch(&n, false).is_none());
    let two = node("If", &["c"], &["y", "z"]);
    let n = NodeIr { outputs: two.outputs, ..n };
    assert_eq!(branch(&n, true).unwrap().outputs.len(), 2);
}

#[test]
fn a_branch_has_to_produce_its_outputs() {
    let inner = graph(vec![], &["a"]);
    let mut n = node("If", &["c"], &["y"]);
    n.attrs.insert("then_branch".to_string(), AttrValue::Graph(Box::new(inner)));
    let g = graph(vec![n], &["y"]);
    let mut d = Device { next: 0, back: vec![] };
    assert!(matches!(d.run(&g, vec![("c", host(1))]), Err(Error::Backend(_))));
}

#[test]
fn a_node_without_outputs_produces_nothing() {
    let g = graph(vec![node("Add", &["x", "x"], &[])], &[]);
    let mut d = Device { next: 0, back: vec![] };
    assert!(matches!(d.run(&g, vec![("x", host(1))]), Err(Error::Backend(_))));
}

#[test]
fn inputs_that_are_given_twice_are_replaced() {
    let g = graph(vec![], &["x"]);
    let on = |h: u64| {
        Tensor::Device(DeviceTensor {
            dtype: FLOAT,
            shape: vec![1],
            elem_count: 1,
            buf: DeviceBuffer::Owned(h),
        })
    };
    let (_, env, back) = Executor::run(&g, vec![("x".into(), on(1)), ("x".into(), on(2))]);
    assert_eq!(back, vec![1]);
    assert_eq!(env.finish(), vec![2]);
}

// --- loading ----------------------------------------------------------------------------

#[test]
fn a_graph_is_refused_with_all_that_it_lacks() {
    let mut far = node("Gelu", &["x"], &["g"]);
    far.domain = "com.example".into();
    let g = graph(
        vec![
            node("LSTM", &["x"], &["a"]),
            node("Relu", &["x"], &["b"]),
            node("LSTM", &["x"], &["c"]),
            node("Einsum", &["x"], &["d"]),
            far,
        ],
        &["a", "b", "c", "d", "g"],
    );
    let lacks = unsupported(&g.nodes);
    assert_eq!(lacks.len(), 3);
    let text = "4 nodes of 3 types are not implemented: \
                Einsum ×1 (e.g. 'Einsum_d'), Gelu ×1 (e.g. 'Gelu_g'), LSTM ×2 (e.g. 'LSTM_a')";
    assert_eq!(report(&g.nodes, &lacks), text);
    match Executor::new(g, OFF) {
        Err(Error::Unsupported(m)) => assert_eq!(m, text),
        _ => panic!("the graph is refused"),
    }
}

#[test]
fn loading_folds_constants_and_drops_the_rest() {
    let mut join = node("Concat", &["w", "v"], &["u"]);
    join.attrs.insert("axis".to_string(), AttrValue::Int(0));
    let mut g = graph(vec![join, node("Add", &["x", "u"], &["y"])], &["y"]);
    g.initializers.insert("w".to_string(), constant(4));
    g.initializers.insert("v".to_string(), constant(5));
    let e = match Executor::new(g, OFF) {
        Ok(e) => e,
        Err(e) => panic!("{}", e.message()),
    };
    assert_eq!(e.graph().nodes.len(), 1);
    assert!(e.graph().initializers.contains_key("u"));
    assert!(!e.graph().initializers.contains_key("w"));
    assert_eq!(e.graph().outputs, vec!["y".to_string()]);
    assert_eq!(e.cache().builds(), (0, 0));
}

#[test]
fn nothing_is_dropped_where_nothing_was_rewritten() {
    let mut g = graph(vec![node("Relu", &["x"], &["y"]), node("Exp", &["x"], &["z"])], &["y"]);
    g.initializers.insert("w".to_string(), constant(4));
    let e = match Executor::new(g, OFF) {
        Ok(e) => e,
        Err(e) => panic!("{}", e.message()),
    };
    assert_eq!(e.graph().nodes.len(), 2);
    assert!(e.graph().initializers.contains_key("w"));
}

#[test]
fn settings_of_the_rewrites() {
    assert!(df_folds_enabled(None) && df_folds_enabled(Some("1")) && df_folds_enabled(Some("")));
    assert!(!df_folds_enabled(Some("0")));
    assert!(!gqa_qk_reorder_enabled(None, None));
    assert!(!gqa_qk_reorder_enabled(Some("0"), Some("")));
    assert!(gqa_qk_reorder_enabled(Some("1"), None));
    assert!(gqa_qk_reorder_enabled(Some("0"), Some("yes")));
}

#[test]
fn a_value_lives_until_a_subgraph_has_read_it() {
    let sub = GraphIr {
        nodes: vec![node("Relu", &["x"], &["inside"])],
        initializers: NameMap::new(),
        inputs: vec![],
        outputs: vec!["inside".into()],
    };
    let mut branch = node("If", &["c"], &["z"]);
    branch.attrs.insert("then_branch".to_string(), AttrValue::Graph(Box::new(sub)));
    let g = GraphIr {
        nodes: vec![node("Relu", &["x"], &["y"]), branch],
        initializers: NameMap::new(),
        inputs: vec!["x".into(), "c".into()],
        outputs: vec!["y".into(), "z".into()],
    };
    let dead = dead_after(&g);
    assert!(dead[0].is_empty());
    assert_eq!(dead[1], ["c", "x"]);
}
