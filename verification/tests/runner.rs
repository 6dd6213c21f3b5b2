use onnx_vulkan_core::host_ops::{BOOL, FLOAT, INT32, INT64, INT8, UINT8};
use onnx_vulkan_core::decimal::{parse_signed, parse_unsigned};
use onnx_vulkan_core::runner::{
    binding_name, input_shape, integer_limit, numbers_below, parse_args, plugin_name, plugin_path,
    select_device, Args, Fault, Rng,
};
use onnx_vulkan_core::NameMap;

fn parse(words: &[&str]) -> Result<Args, Fault> {
    parse_args(&words.iter().map(|w| w.to_string()).collect())
}

#[test]
fn numbers_are_read_as_the_language_reads_them() {
    for s in [
        "", "+", "-", "0", "00", "7", "+7", "-7", "--7", "+-7", "1a", " 1", "1 ", "٣",
        "18446744073709551615", "18446744073709551616", "9223372036854775807",
        "9223372036854775808", "-9223372036854775808", "-9223372036854775809", "1_000", "0x10",
        "000000000000000000000000000012",
    ] {
        assert_eq!(parse_unsigned(s, u64::MAX), s.parse::<u64>().ok(), "{s}");
        assert_eq!(parse_signed(s), s.parse::<i64>().ok(), "{s}");
    }
    assert_eq!(parse_unsigned("256", 255), None);
    assert_eq!(parse_unsigned("255", 255), Some(255));
}

#[test]
fn a_model_alone_has_defaults() {
    let a = parse(&["m.onnx"]).unwrap();
    assert_eq!(a.model, "m.onnx");
    assert_eq!((a.iters, a.dump, a.seed), (1, 0, 42));
    assert!(a.mem_pattern && !a.self_check && !a.no_opt);
    assert_eq!((a.tol, a.rtol, a.reference), (None, None, None));
}

#[test]
fn flags_and_their_values() {
    let a = parse(&[
        "m.onnx", "--dim", "batch=4", "--no-opt", "--dim", "seq=-1", "--iters", "0", "--tol",
        "1e-3", "--rtol", "0.5", "--dump", "7", "--seed", "9", "--self-check", "--reference", "d",
        "--no-mem-pattern", "--dim", "batch=8",
    ])
    .unwrap();
    assert_eq!(a.dims.get("batch"), Some(&8));
    assert_eq!(a.dims.get("seq"), Some(&-1));
    assert_eq!((a.iters, a.dump, a.seed), (1, 7, 9));
    assert!(!a.mem_pattern && a.self_check && a.no_opt);
    assert_eq!(a.tol.as_deref(), Some("1e-3"));
    assert_eq!(a.rtol.as_deref(), Some("0.5"));
    assert_eq!(a.reference.as_deref(), Some("d"));
}

#[test]
fn names_of_dimensions_end_at_the_first_equals_sign() {
    let a = parse(&["m", "--dim", "=3"]).unwrap();
    assert_eq!(a.dims.get(""), Some(&3));
    assert_eq!(parse(&["m", "--dim", "a=b=3"]).err(), Some(Fault::BadNumber(1)));
}

#[test]
fn command_lines_that_are_wrong() {
    assert_eq!(parse(&[]).err(), Some(Fault::NoModel));
    assert_eq!(parse(&["m", "--no-opt", "--seed"]).err(), Some(Fault::NoValue(2)));
    assert_eq!(parse(&["m", "--dim", "n"]).err(), Some(Fault::NoEquals(1)));
    assert_eq!(parse(&["m", "--iters", "-1"]).err(), Some(Fault::BadNumber(1)));
    assert_eq!(parse(&["m", "--dump", "x"]).err(), Some(Fault::BadNumber(1)));
    assert_eq!(parse(&["m", "--seed", ""]).err(), Some(Fault::BadNumber(1)));
    assert_eq!(parse(&["m", "--what", "1"]).err(), Some(Fault::UnknownFlag(1)));
    assert_eq!(parse(&["m", "--what"]).err(), Some(Fault::NoValue(1)));
}

#[test]
fn the_same_seed_gives_the_same_numbers() {
    let mut a = Rng(42);
    let mut state = 42u64;
    for _ in 0..10 {
        state = state.wrapping_mul(6364136223846793005).wrapping_add(1);
        assert_eq!(a.next_u64(), state);
    }
    let mut b = Rng(42);
    let first = b.next_below(64);
    let mut c = Rng(42);
    assert_eq!(numbers_below(&mut c, 3, 64)[0], first);
    assert!(numbers_below(&mut c, 100, 5).iter().all(|v| *v < 5));
    let mut d = Rng(1);
    assert_eq!(d.next_below(256), (6364136223846793006u64 >> 33) % 256);
}

#[test]
fn open_dimensions_come_from_the_command_line() {
    let mut dims = NameMap::new();
    dims.insert("batch".to_string(), 4);
    let symbols: Vec<String> = ["batch", "", "seq"].iter().map(|s| s.to_string()).collect();
    assert_eq!(input_shape(&[-1, 3, -1], &symbols, &dims), vec![4, 3, 1]);
    assert_eq!(input_shape(&[5, 3], &symbols, &dims), vec![5, 3]);
}

#[test]
fn made_up_integers_are_small() {
    assert_eq!(integer_limit(INT64), Some(64));
    assert_eq!(integer_limit(INT32), Some(64));
    assert_eq!(integer_limit(UINT8), Some(256));
    assert_eq!(integer_limit(INT8), Some(256));
    assert_eq!(integer_limit(FLOAT), None);
    assert_eq!(integer_limit(BOOL), None);
}

#[test]
fn tensors_without_a_name_go_by_position() {
    let names: Vec<String> = vec!["a".into(), "b".into()];
    assert_eq!(binding_name("own", &names, 1).as_deref(), Some("own"));
    assert_eq!(binding_name("", &names, 1).as_deref(), Some("b"));
    assert_eq!(binding_name("", &names, 2), None);
}

#[test]
fn the_first_device_of_the_provider_is_used() {
    let names: Vec<String> = vec!["CPU".into(), "VulkanEP".into(), "VulkanEP".into()];
    assert_eq!(select_device(&names, "VulkanEP"), Some(1));
    assert_eq!(select_device(&names, "Other"), None);
}

#[test]
fn the_plugin_is_where_it_is_said_to_be_or_beside_the_program() {
    let path = |given: Option<&str>, beside: Option<&str>, windows: bool| {
        plugin_path(given.map(String::from), beside.map(String::from), windows)
    };
    assert_eq!(path(Some("/opt/ep.so"), Some("/usr/bin"), false), "/opt/ep.so");
    assert_eq!(path(None, Some("/usr/bin"), false), "/usr/bin/libonnxruntime_ep_vulkan.so");
    assert_eq!(path(None, Some("/"), false), "/libonnxruntime_ep_vulkan.so");
    assert_eq!(path(None, Some("C:\\run"), true), "C:\\run\\onnxruntime_ep_vulkan.dll");
    assert_eq!(path(None, Some("C:\\"), true), "C:\\onnxruntime_ep_vulkan.dll");
    assert_eq!(path(None, Some(""), false), plugin_name(false));
    assert_eq!(path(None, None, true), "onnxruntime_ep_vulkan.dll");
    let dir = std::path::Path::new("/a/b");
    assert_eq!(path(None, dir.to_str(), false), dir.join(plugin_name(false)).to_str().unwrap());
}
