use pth2st::pth::{first_persid, locate_tensors, PthDtype, PthError};
use pth2st::value::PyValue;
use pth2st::visit::{PersIdProbe, PyValueVisitor};

fn rebuild_global() -> PyValue {
    PyValue::Global("torch._utils".to_string(), "_rebuild_tensor_v2".to_string())
}

fn storage_tuple(storage: &str, zfn: &str, count: i64) -> PyValue {
    PyValue::Tuple(vec![
        PyValue::Str("storage".to_string()),
        PyValue::Global("torch".to_string(), storage.to_string()),
        PyValue::Str(zfn.to_string()),
        PyValue::Str("cpu".to_string()),
        PyValue::Int(count),
    ])
}

fn tensor_entry(storage: &str, zfn: &str, count: i64, shape: &[i64]) -> PyValue {
    let dims: Vec<PyValue> = shape.iter().map(|d| PyValue::Int(*d)).collect();
    PyValue::Reduce(
        Box::new(rebuild_global()),
        Box::new(PyValue::Tuple(vec![
            PyValue::PersId(Box::new(storage_tuple(storage, zfn, count))),
            PyValue::Int(0),
            PyValue::Tuple(dims),
            PyValue::Bool(false),
            PyValue::Tuple(vec![]),
        ])),
    )
}

#[test]
fn dtype_table() {
    assert_eq!(PthDtype::try_from("Float32Storage"), Ok(PthDtype::FP32));
    assert_eq!(PthDtype::try_from("Float16Storage"), Ok(PthDtype::FP16));
    assert_eq!(PthDtype::try_from("BFloat16Storage"), Ok(PthDtype::BF16));
    assert_eq!(PthDtype::try_from("DoubleStorage"), Err(PthError::UnknownStorage));
    assert_eq!(PthDtype::FP32.size(), 4);
    assert_eq!(PthDtype::FP16.size(), 2);
    assert_eq!(PthDtype::BF16.size(), 2);
}

#[test]
fn first_persid_finds_innermost_first_in_preorder() {
    let tree = PyValue::Tuple(vec![
        PyValue::Int(1),
        PyValue::PersId(Box::new(PyValue::Int(7))),
        PyValue::PersId(Box::new(PyValue::Int(9))),
    ]);
    assert_eq!(first_persid(&tree), Some(PyValue::Int(7)));
}

#[test]
fn first_persid_none_without_reference() {
    let tree = PyValue::Tuple(vec![PyValue::Int(1), PyValue::Str("x".to_string())]);
    assert_eq!(first_persid(&tree), None);
}

#[test]
fn visit_probe_sees_persistent_reference() {
    let tree = PyValue::Dict(vec![(
        PyValue::Str("k".to_string()),
        PyValue::PersId(Box::new(PyValue::Int(3))),
    )]);
    let mut probe = PersIdProbe { seen: false };
    tree.visit(&mut probe);
    assert!(probe.seen);

    let plain = PyValue::Tuple(vec![PyValue::Int(1)]);
    let mut probe2 = PersIdProbe { seen: false };
    plain.visit(&mut probe2);
    assert!(!probe2.seen);
}

#[test]
fn visitor_trait_calls_follow_their_spec() {
    let mut probe = PersIdProbe { seen: false };
    let descend = probe.visit(&PyValue::Int(1));
    assert!(descend);
    let descend2 = probe.visit(&PyValue::PersId(Box::new(PyValue::Int(1))));
    assert!(!descend2);
    assert!(probe.seen);
}

#[test]
fn locator_extracts_descriptor() {
    let root = PyValue::Dict(vec![(
        PyValue::Str("w".to_string()),
        tensor_entry("Float32Storage", "0", 6, &[2, 3]),
    )]);
    let pkl = "archive/data.pkl".to_string();
    let zf = "test.pt".to_string();
    let r = locate_tensors(&root, &pkl, &zf).unwrap();
    assert_eq!(r.len(), 1);
    assert_eq!(r[0].0, "w".to_string());
    let loc = &r[0].1;
    assert_eq!(loc.dtype(), PthDtype::FP32);
    assert_eq!(loc.zip_inner_file(), &"archive/data/0".to_string());
    assert_eq!(loc.zipfile(), &"test.pt".to_string());
    assert_eq!(loc.nelements(), 6);
    assert_eq!(loc.shape(), &vec![2usize, 3usize]);
    assert_eq!(loc.data_len(), 24);
}

#[test]
fn root_whose_first_pair_is_not_rebuild_yields_nothing() {
    let root = PyValue::Dict(vec![
        (PyValue::Str("meta".to_string()), PyValue::Int(1)),
        (
            PyValue::Str("w".to_string()),
            tensor_entry("Float32Storage", "0", 6, &[2, 3]),
        ),
    ]);
    let pkl = "archive/data.pkl".to_string();
    let zf = "test.pt".to_string();
    let r = locate_tensors(&root, &pkl, &zf);
    assert_eq!(r.map(|v| v.len()), Ok(0));
}

#[test]
fn unknown_storage_is_fatal() {
    let root = PyValue::Dict(vec![(
        PyValue::Str("w".to_string()),
        tensor_entry("DoubleStorage", "0", 6, &[2, 3]),
    )]);
    let pkl = "archive/data.pkl".to_string();
    let zf = "test.pt".to_string();
    assert_eq!(
        locate_tensors(&root, &pkl, &zf).map(|v| v.len()),
        Err(PthError::UnknownStorage)
    );
}

#[test]
fn non_tensor_entries_are_skipped_silently() {
    let root = PyValue::Dict(vec![
        (
            PyValue::Str("w".to_string()),
            tensor_entry("Float16Storage", "1", 4, &[4]),
        ),
        (PyValue::Str("extra".to_string()), PyValue::Int(9)),
    ]);
    let pkl = "base/data.pkl".to_string();
    let zf = "a.pt".to_string();
    let r = locate_tensors(&root, &pkl, &zf).unwrap();
    assert_eq!(r.len(), 1);
    assert_eq!(r[0].1.dtype(), PthDtype::FP16);
    assert_eq!(r[0].1.data_len(), 8);
}

#[test]
fn negative_shape_dimension_is_fatal() {
    let root = PyValue::Dict(vec![(
        PyValue::Str("w".to_string()),
        tensor_entry("Float32Storage", "0", 6, &[2, -3]),
    )]);
    let pkl = "archive/data.pkl".to_string();
    let zf = "test.pt".to_string();
    assert_eq!(
        locate_tensors(&root, &pkl, &zf).map(|v| v.len()),
        Err(PthError::MalformedShape)
    );
}

#[test]
fn entry_path_without_directory_is_fatal() {
    let root = PyValue::Dict(vec![(
        PyValue::Str("w".to_string()),
        tensor_entry("Float32Storage", "0", 6, &[2, 3]),
    )]);
    let pkl = "data.pkl".to_string();
    let zf = "test.pt".to_string();
    assert_eq!(
        locate_tensors(&root, &pkl, &zf).map(|v| v.len()),
        Err(PthError::BadEntryPath)
    );
}

#[test]
fn non_tuple_shape_argument_defaults_to_empty_shape() {
    let entry = PyValue::Reduce(
        Box::new(rebuild_global()),
        Box::new(PyValue::Tuple(vec![
            PyValue::PersId(Box::new(storage_tuple("Float32Storage", "0", 1))),
            PyValue::Int(0),
            PyValue::Int(5),
        ])),
    );
    let root = PyValue::Dict(vec![(PyValue::Str("s".to_string()), entry)]);
    let pkl = "m/data.pkl".to_string();
    let zf = "m.pt".to_string();
    let r = locate_tensors(&root, &pkl, &zf).unwrap();
    assert_eq!(r.len(), 1);
    assert_eq!(r[0].1.shape(), &Vec::<usize>::new());
    assert_eq!(r[0].1.data_len(), 4);
}

#[test]
fn rebuild_arguments_too_short_are_fatal() {
    let entry = PyValue::Reduce(
        Box::new(rebuild_global()),
        Box::new(PyValue::Tuple(vec![PyValue::Int(0), PyValue::Int(1)])),
    );
    let root = PyValue::Dict(vec![(PyValue::Str("w".to_string()), entry)]);
    let r = locate_tensors(&root, &"m/data.pkl".to_string(), &"m.pt".to_string());
    assert_eq!(r.map(|v| v.len()), Err(PthError::MalformedEntry));
}

#[test]
fn persistent_reference_tuple_too_short_is_fatal() {
    let entry = PyValue::Reduce(
        Box::new(rebuild_global()),
        Box::new(PyValue::Tuple(vec![
            PyValue::PersId(Box::new(PyValue::Tuple(vec![
                PyValue::Str("storage".to_string()),
                PyValue::Int(1),
            ]))),
            PyValue::Int(0),
            PyValue::Tuple(vec![]),
        ])),
    );
    let root = PyValue::Dict(vec![(PyValue::Str("w".to_string()), entry)]);
    let r = locate_tensors(&root, &"m/data.pkl".to_string(), &"m.pt".to_string());
    assert_eq!(r.map(|v| v.len()), Err(PthError::MalformedEntry));
}

#[test]
fn negative_element_count_is_fatal() {
    let root = PyValue::Dict(vec![(
        PyValue::Str("w".to_string()),
        tensor_entry("Float32Storage", "0", -5, &[1]),
    )]);
    let r = locate_tensors(&root, &"m/data.pkl".to_string(), &"m.pt".to_string());
    assert_eq!(r.map(|v| v.len()), Err(PthError::BadElementCount));
}

#[test]
fn non_tuple_persistent_reference_is_skipped() {
    let entry = PyValue::Reduce(
        Box::new(rebuild_global()),
        Box::new(PyValue::Tuple(vec![
            PyValue::PersId(Box::new(PyValue::Int(3))),
            PyValue::Int(0),
            PyValue::Tuple(vec![]),
        ])),
    );
    let root = PyValue::Dict(vec![(PyValue::Str("w".to_string()), entry)]);
    let r = locate_tensors(&root, &"m/data.pkl".to_string(), &"m.pt".to_string()).unwrap();
    assert_eq!(r.len(), 0);
}

#[test]
fn non_integer_shape_dimension_skips_entry() {
    let entry = PyValue::Reduce(
        Box::new(rebuild_global()),
        Box::new(PyValue::Tuple(vec![
            PyValue::PersId(Box::new(storage_tuple("Float32Storage", "0", 6))),
            PyValue::Int(0),
            PyValue::Tuple(vec![PyValue::Int(2), PyValue::Str("x".to_string())]),
            PyValue::Bool(false),
            PyValue::Tuple(vec![]),
        ])),
    );
    let root = PyValue::Dict(vec![(PyValue::Str("w".to_string()), entry)]);
    let r = locate_tensors(&root, &"m/data.pkl".to_string(), &"m.pt".to_string()).unwrap();
    assert_eq!(r.len(), 0);
}
