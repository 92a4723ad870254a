use pth2st::machine::PickleError;
use pth2st::pickle::Unpickler;
use pth2st::value::PyValue;

fn load(bytes: &[u8]) -> Result<PyValue, PickleError> {
    let mut up = Unpickler::default();
    up.load(&bytes.to_vec())
}

#[test]
fn proto_five_or_higher_fails() {
    assert_eq!(load(&[0x80, 5, b'.']), Err(PickleError::UnsupportedProtocol(5)));
    assert_eq!(load(&[0x80, 0xff, b'.']), Err(PickleError::UnsupportedProtocol(0xff)));
}

#[test]
fn proto_zero_to_four_succeed() {
    for v in 0u8..=4u8 {
        let r = load(&[0x80, v, 0x88, b'.']);
        assert_eq!(r, Ok(PyValue::Bool(true)));
    }
}

#[test]
fn stop_with_single_item_returns_it() {
    assert_eq!(load(&[b'K', 7, b'.']), Ok(PyValue::Int(7)));
}

#[test]
fn stop_with_empty_stack_fails() {
    assert_eq!(load(&[b'.']), Err(PickleError::NoResult));
}

#[test]
fn stop_with_two_items_fails() {
    assert_eq!(load(&[0x88, 0x89, b'.']), Err(PickleError::ExtraItems));
}

#[test]
fn memo_round_trip_returns_equal_value() {
    // push 42, store under key 3, read key 3 back, pair the two copies up
    let r = load(&[b'K', 42, b'q', 3, b'h', 3, 0x86, b'.']);
    assert_eq!(
        r,
        Ok(PyValue::Tuple(vec![PyValue::Int(42), PyValue::Int(42)]))
    );
}

#[test]
fn long_memo_key_round_trip() {
    let r = load(&[b'K', 9, b'r', 5, 0, 0, 0, b'h', 5, 0x86, b'.']);
    assert_eq!(r, Ok(PyValue::Tuple(vec![PyValue::Int(9), PyValue::Int(9)])));
}

#[test]
fn memo_read_of_absent_key_fails() {
    assert_eq!(load(&[b'h', 9, b'.']), Err(PickleError::MissingMemo(9)));
}

#[test]
fn memo_store_on_empty_stack_fails() {
    assert_eq!(load(&[b'q', 0, b'.']), Err(PickleError::StackUnderflow));
}

#[test]
fn setitems_preserves_pairing_and_order() {
    // {} with (1, 2) and (3, 4) appended in order
    let r = load(&[b'}', b'(', b'K', 1, b'K', 2, b'K', 3, b'K', 4, b'u', b'.']);
    assert_eq!(
        r,
        Ok(PyValue::Dict(vec![
            (PyValue::Int(1), PyValue::Int(2)),
            (PyValue::Int(3), PyValue::Int(4)),
        ]))
    );
}

#[test]
fn setitems_appends_after_existing_entries() {
    let r = load(&[
        b'}', b'(', b'K', 1, b'K', 2, b'u', b'(', b'K', 3, b'K', 4, b'u', b'.',
    ]);
    assert_eq!(
        r,
        Ok(PyValue::Dict(vec![
            (PyValue::Int(1), PyValue::Int(2)),
            (PyValue::Int(3), PyValue::Int(4)),
        ]))
    );
}

#[test]
fn setitems_on_non_dict_fails() {
    let r = load(&[b'K', 5, b'(', b'K', 1, b'K', 2, b'u', b'.']);
    assert_eq!(r, Err(PickleError::SetItemsOnNonDict));
}

#[test]
fn tuple2_preserves_push_order() {
    let r = load(&[b'K', 1, b'K', 2, 0x86, b'.']);
    assert_eq!(r, Ok(PyValue::Tuple(vec![PyValue::Int(1), PyValue::Int(2)])));
}

#[test]
fn tuple3_preserves_push_order() {
    let r = load(&[b'K', 1, b'K', 2, b'K', 3, 0x87, b'.']);
    assert_eq!(
        r,
        Ok(PyValue::Tuple(vec![
            PyValue::Int(1),
            PyValue::Int(2),
            PyValue::Int(3),
        ]))
    );
}

#[test]
fn marked_tuple_and_empty_tuple() {
    let r = load(&[b'(', b'K', 1, b'K', 2, b't', b'.']);
    assert_eq!(r, Ok(PyValue::Tuple(vec![PyValue::Int(1), PyValue::Int(2)])));
    assert_eq!(load(&[b')', b'.']), Ok(PyValue::Tuple(vec![])));
}

#[test]
fn tuple1_wraps_top_of_stack() {
    let r = load(&[b'K', 8, 0x85, b'.']);
    assert_eq!(r, Ok(PyValue::Tuple(vec![PyValue::Int(8)])));
}

#[test]
fn binunicode_with_invalid_utf8_substitutes() {
    let r = load(&[b'X', 2, 0, 0, 0, 0xff, 0xfe, b'.']);
    assert_eq!(r, Ok(PyValue::Str("\u{fffd}\u{fffd}".to_string())));
}

#[test]
fn binunicode_with_valid_utf8_decodes() {
    let r = load(&[b'X', 2, 0, 0, 0, b'h', b'i', b'.']);
    assert_eq!(r, Ok(PyValue::Str("hi".to_string())));
}

#[test]
fn global_reads_two_lines() {
    let mut b: Vec<u8> = vec![b'c'];
    b.extend_from_slice(b"torch._utils\n_rebuild_tensor_v2\n");
    b.push(b'.');
    let r = load(&b);
    assert_eq!(
        r,
        Ok(PyValue::Global(
            "torch._utils".to_string(),
            "_rebuild_tensor_v2".to_string()
        ))
    );
}

#[test]
fn signed_and_unsigned_ints() {
    assert_eq!(load(&[b'J', 0xfc, 0xff, 0xff, 0xff, b'.']), Ok(PyValue::Int(-4)));
    assert_eq!(load(&[b'J', 1, 0, 0, 0, b'.']), Ok(PyValue::Int(1)));
    assert_eq!(load(&[b'M', 1, 2, b'.']), Ok(PyValue::Int(513)));
    assert_eq!(load(&[b'K', 255, b'.']), Ok(PyValue::Int(255)));
}

#[test]
fn reduce_and_persid_record_without_executing() {
    let r = load(&[b')', b')', b'R', b'Q', b'.']);
    assert_eq!(
        r,
        Ok(PyValue::PersId(Box::new(PyValue::Reduce(
            Box::new(PyValue::Tuple(vec![])),
            Box::new(PyValue::Tuple(vec![])),
        ))))
    );
}

#[test]
fn unknown_opcode_fails() {
    assert_eq!(load(&[b'z', b'.']), Err(PickleError::UnknownOpcode(b'z')));
}

#[test]
fn truncated_stream_fails() {
    assert_eq!(load(&[0x80]), Err(PickleError::Truncated));
    assert_eq!(load(&[b'X', 9, 0, 0, 0, b'a']), Err(PickleError::Truncated));
    assert_eq!(load(&[b'K', 1]), Err(PickleError::Truncated));
}

#[test]
fn empty_dict_opcode_pushes_empty_dict() {
    assert_eq!(load(&[b'}', b'.']), Ok(PyValue::Dict(vec![])));
}

#[test]
fn global_with_invalid_utf8_fails() {
    let r = load(&[b'c', 0xff, 0xfe, b'\n', b'x', b'\n', b'.']);
    assert_eq!(r, Err(PickleError::InvalidGlobalText));
}

#[test]
fn global_without_newline_is_truncated() {
    let r = load(&[b'c', b'a', b'b']);
    assert_eq!(r, Err(PickleError::Truncated));
}

#[test]
fn memo_binding_survives_other_opcodes() {
    // store 42 under key 3, do unrelated work, then read key 3 back
    let r = load(&[b'K', 42, b'q', 3, b'}', b'h', 3, 0x87, b'.']);
    assert_eq!(
        r,
        Ok(PyValue::Tuple(vec![
            PyValue::Int(42),
            PyValue::Dict(vec![]),
            PyValue::Int(42),
        ]))
    );
}
