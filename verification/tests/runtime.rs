use std::mem;

use thp::runtime::error::{RuntimeError, RuntimeErrorKind, StackFrame};
use thp::syntax::Span;
use thp::runtime::heap::RequestHeap;
use thp::runtime::input::{MemoryBody, ReadStep, RequestInput};
use thp::runtime::value::{ClassId, Type, Value};

fn bytes_of(value: &Value) -> Option<Vec<u8>> {
    value.as_bytes().map(|b| b.to_vec())
}

#[test]
fn values_use_two_words() {
    assert_eq!(mem::size_of::<Value>(), 16);
}

#[test]
fn heap_values_share_and_release() {
    let value = Value::bytes(b"hello".to_vec());
    let alias = value.clone();
    assert!(value.equals(&alias));
    drop(value);
    assert_eq!(alias.as_bytes(), Some(b"hello".as_slice()));
}

#[test]
fn vector_mutation_detaches_shared_storage() {
    let mut left = Value::vector(Type::Int, vec![Value::integer(1)]);
    let right = left.clone();
    left.vector_push(Value::integer(2)).unwrap();
    assert_eq!(left.count(), Some(2));
    assert_eq!(right.count(), Some(1));
}

#[test]
fn collection_iteration_and_assignment_preserve_map_order_and_copy_on_write() {
    let mut left = Value::map(
        Type::Str,
        Type::Int,
        vec![(Value::bytes(b"first".to_vec()), Value::integer(1))],
    );
    let right = left.clone();
    left.set_index(&Value::bytes(b"first".to_vec()), Value::integer(2)).unwrap();
    left.set_index(&Value::bytes(b"second".to_vec()), Value::integer(3)).unwrap();

    assert_eq!(left.collection_len().unwrap(), 2);
    assert_eq!(
        left.collection_key_at(1).unwrap().as_bytes(),
        Some(b"second".as_slice())
    );
    assert_eq!(left.collection_value_at(1).unwrap().as_int(), Some(3));
    assert_eq!(
        right.index(&Value::bytes(b"first".to_vec())).unwrap().as_int(),
        Some(1)
    );
    assert_eq!(right.collection_len().unwrap(), 1);
}

#[test]
fn strings_preserve_arbitrary_bytes() {
    let bytes = Value::bytes(vec![0, 0xff, b'T']);
    assert_eq!(bytes.as_bytes(), Some([0, 0xff, b'T'].as_slice()));
}

#[test]
fn output_scalars_have_canonical_text() {
    assert_eq!(
        Value::integer(i64::MIN).output_bytes().unwrap(),
        b"-9223372036854775808"
    );
    assert_eq!(Value::bool(true).output_bytes().unwrap(), b"true");
    assert_eq!(Value::bool(false).output_bytes().unwrap(), b"false");
    assert_eq!(Value::bytes(vec![0, 0xff]).output_bytes().unwrap(), [0, 0xff]);
}

#[test]
fn null_and_compound_values_are_not_output_scalars() {
    assert!(Value::Null.output_bytes().is_none());
    assert!(Value::vector(Type::Int, Vec::new()).output_bytes().is_none());
}

#[test]
fn object_aliases_share_property_mutation() {
    let mut heap = RequestHeap::new(None, None);
    let object = Value::try_object(&mut heap, ClassId(3), 1).unwrap();
    let alias = object.clone();
    object.set_property(&mut heap, 0, Value::integer(7)).unwrap();
    assert_eq!(alias.property(&heap, 0).unwrap().as_int(), Some(7));
    assert_eq!(alias.class_id(), Some(ClassId(3)));
}

#[test]
fn throwable_state_and_previous_chains_are_shared() {
    let mut heap = RequestHeap::new(None, None);
    let class = ClassId(10);
    let root = Value::try_throwable_object(&mut heap, class, 0).unwrap();
    root.initialize_exception(&mut heap, b"root".to_vec(), 1, None).unwrap();
    let existing = Value::try_throwable_object(&mut heap, class, 0).unwrap();
    existing
        .initialize_exception(&mut heap, b"existing".to_vec(), 2, Some(root.clone()))
        .unwrap();
    let replacement = Value::try_throwable_object(&mut heap, class, 0).unwrap();
    replacement
        .initialize_exception(&mut heap, b"replacement".to_vec(), 3, Some(existing.clone()))
        .unwrap();
    let pending = Value::try_throwable_object(&mut heap, class, 0).unwrap();
    pending.initialize_exception(&mut heap, b"pending".to_vec(), 4, None).unwrap();

    replacement.append_previous(&mut heap, pending.clone()).unwrap();
    assert_eq!(replacement.exception_message(&heap).unwrap(), b"replacement");
    assert_eq!(replacement.exception_code(&heap).unwrap(), 3);
    assert!(replacement.exception_previous(&heap).unwrap().equals(&existing));
    assert!(root.exception_previous(&heap).unwrap().equals(&pending));

    replacement.append_previous(&mut heap, replacement.clone()).unwrap();
    assert!(root.exception_previous(&heap).unwrap().equals(&pending));

    let cycle_root = Value::try_throwable_object(&mut heap, class, 0).unwrap();
    let cycle_pending = Value::try_throwable_object(&mut heap, class, 0).unwrap();
    cycle_pending
        .initialize_exception(&mut heap, b"cycle".to_vec(), 0, Some(cycle_root.clone()))
        .unwrap();
    cycle_root.append_previous(&mut heap, cycle_pending).unwrap();
    assert!(cycle_root.exception_previous(&heap).unwrap().is_null());
}

#[test]
fn temporary_stream_spills_to_an_unnamed_file() {
    let mut heap = RequestHeap::new(None, None);
    let stream = Value::try_temp_stream(&mut heap, ClassId(4), 0).unwrap();
    stream.stream_write_all(&mut heap, b"spill").unwrap();
    stream.stream_seek(&mut heap, 0).unwrap();
    assert_eq!(stream.stream_read_all(&mut heap, None).unwrap(), b"spill");
}

#[test]
fn request_heap_reports_limits_and_injected_allocation_failure() {
    let mut heap = RequestHeap::new(Some(4096), None);
    let error = Value::try_bytes(&mut heap, vec![0; 8192]).unwrap_err();
    assert!(matches!(error, RuntimeErrorKind::HeapLimit { limit: 4096 }));
}

#[test]
fn stream_handle_limit_counts_cells_not_aliases_and_close_releases() {
    let mut heap = RequestHeap::new(Some(1024 * 1024), Some(1));
    let stream = Value::try_stream(&mut heap, ClassId(4), Vec::new()).unwrap();
    let alias = stream.clone();
    assert_eq!(heap.stats().open_handles, 1);
    assert!(matches!(
        Value::try_stream(&mut heap, ClassId(4), Vec::new()),
        Err(RuntimeErrorKind::OpenHandleLimit { limit: 1 })
    ));
    alias.stream_close(&mut heap).unwrap();
    assert_eq!(heap.stats().open_handles, 0);
    drop(stream);
    drop(alias);
    Value::try_stream(&mut heap, ClassId(4), Vec::new()).unwrap();
}

/// Drives one read of the body from an in-memory reader.
fn read_body(
    input: &mut RequestInput,
    body: &mut MemoryBody,
    length: usize,
    elapsed_nanos: u128,
) -> Result<Vec<u8>, RuntimeErrorKind> {
    let mut step = input.start_read(length, elapsed_nanos);
    loop {
        match step {
            ReadStep::Done(result) => return result,
            ReadStep::Fetch(pending) => {
                let chunk = body.fetch(pending.asked());
                step = input.resume_read(pending, Ok(chunk), elapsed_nanos);
            }
        }
    }
}

/// Drives a read of the rest of the body.
fn read_all_body(
    input: &mut RequestInput,
    body: &mut MemoryBody,
    limit: Option<usize>,
) -> Result<Vec<u8>, RuntimeErrorKind> {
    let mut all = input.start_read_all(limit);
    while let Some(length) = all.next_length() {
        let chunk = read_body(input, body, length, 0)?;
        if let Some(done) = all.absorb(input, chunk) {
            return done;
        }
    }
    Ok(all.into_bytes())
}

#[test]
fn request_input_enforces_declared_and_streamed_size_and_shared_cursor() {
    assert!(matches!(
        RequestInput::new(Some(2), Some(1), None),
        Err(RuntimeErrorKind::InputSizeLimit { limit: 1 })
    ));
    let mut input = RequestInput::new(None, Some(3), Some(1_000_000_000)).unwrap();
    let (_, mut body) = RequestInput::from_bytes(b"abcd".to_vec(), None, None).unwrap();
    assert_eq!(read_body(&mut input, &mut body, 2, 0).unwrap(), b"ab");
    assert_eq!(input.position(), 2);
    assert!(matches!(
        read_body(&mut input, &mut body, 2, 0),
        Err(RuntimeErrorKind::InputSizeLimit { limit: 3 })
    ));
}

#[test]
fn request_input_read_all_limit_preserves_logical_cursor() {
    let (mut input, mut body) = RequestInput::from_bytes(b"abcdef".to_vec(), Some(16), None).unwrap();
    assert!(matches!(
        read_all_body(&mut input, &mut body, Some(3)),
        Err(RuntimeErrorKind::Io(message)) if message == "stream read limit exceeded"
    ));
    assert_eq!(input.position(), 0);
    assert_eq!(read_body(&mut input, &mut body, 6, 0).unwrap(), b"abcdef");
}

#[test]
fn request_input_time_limit_is_non_io_policy_failure() {
    let (mut input, mut body) = RequestInput::from_bytes(b"x".to_vec(), None, Some(0)).unwrap();
    assert!(matches!(
        read_body(&mut input, &mut body, 1, 0),
        Err(RuntimeErrorKind::InputTimeLimit { limit_nanos: 0 })
    ));
}

#[test]
fn request_input_reads_all_and_reports_the_end() {
    let (mut input, mut body) = RequestInput::from_bytes(b"hello".to_vec(), None, None).unwrap();
    assert_eq!(input.eof_known().unwrap(), None);
    let probe = read_body(&mut input, &mut body, 1, 0).unwrap();
    assert!(!input.settle_eof(probe));
    assert_eq!(input.position(), 0);
    assert_eq!(input.eof_known().unwrap(), Some(false));
    assert_eq!(read_all_body(&mut input, &mut body, None).unwrap(), b"hello");
    assert_eq!(input.position(), 5);
    assert_eq!(input.eof_known().unwrap(), Some(true));
    assert_eq!(input.consumed_bytes(), 5);
    input.close();
    assert!(matches!(input.eof_known(), Err(RuntimeErrorKind::Io(m)) if m == "stream is closed"));
    assert!(matches!(
        read_body(&mut input, &mut body, 1, 0),
        Err(RuntimeErrorKind::Io(m)) if m == "stream is closed"
    ));
}

#[test]
fn request_input_reader_failures_are_reported() {
    let mut input = RequestInput::empty();
    let step = input.start_read(4, 0);
    match step {
        ReadStep::Fetch(pending) => {
            assert_eq!(pending.asked(), 4);
            match input.resume_read(pending, Err("broken pipe".to_owned()), 0) {
                ReadStep::Done(Err(RuntimeErrorKind::Io(m))) => {
                    assert_eq!(m, "request input failed: broken pipe")
                }
                _ => panic!("expected a reader failure"),
            }
        }
        ReadStep::Done(_) => panic!("expected a fetch"),
    }
}

#[test]
fn request_input_reads_at_most_one_chunk() {
    let (mut input, mut body) = RequestInput::from_bytes(vec![7u8; 70000], None, None).unwrap();
    assert_eq!(read_body(&mut input, &mut body, 100000, 0).unwrap().len(), 65536);
    assert_eq!(read_body(&mut input, &mut body, 100000, 0).unwrap().len(), 70000 - 65536);
    assert_eq!(read_body(&mut input, &mut body, 10, 0).unwrap().len(), 0);
}

#[test]
fn request_input_limits_only_tighten() {
    let mut input = RequestInput::new(Some(10), Some(100), None).unwrap();
    assert!(input.apply_limits(Some(200), Some(5)).is_ok());
    assert!(matches!(
        input.apply_limits(Some(4), None),
        Err(RuntimeErrorKind::InputSizeLimit { limit: 4 })
    ));
}

#[test]
fn map_reads_back_what_was_assigned() {
    let mut map = Value::map(Type::Int, Type::Str, Vec::new());
    map.set_index(&Value::integer(5), Value::bytes(b"five".to_vec())).unwrap();
    map.set_index(&Value::integer(1), Value::bytes(b"one".to_vec())).unwrap();
    map.set_index(&Value::integer(5), Value::bytes(b"FIVE".to_vec())).unwrap();
    assert_eq!(bytes_of(&map.index(&Value::integer(5)).unwrap()), Some(b"FIVE".to_vec()));
    assert_eq!(map.collection_key_at(0).unwrap().as_int(), Some(5));
    assert_eq!(map.collection_len().unwrap(), 2);
    assert!(matches!(
        map.index(&Value::integer(9)),
        Err(RuntimeErrorKind::Bounds(m)) if m == "map key does not exist"
    ));
}

#[test]
fn indexing_reports_each_error() {
    let vector = Value::vector(Type::Int, vec![Value::integer(10), Value::integer(20)]);
    assert_eq!(vector.index(&Value::integer(1)).unwrap().as_int(), Some(20));
    assert!(matches!(vector.index(&Value::integer(-1)),
        Err(RuntimeErrorKind::Bounds(m)) if m == "negative vector index"));
    assert!(matches!(vector.index(&Value::integer(2)),
        Err(RuntimeErrorKind::Bounds(m)) if m == "vector index out of bounds"));
    assert!(matches!(vector.index(&Value::bool(true)),
        Err(RuntimeErrorKind::TypeError(m)) if m == "vector index must be int"));
    let text = Value::bytes(b"ab".to_vec());
    assert_eq!(bytes_of(&text.index(&Value::integer(1)).unwrap()), Some(b"b".to_vec()));
    assert!(matches!(Value::integer(3).index(&Value::integer(0)),
        Err(RuntimeErrorKind::TypeError(m)) if m == "int cannot be indexed"));
    assert!(matches!(Value::Null.collection_len(),
        Err(RuntimeErrorKind::TypeError(m)) if m == "null is not an iterable collection"));
    let mut not_vector = Value::bool(false);
    assert!(matches!(not_vector.vector_push(Value::Null),
        Err(RuntimeErrorKind::TypeError(m)) if m == "array_push requires a vector"));
    assert!(matches!(not_vector.set_index(&Value::integer(0), Value::Null),
        Err(RuntimeErrorKind::TypeError(m)) if m == "bool does not support element assignment"));
}

#[test]
fn dumps_name_the_type_and_size() {
    assert_eq!(Value::Null.dump(), b"NULL\n");
    assert_eq!(Value::integer(-3).dump(), b"int(-3)\n");
    assert_eq!(Value::bool(true).dump(), b"bool(true)\n");
    assert_eq!(Value::bytes(b"hi".to_vec()).dump(), b"string(2) \"hi\"\n");
    assert_eq!(Value::vector(Type::Int, vec![Value::Null]).dump(), b"vector(1)\n");
    let mut heap = RequestHeap::new(None, None);
    let object = Value::try_object(&mut heap, ClassId(7), 0).unwrap();
    assert_eq!(object.dump(), b"object(class#7)\n");
    assert_eq!(object.type_label(), "object");
}

#[test]
fn equality_compares_collections_by_content_and_objects_by_identity() {
    let a = Value::vector(Type::Int, vec![Value::integer(1), Value::bytes(b"x".to_vec())]);
    let b = Value::vector(Type::Int, vec![Value::integer(1), Value::bytes(b"x".to_vec())]);
    let c = Value::vector(Type::Str, vec![Value::integer(1), Value::bytes(b"x".to_vec())]);
    assert!(a.equals(&b));
    assert!(!a.equals(&c));
    let mut heap = RequestHeap::new(None, None);
    let first = Value::try_object(&mut heap, ClassId(1), 0).unwrap();
    let second = Value::try_object(&mut heap, ClassId(1), 0).unwrap();
    assert!(first.equals(&first.clone()));
    assert!(!first.equals(&second));
}

#[test]
fn stream_writes_zero_fill_gaps_and_reads_advance() {
    let mut heap = RequestHeap::new(None, None);
    let stream = Value::try_stream(&mut heap, ClassId(4), b"abc".to_vec()).unwrap();
    assert_eq!(stream.stream_read(&mut heap, 2).unwrap(), b"ab");
    assert_eq!(stream.stream_tell(&heap).unwrap(), 2);
    stream.stream_seek(&mut heap, 5).unwrap();
    stream.stream_write_all(&mut heap, b"z").unwrap();
    stream.stream_seek(&mut heap, 0).unwrap();
    assert_eq!(stream.stream_read_all(&mut heap, None).unwrap(), b"abc\0\0z");
    assert_eq!(stream.stream_eof(&heap).unwrap(), true);
    stream.stream_seek(&mut heap, 0).unwrap();
    assert!(matches!(stream.stream_read_all(&mut heap, Some(3)),
        Err(RuntimeErrorKind::Io(m)) if m == "stream read limit exceeded"));
    assert_eq!(stream.stream_tell(&heap).unwrap(), 0);
    stream.stream_close(&mut heap).unwrap();
    assert_eq!(stream.stream_is_closed(&heap).unwrap(), true);
    assert!(matches!(stream.stream_tell(&heap),
        Err(RuntimeErrorKind::Io(m)) if m == "stream is closed"));
    assert!(matches!(Value::integer(1).stream_tell(&heap),
        Err(RuntimeErrorKind::TypeError(m)) if m == "stream operation requires a stream object"));
}

#[test]
fn suppressed_exceptions_and_targets() {
    let mut heap = RequestHeap::new(None, None);
    let primary = Value::try_exception(&mut heap, ClassId(2), b"main".to_vec(), Some(b"/tmp/x".to_vec()), 13).unwrap();
    let cleanup = Value::try_exception(&mut heap, ClassId(2), b"cleanup".to_vec(), None, 0).unwrap();
    primary.add_suppressed(&mut heap, cleanup.clone()).unwrap();
    let suppressed = primary.exception_suppressed(&heap).unwrap();
    assert_eq!(suppressed.len(), 1);
    assert!(suppressed[0].equals(&cleanup));
    assert_eq!(primary.exception_target(&heap).unwrap(), b"/tmp/x");
    assert_eq!(cleanup.exception_target(&heap).unwrap(), b"");
    assert_eq!(primary.exception_system_code(&heap).unwrap(), 13);
    assert_eq!(primary.exception_code(&heap).unwrap(), 13);
    assert!(matches!(Value::Null.exception_message(&heap),
        Err(RuntimeErrorKind::TypeError(m)) if m == "exception method requires an exception object"));
}

#[test]
fn appending_a_chain_that_leads_back_is_refused() {
    let mut heap = RequestHeap::new(None, None);
    let class = ClassId(10);
    let t = Value::try_throwable_object(&mut heap, class, 0).unwrap();
    let s = Value::try_throwable_object(&mut heap, class, 0).unwrap();
    let p = Value::try_throwable_object(&mut heap, class, 0).unwrap();
    s.initialize_exception(&mut heap, b"s".to_vec(), 0, Some(t.clone())).unwrap();
    p.initialize_exception(&mut heap, b"p".to_vec(), 0, Some(t.clone())).unwrap();
    let error = s.append_previous(&mut heap, p.clone()).unwrap_err();
    assert!(matches!(error, RuntimeErrorKind::TypeError(ref m) if m == "throwable previous chain is cyclic"));
    assert!(t.exception_previous(&heap).unwrap().is_null());
    assert!(p.exception_previous(&heap).unwrap().equals(&t));
    let q = Value::try_throwable_object(&mut heap, class, 0).unwrap();
    let error = q.append_previous(&mut heap, q.clone());
    assert!(error.is_ok());
    let lone = Value::try_throwable_object(&mut heap, class, 0).unwrap();
    s.append_previous(&mut heap, lone.clone()).unwrap();
    assert!(t.exception_previous(&heap).unwrap().equals(&lone));
}

#[test]
fn reads_past_the_end_are_empty_and_keep_the_cursor() {
    let mut heap = RequestHeap::new(None, None);
    let s = Value::try_stream(&mut heap, ClassId(4), b"ab".to_vec()).unwrap();
    s.stream_seek(&mut heap, 5).unwrap();
    assert_eq!(s.stream_read_all(&mut heap, None).unwrap(), Vec::<u8>::new());
    assert_eq!(s.stream_tell(&heap).unwrap(), 5);
    assert_eq!(s.stream_read(&mut heap, 3).unwrap(), Vec::<u8>::new());
    assert_eq!(s.stream_tell(&heap).unwrap(), 5);
    assert_eq!(s.stream_read_all(&mut heap, Some(0)).unwrap(), Vec::<u8>::new());
    assert!(s.stream_eof(&heap).unwrap());
}

#[test]
fn request_input_position_stays_within_consumed_bytes() {
    let (mut input, mut body) = RequestInput::from_bytes(b"abcdefgh".to_vec(), None, None).unwrap();
    assert_eq!(read_body(&mut input, &mut body, 3, 0).unwrap(), b"abc");
    assert!(input.position() <= input.consumed_bytes());
    let probe = read_body(&mut input, &mut body, 1, 0).unwrap();
    assert!(!input.settle_eof(probe));
    assert_eq!(input.position(), 3);
    assert!(input.position() <= input.consumed_bytes());
    assert!(read_all_body(&mut input, &mut body, Some(2)).is_err());
    assert_eq!(input.position(), 3);
    assert!(input.position() <= input.consumed_bytes());
    assert_eq!(read_all_body(&mut input, &mut body, None).unwrap(), b"defgh");
    assert_eq!(input.position(), 8);
    assert!(input.position() <= input.consumed_bytes());
}

#[test]
fn runtime_errors_collect_their_frames_innermost_first() {
    let mut error = RuntimeError::new(RuntimeErrorKind::AllocationFailure, Span { start: 3, end: 9 });
    assert!(error.trace.is_empty());
    error.push_frame("inner".to_owned(), Span { start: 10, end: 12 });
    error.push_frame("outer".to_owned(), Span { start: 0, end: 20 });
    assert_eq!(error.kind, RuntimeErrorKind::AllocationFailure);
    assert_eq!(error.span, Span { start: 3, end: 9 });
    assert_eq!(
        error.trace,
        vec![
            StackFrame { function: "inner".to_owned(), span: Span { start: 10, end: 12 } },
            StackFrame { function: "outer".to_owned(), span: Span { start: 0, end: 20 } },
        ]
    );
}

#[test]
fn scalars_print_canonically() {
    assert_eq!(Value::integer(-42).output_bytes(), Some(b"-42".to_vec()));
    assert_eq!(Value::integer(0).output_bytes(), Some(b"0".to_vec()));
    assert_eq!(Value::integer(i64::MIN).output_bytes(), Some(i64::MIN.to_string().into_bytes()));
    assert_eq!(Value::integer(i64::MAX).output_bytes(), Some(i64::MAX.to_string().into_bytes()));
    assert_eq!(Value::bool(true).output_bytes(), Some(b"true".to_vec()));
    assert_eq!(Value::bool(false).output_bytes(), Some(b"false".to_vec()));
    assert_eq!(Value::integer(7).type_label(), "int");
    assert_eq!(Value::bool(true).type_label(), "bool");
}

#[test]
fn temporary_streams_past_their_threshold_stop_charging_the_heap() {
    let mut heap = RequestHeap::new(Some(16), None);
    let spilling = Value::try_temp_stream(&mut heap, ClassId(4), 4).unwrap();
    spilling.stream_write_all(&mut heap, b"abc").unwrap();
    assert_eq!(heap.stats().current_bytes, 3);
    spilling.stream_write_all(&mut heap, b"defghijklmnopqrstuvwxyz").unwrap();
    assert_eq!(heap.stats().current_bytes, 0);
    spilling.stream_seek(&mut heap, 0).unwrap();
    assert_eq!(spilling.stream_read_all(&mut heap, None).unwrap(), b"abcdefghijklmnopqrstuvwxyz");
    let plain = Value::try_stream(&mut heap, ClassId(4), Vec::new()).unwrap();
    assert!(matches!(
        plain.stream_write_all(&mut heap, &[0; 20]),
        Err(RuntimeErrorKind::HeapLimit { limit: 16 })
    ));
    spilling.stream_close(&mut heap).unwrap();
    assert_eq!(heap.stats().current_bytes, 0);
}
