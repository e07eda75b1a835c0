use memtrack_utils::interpret::{Error, Interpreter, MemStats};
use memtrack_utils::parser::{AccumulatedData, AllocationData, Parser};
use memtrack_utils::record::Record;

fn run(records: Vec<Record>) -> (Interpreter, String) {
    let mut interpreter = Interpreter::new();
    for record in records {
        interpreter.handle_record(record).unwrap();
    }
    let text = String::from_utf8(interpreter.take_output()).unwrap();
    (interpreter, text)
}

fn parse(text: &str) -> AccumulatedData {
    let mut parser = Parser::new();
    for line in text.lines() {
        parser.parse_line(line).unwrap();
    }
    parser.into_data()
}

fn data(allocations: u64, temporary: u64, leaked: u64, peak: u64) -> AllocationData {
    AllocationData { allocations, temporary, leaked, peak }
}

#[test]
fn single_alloc_and_free() {
    let (_, text) = run(vec![
        Record::Version(1),
        Record::Alloc { ptr: 0xdead, size: 8, parent_idx: 1 },
        Record::Free { ptr: 0xdead },
        Record::Duration(5),
        Record::RSS(4096),
    ]);
    assert_eq!(text, "v 1 3\na 8 1\n+ 0\n- 0\nc 5\nR 1000\n");
    let parsed = parse(&text);
    assert_eq!(parsed.total, data(1, 1, 0, 8));
    assert_eq!(parsed.duration, 5);
    assert_eq!(parsed.peak_rss, 4096);
    assert_eq!(parsed.allocations.len(), 1);
    assert_eq!(parsed.allocations[0].data, data(1, 1, 0, 8));
}

#[test]
fn leak_without_free() {
    let (interpreter, text) = run(vec![
        Record::Version(1),
        Record::Alloc { ptr: 0xdead, size: 8, parent_idx: 1 },
        Record::Duration(5),
        Record::RSS(4096),
    ]);
    assert_eq!(parse(&text).total, data(1, 0, 8, 8));
    assert_eq!(
        interpreter.mem_stats(),
        MemStats { allocations: 1, leaked_allocations: 1, tmp_allocations: 0 }
    );
}

#[test]
fn non_temporary_free() {
    let (interpreter, text) = run(vec![
        Record::Alloc { ptr: 0xa000, size: 8, parent_idx: 1 },
        Record::Alloc { ptr: 0xb000, size: 16, parent_idx: 2 },
        Record::Free { ptr: 0xa000 },
    ]);
    assert_eq!(parse(&text).total, data(2, 0, 16, 24));
    assert_eq!(interpreter.mem_stats().tmp_allocations, 0);
    assert_eq!(interpreter.mem_stats().leaked_allocations, 1);
}

#[test]
fn free_of_unknown_pointer() {
    let (interpreter, text) = run(vec![
        Record::Alloc { ptr: 0xa000, size: 8, parent_idx: 1 },
        Record::Free { ptr: 0xf000 },
    ]);
    assert!(!text.lines().any(|l| l.starts_with("- ")));
    assert_eq!(parse(&text).total, data(1, 0, 8, 8));
    assert_eq!(
        interpreter.mem_stats(),
        MemStats { allocations: 1, leaked_allocations: 1, tmp_allocations: 0 }
    );
}

#[test]
fn free_of_unknown_pointer_clears_last() {
    let (interpreter, text) = run(vec![
        Record::Alloc { ptr: 0xa000, size: 8, parent_idx: 1 },
        Record::Free { ptr: 0xf000 },
        Record::Free { ptr: 0xa000 },
    ]);
    assert_eq!(interpreter.mem_stats().tmp_allocations, 0);
    // The reader keys its last allocation by trace, and 0 is also its empty value.
    assert_eq!(parse(&text).total, data(1, 1, 0, 8));
}

#[test]
fn signature_dedup() {
    let (_, text) = run(vec![
        Record::Alloc { ptr: 0xa000, size: 32, parent_idx: 2 },
        Record::Alloc { ptr: 0xb000, size: 32, parent_idx: 2 },
        Record::Alloc { ptr: 0xc000, size: 48, parent_idx: 2 },
    ]);
    assert_eq!(text, "a 20 2\n+ 0\n+ 0\na 30 2\n+ 1\n");
    assert_eq!(text.lines().filter(|l| l.starts_with("a 20 2")).count(), 1);
    assert_eq!(text.lines().filter(|l| l.starts_with("+ ")).count(), 3);
    let parsed = parse(&text);
    assert_eq!(parsed.allocations.len(), 1);
    assert_eq!(parsed.allocation_infos.len(), 2);
    assert_eq!(parsed.total, data(3, 0, 112, 112));
}

#[test]
fn colliding_low_parts() {
    let first = 0x0001_0000usize;
    let second = 0x0001_4000usize;
    let (interpreter, text) = run(vec![
        Record::Alloc { ptr: first, size: 8, parent_idx: 1 },
        Record::Alloc { ptr: second, size: 16, parent_idx: 1 },
        Record::Free { ptr: first },
    ]);
    assert_eq!(text, "a 8 1\n+ 0\na 10 1\n+ 1\n- 0\n");
    assert_eq!(interpreter.mem_stats().leaked_allocations, 1);
    let mut interpreter = interpreter;
    interpreter.handle_record(Record::Free { ptr: second }).unwrap();
    assert_eq!(String::from_utf8(interpreter.take_output()).unwrap(), "- 1\n");
    interpreter.handle_record(Record::Free { ptr: first }).unwrap();
    assert_eq!(interpreter.take_output().len(), 0);
}

#[test]
fn same_bucket_same_offset_pointers() {
    // Pointers one bucket span apart share their low part.
    let first = 0x3fff * 5 + 7;
    let second = 0x3fff * 6 + 7;
    let (mut interpreter, _) = run(vec![
        Record::Alloc { ptr: first, size: 8, parent_idx: 1 },
        Record::Alloc { ptr: second, size: 16, parent_idx: 1 },
    ]);
    interpreter.handle_record(Record::Free { ptr: first }).unwrap();
    assert_eq!(String::from_utf8(interpreter.take_output()).unwrap(), "- 0\n");
    interpreter.handle_record(Record::Free { ptr: second }).unwrap();
    assert_eq!(String::from_utf8(interpreter.take_output()).unwrap(), "- 1\n");
}

#[test]
fn plain_records_are_written() {
    let (_, text) = run(vec![
        Record::Version(0x1f),
        Record::Exec("prog --flag a b".to_string()),
        Record::PageInfo { size: 4096, pages: 255 },
        Record::Duration(0),
        Record::RSS(10),
    ]);
    assert_eq!(text, "v 1f 3\nX prog --flag a b\nI 1000 ff\nc 0\nR a\n");
}

#[test]
fn image_name_is_interned_once() {
    let (mut interpreter, text) = run(vec![
        Record::Image { name: "/no/such/lib one".to_string(), start_address: 0x1000, size: 0x1000 },
        Record::Image { name: "/no/such/lib one".to_string(), start_address: 0x9000, size: 0 },
    ]);
    assert_eq!(text, "s 10 /no/such/lib one\n");
    interpreter.write_comments();
    let tail = String::from_utf8(interpreter.take_output()).unwrap();
    assert_eq!(tail, "\n# strings: 1\n# ips: 0\n");
    let parsed = parse(&text);
    assert_eq!(parsed.strings, vec!["/no/such/lib one".to_string()]);
}

#[test]
fn unresolved_trace_fails() {
    let mut interpreter = Interpreter::new();
    assert_eq!(
        interpreter.handle_record(Record::Trace { ip: 0x1100, parent_idx: 0 }),
        Err(Error::LocationsNotFound)
    );
}

#[test]
fn write_string_returns_stable_references() {
    let mut interpreter = Interpreter::new();
    assert_eq!(interpreter.write_string("main"), 1);
    assert_eq!(interpreter.write_string("src/main.rs"), 2);
    assert_eq!(interpreter.write_string("main"), 1);
    let text = String::from_utf8(interpreter.take_output()).unwrap();
    assert_eq!(text, "s 4 main\ns b src/main.rs\n");
}

#[test]
fn round_trip_counts_alloc_lines() {
    let (_, text) = run(vec![
        Record::Alloc { ptr: 0x10, size: 1, parent_idx: 1 },
        Record::Alloc { ptr: 0x20, size: 2, parent_idx: 2 },
        Record::Free { ptr: 0x20 },
        Record::Alloc { ptr: 0x30, size: 4, parent_idx: 1 },
        Record::Free { ptr: 0x10 },
        Record::Alloc { ptr: 0x40, size: 8, parent_idx: 3 },
    ]);
    let plus = text.lines().filter(|l| l.starts_with("+ ")).count() as u64;
    let parsed = parse(&text);
    assert_eq!(parsed.total.allocations, plus);
    assert!(parsed.total.temporary <= parsed.total.allocations);
    assert_eq!(parsed.total.temporary, 2);
    assert_eq!(parsed.total.leaked, 12);
    assert_eq!(parsed.total.peak, 12);
}

#[test]
fn reallocated_pointer_keeps_earlier_bytes_live() {
    let (interpreter, text) = run(vec![
        Record::Alloc { ptr: 0x5000, size: 8, parent_idx: 1 },
        Record::Alloc { ptr: 0x5000, size: 16, parent_idx: 2 },
        Record::Free { ptr: 0x5000 },
        Record::Free { ptr: 0x5000 },
    ]);
    assert_eq!(text, "a 8 1\n+ 0\na 10 2\n+ 1\n- 1\n");
    assert_eq!(interpreter.mem_stats().tmp_allocations, 1);
    let parsed = parse(&text);
    assert_eq!(parsed.total.allocations, 2);
    assert_eq!(parsed.total.leaked, 8);
    assert_eq!(parsed.total.peak, 24);
}
