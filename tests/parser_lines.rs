use memtrack_utils::parser::{AllocationData, Error, Frame, Parser};

#[test]
fn test_read_trace_file() {
    let trace = "v 1 3\nX ./prog\ns 4 main\ns 8 a b c.rs\ni 1100 1 1 2 a\nt 1 0\na 8 1\n+ 0\n- 0\nc 5\nR 1000\n\n# strings: 2\n# ips: 1\n";
    let mut parser = Parser::new();
    for line in trace.lines() {
        parser.parse_line(line).unwrap();
    }
    let data = parser.into_data();
    println!("{:#?}", data.total);
    assert_eq!(data.strings, vec!["main".to_string(), "a b c.rs".to_string()]);
    assert_eq!(data.instruction_pointers.len(), 1);
    assert_eq!(data.traces.len(), 1);
    assert_eq!(data.total, AllocationData { allocations: 1, temporary: 1, leaked: 0, peak: 8 });
}

#[test]
fn instruction_frames_single_and_multiple() {
    let mut parser = Parser::new();
    parser.parse_line("i ff 2 1 2 3 4").unwrap();
    parser.parse_line("i 10 0 7").unwrap();
    let data = parser.into_data();
    let first = &data.instruction_pointers[0];
    assert_eq!(first.ip, 0xff);
    assert_eq!(first.module_idx, 2);
    assert_eq!(first.frame, Frame::Multiple { function_idx: 1, file_idx: 2, line_number: 3 });
    assert_eq!(first.inlined, vec![Frame::Single { function_idx: 4 }]);
    assert_eq!(data.instruction_pointers[1].frame, Frame::Single { function_idx: 7 });
    assert!(data.instruction_pointers[1].inlined.is_empty());
}

#[test]
fn string_keeps_inner_spaces() {
    let mut parser = Parser::new();
    parser.parse_line("s 7 a  b  c").unwrap();
    assert_eq!(parser.data().strings, vec!["a  b  c".to_string()]);
}

#[test]
fn malformed_lines_are_rejected() {
    let mut parser = Parser::new();
    assert_eq!(parser.parse_line("t 1"), Err(Error::InvalidFormat));
    assert_eq!(parser.parse_line("t 1 zz"), Err(Error::InvalidFormat));
    assert_eq!(parser.parse_line("i 1 2"), Err(Error::InvalidFormat));
    assert_eq!(parser.parse_line("s 20 short"), Err(Error::InvalidFormat));
    assert_eq!(parser.parse_line("c 10000000000000000"), Err(Error::InvalidFormat));
    assert_eq!(parser.parse_line("+"), Err(Error::InvalidFormat));
    assert!(parser.data().traces.is_empty());
}

#[test]
fn dangling_references_are_internal_errors() {
    let mut parser = Parser::new();
    assert_eq!(parser.parse_line("+ 0"), Err(Error::Internal));
    parser.parse_line("a 8 1").unwrap();
    assert_eq!(parser.parse_line("- 0"), Err(Error::Internal));
    assert_eq!(parser.parse_line("+ 5"), Err(Error::Internal));
}

#[test]
fn comments_blank_and_unknown_lines_are_ignored() {
    let mut parser = Parser::new();
    parser.parse_line("").unwrap();
    parser.parse_line("   ").unwrap();
    parser.parse_line("# strings: 3").unwrap();
    parser.parse_line("Z whatever").unwrap();
    let data = parser.into_data();
    assert!(data.strings.is_empty());
    assert_eq!(data.total, AllocationData { allocations: 0, temporary: 0, leaked: 0, peak: 0 });
}

#[test]
fn allocations_share_a_trace() {
    let mut parser = Parser::new();
    for line in ["a 8 5", "a 10 5", "a 4 6", "+ 0", "+ 1", "- 0", "+ 2"] {
        parser.parse_line(line).unwrap();
    }
    let data = parser.into_data();
    assert_eq!(data.allocations.len(), 2);
    assert_eq!(data.allocation_indices.get(&5), Some(&0));
    assert_eq!(data.allocation_indices.get(&6), Some(&1));
    assert_eq!(data.allocations[0].data, AllocationData { allocations: 2, temporary: 1, leaked: 16, peak: 24 });
    assert_eq!(data.allocations[1].data, AllocationData { allocations: 1, temporary: 0, leaked: 4, peak: 4 });
    assert_eq!(data.total, AllocationData { allocations: 3, temporary: 1, leaked: 20, peak: 24 });
}

#[test]
fn rss_keeps_the_maximum_and_page_info_is_stored() {
    let mut parser = Parser::new();
    for line in ["R 10", "R 5", "I 1000 20", "c A"] {
        parser.parse_line(line).unwrap();
    }
    let data = parser.into_data();
    assert_eq!(data.peak_rss, 16);
    assert_eq!(data.page_size, 4096);
    assert_eq!(data.pages, 32);
    assert_eq!(data.duration, 10);
}
