use memtrack_utils::output::{push_hex, Frame, Output};
use memtrack_utils::pointers::{PointerTable, SplitPointer, PAGE_SIZE};
use memtrack_utils::record::{frame_header, frame_length};
use memtrack_utils::resolver::{
    locations_from_frames, lookup_result, Error, Location, Module, RawFrame, Resolver,
};
use memtrack_utils::text::{parse_hex, token_spans};

#[test]
fn hex_digits() {
    let mut buf = Vec::new();
    push_hex(&mut buf, 0);
    buf.push(b' ');
    push_hex(&mut buf, 0xdeadbeef);
    buf.push(b' ');
    push_hex(&mut buf, u128::MAX);
    assert_eq!(String::from_utf8(buf).unwrap(), format!("0 deadbeef {:x}", u128::MAX));
}

#[test]
fn instruction_line_layout() {
    let mut out = Output::new();
    out.write_instruction(
        0x1100,
        3,
        &[
            Frame::Multiple { function_idx: 1, file_idx: 2, line_number: 0x2a },
            Frame::Single { function_idx: 12 },
        ],
    );
    out.write_trace(1, 0);
    out.write_comment("done");
    assert_eq!(String::from_utf8(out.flush()).unwrap(), "i 1100 3 1 2 2a c\nt 1 0\n# done\n");
}

#[test]
fn split_pointer_parts() {
    assert_eq!(PAGE_SIZE, 16383);
    let p = SplitPointer::new(0x0001_4000);
    assert_eq!(p.big, 0x0001_4000 / 16383);
    assert_eq!(p.small as u64, 0x0001_4000 % 16383);
}

#[test]
fn pointer_table_overwrite_and_take() {
    let mut table = PointerTable::new();
    table.add_pointer(100, 1);
    table.add_pointer(100, 2);
    table.add_pointer(100 + 16383, 3);
    assert_eq!(table.take_pointer(100), Some(2));
    assert_eq!(table.take_pointer(100), None);
    assert_eq!(table.take_pointer(100 + 16383), Some(3));
    assert_eq!(table.take_pointer(7), None);
}

#[test]
fn frame_header_little_endian() {
    assert_eq!(frame_length([0x34, 0x12]), 0x1234);
    assert_eq!(frame_header(0x1234), [0x34, 0x12]);
}

#[test]
fn tokens_and_hex() {
    let line = b"  + 1f\tAB  ";
    let spans = token_spans(line);
    assert_eq!(spans, vec![(2, 3), (4, 6), (7, 9)]);
    assert_eq!(parse_hex(line, 4, 6), Some(0x1f));
    assert_eq!(parse_hex(line, 7, 9), Some(0xab));
    assert_eq!(parse_hex(line, 2, 3), None);
    assert_eq!(parse_hex(b"ffffffffffffffff", 0, 16), Some(u64::MAX));
    assert_eq!(parse_hex(b"10000000000000000", 0, 17), None);
}

#[test]
fn demangled_symbol_location() {
    let l = Location::from_symbol("_ZN4core3fmt5write17h0123456789abcdefE");
    assert_eq!(l.function_name, "core::fmt::write::h0123456789abcdef");
    assert_eq!(l.file_name, None);
    assert_eq!(l.line_number, None);
}

#[test]
fn location_without_file_is_single() {
    let frames = vec![
        RawFrame { function: Some("main".to_string()), file: None, line: Some(3) },
        RawFrame { function: Some("_ZN3foo3barE".to_string()), file: Some("a.rs".to_string()), line: None },
    ];
    let locations = locations_from_frames(&frames).unwrap();
    assert_eq!(locations.len(), 2);
    assert_eq!(locations[0].function_name, "main");
    assert_eq!(locations[0].file_name, None);
    assert_eq!(locations[0].line_number, None);
    assert_eq!(locations[1].function_name, "foo::bar");
    assert_eq!(locations[1].file_name, Some("a.rs".to_string()));
    assert_eq!(locations[1].line_number, Some(0));
    let missing = vec![RawFrame { function: None, file: None, line: None }];
    assert!(locations_from_frames(&missing).is_none());
}

#[test]
fn module_bounds() {
    let m = Module::new(4, "lib".to_string(), 0x1000, 0x200);
    assert_eq!(m.start_address, 0x1000);
    assert_eq!(m.end_address, 0x1200);
}

#[test]
fn unknown_module_is_refused() {
    let mut resolver = Resolver::new();
    assert!(matches!(
        resolver.add_module(1, "/no/such/object", 0x1000, 0x1000),
        Err(Error::ModuleNotFound)
    ));
    assert!(matches!(resolver.add_module(1, "x", u64::MAX, 2), Err(Error::InvalidRange)));
    assert!(resolver.lookup(0x1100).is_none());
}

#[test]
fn empty_module_is_never_matched() {
    let mut resolver = Resolver::new();
    assert!(resolver.add_module(1, "/proc/self/exe", 0x1000, 0).is_ok());
    assert!(resolver.lookup(0x1000).is_none());
    assert!(resolver.add_module(2, "/proc/self/exe", 0x8000, 0x10).is_ok());
    assert!(resolver.lookup(0x8010).is_none());
    assert!(resolver.lookup(0x7fff).is_none());
}

#[test]
fn lookup_result_from_frames_or_symbol() {
    let frames = vec![
        RawFrame { function: Some("inner".to_string()), file: Some("a.rs".to_string()), line: Some(7) },
        RawFrame { function: Some("outer".to_string()), file: None, line: None },
    ];
    let r = lookup_result(3, &frames, Some("ignored".to_string())).unwrap();
    assert_eq!(r.module_id, 3);
    assert_eq!(r.locations.len(), 2);
    assert_eq!(r.locations[0].function_name, "inner");
    assert_eq!(r.locations[0].file_name, Some("a.rs".to_string()));
    assert_eq!(r.locations[0].line_number, Some(7));
    assert_eq!(r.locations[1].function_name, "outer");
    assert_eq!(r.locations[1].file_name, None);

    let r = lookup_result(4, &Vec::new(), Some("_ZN3foo3barE".to_string())).unwrap();
    assert_eq!(r.module_id, 4);
    assert_eq!(r.locations.len(), 1);
    assert_eq!(r.locations[0].function_name, "foo::bar");
    assert_eq!(r.locations[0].file_name, None);
    assert_eq!(r.locations[0].line_number, None);

    assert!(lookup_result(4, &Vec::new(), None).is_none());
    let nameless = vec![RawFrame { function: None, file: None, line: None }];
    assert!(lookup_result(4, &nameless, Some("main".to_string())).is_none());
}
