use nilsu::parser::{context_from_records, get_context, ParsedContext};
use nilsu::source_tree::parse_records;
use nilsu::syntax::NodeRecord;

fn rec(kind: &str, rows: (usize, usize), bytes: (usize, usize), parent: Option<usize>) -> NodeRecord {
    NodeRecord {
        kind: kind.to_string(),
        start_row: rows.0,
        end_row: rows.1,
        start_byte: bytes.0,
        end_byte: bytes.1,
        parent,
    }
}

const ATTRIBUTED: &str = "#[test]\nfn b() {}\n";

/// A shortened listing of ATTRIBUTED: the nodes the Rust grammar gives for it,
/// less the identifier inside the attribute and the children of the function.
fn attributed_records() -> Vec<NodeRecord> {
    vec![
        rec("source_file", (0, 2), (0, 18), None),
        rec("attribute_item", (0, 0), (0, 7), Some(0)),
        rec("#", (0, 0), (0, 1), Some(1)),
        rec("[", (0, 0), (1, 2), Some(1)),
        rec("attribute", (0, 0), (2, 6), Some(1)),
        rec("]", (0, 0), (6, 7), Some(1)),
        rec("function_item", (1, 1), (8, 17), Some(0)),
    ]
}

fn expect(ctx: Option<ParsedContext>, text: &str, start: usize, end: usize) {
    let ctx = ctx.expect("a context");
    assert_eq!(ctx.code_snippet, text);
    assert_eq!(ctx.start_line, start);
    assert_eq!(ctx.end_line, end);
}

#[test]
fn records_context_of_an_attribute_line_is_the_item() {
    expect(context_from_records(ATTRIBUTED, attributed_records(), 1), "fn b() {}", 2, 2);
}

#[test]
fn records_context_on_the_item_line() {
    expect(context_from_records(ATTRIBUTED, attributed_records(), 2), "fn b() {}", 2, 2);
}

#[test]
fn records_line_zero_reads_as_line_one() {
    expect(context_from_records(ATTRIBUTED, attributed_records(), 0), "fn b() {}", 2, 2);
}

#[test]
fn records_line_past_the_end_has_no_context() {
    assert!(context_from_records(ATTRIBUTED, attributed_records(), 3).is_none());
    assert!(context_from_records(ATTRIBUTED, attributed_records(), 40).is_none());
}

#[test]
fn records_that_are_not_a_tree_give_no_context() {
    let mut records = attributed_records();
    records[0].parent = Some(3);
    assert!(context_from_records(ATTRIBUTED, records, 1).is_none());
}

#[test]
fn records_with_bytes_outside_the_source_give_no_context() {
    let mut records = attributed_records();
    records[6].end_byte = 400;
    assert!(context_from_records(ATTRIBUTED, records, 2).is_none());
}

#[test]
fn records_with_bytes_inside_a_character_give_no_context() {
    // "é" takes two bytes; byte 1 is inside it.
    let source = "é\n";
    let records = vec![
        rec("source_file", (0, 1), (0, 3), None),
        rec("function_item", (0, 0), (1, 2), Some(0)),
    ];
    assert!(context_from_records(source, records, 1).is_none());
}

#[test]
fn records_with_reversed_bytes_give_no_context() {
    let mut records = attributed_records();
    records[6].start_byte = 17;
    records[6].end_byte = 8;
    assert!(context_from_records(ATTRIBUTED, records, 2).is_none());
}

#[test]
fn records_context_keeps_multibyte_text() {
    let source = "fn ü() {}\n";
    let records = vec![
        rec("source_file", (0, 1), (0, 11), None),
        rec("function_item", (0, 0), (0, 10), Some(0)),
    ];
    expect(context_from_records(source, records, 1), "fn ü() {}", 1, 1);
}

#[test]
fn parse_records_lists_the_source_file_first() {
    let records = parse_records("fn a() {}\n");
    assert_eq!(records[0].kind, "source_file");
    assert!(records[0].parent.is_none());
    for (i, r) in records.iter().enumerate().skip(1) {
        assert!(r.parent.unwrap() < i);
    }
    assert_eq!(records[1].kind, "function_item");
    assert_eq!((records[1].start_row, records[1].end_row), (0, 0));
    assert_eq!((records[1].start_byte, records[1].end_byte), (0, 9));
}

#[test]
fn parse_records_rows_count_line_feeds() {
    let source = "struct A;

fn b() {
}
";
    for r in parse_records(source) {
        assert!(r.start_byte <= r.end_byte && r.end_byte <= source.len());
        assert_eq!(r.start_row, source.as_bytes()[..r.start_byte].iter().filter(|b| **b == b'\n').count());
        assert_eq!(r.end_row, source.as_bytes()[..r.end_byte].iter().filter(|b| **b == b'\n').count());
    }
}

#[test]
fn parse_records_is_the_same_for_the_same_text() {
    let source = "impl S {\n    fn f() {}\n}\n";
    let (a, b) = (parse_records(source), parse_records(source));
    assert_eq!(a.len(), b.len());
    for (x, y) in a.iter().zip(b.iter()) {
        assert_eq!((&x.kind, x.start_byte, x.end_byte, x.parent), (&y.kind, y.start_byte, y.end_byte, y.parent));
    }
}

#[test]
fn get_context_finds_an_item_after_another_on_the_line() {
    expect(get_context("const C: u8 = 1; fn f() {\n}\n", 1), "fn f() {\n}", 1, 2);
}

#[test]
fn get_context_on_a_blank_line_between_items_is_none() {
    assert!(get_context("fn a() {}\n\nfn b() {}\n", 2).is_none());
    assert!(get_context("use std::fs;\nfn a() {}\n", 1).is_none());
}

#[test]
fn get_context_on_an_attribute_of_a_struct() {
    expect(get_context("#[derive(Debug)]\nstruct A {\n    x: u32,\n}\n", 1), "struct A {\n    x: u32,\n}", 2, 4);
}

#[test]
fn get_context_counts_several_attributes_with_their_item() {
    let source = "#[derive(Debug)]\n#[allow(dead_code)]\nstruct A;\n";
    expect(get_context(source, 1), "struct A;", 3, 3);
    expect(get_context(source, 2), "struct A;", 3, 3);
}

#[test]
fn get_context_on_an_attribute_inside_an_impl() {
    let source = "impl S {\n    #[inline]\n    fn f() {}\n}\n";
    expect(get_context(source, 2), "fn f() {}", 3, 3);
    expect(get_context(source, 4), "impl S {\n    #[inline]\n    fn f() {}\n}", 1, 4);
}

#[test]
fn get_context_finds_the_enclosing_function() {
    let source = "fn a() {\n    let x = 1;\n}\n";
    expect(get_context(source, 2), "fn a() {\n    let x = 1;\n}", 1, 3);
    expect(get_context(source, 1), "fn a() {\n    let x = 1;\n}", 1, 3);
}

#[test]
fn get_context_resolves_attributes_to_their_item() {
    expect(get_context(ATTRIBUTED, 1), "fn b() {}", 2, 2);
    expect(get_context("#[derive(Debug)]\nstruct S;\n", 1), "struct S;", 2, 2);
}

#[test]
fn get_context_picks_the_innermost_item() {
    let source = "impl S {\n    fn f(&self) {\n        g();\n    }\n}\n";
    expect(get_context(source, 3), "fn f(&self) {\n        g();\n    }", 2, 4);
    expect(get_context(source, 1), "impl S {\n    fn f(&self) {\n        g();\n    }\n}", 1, 5);
}

#[test]
fn get_context_in_a_module_trait_and_enum() {
    expect(get_context("mod m {\n    const C: u8 = 1;\n}\n", 2), "mod m {\n    const C: u8 = 1;\n}", 1, 3);
    expect(get_context("trait T {\n    type A;\n}\n", 2), "trait T {\n    type A;\n}", 1, 3);
    expect(get_context("enum E {\n    A,\n}\n", 2), "enum E {\n    A,\n}", 1, 3);
}

#[test]
fn get_context_outside_any_item_is_none() {
    assert!(get_context("use std::io;\n", 1).is_none());
    assert!(get_context("fn a() {}\n", 2).is_none());
    assert!(get_context("fn a() {}\n", 50).is_none());
    assert!(get_context("", 1).is_none());
}

#[test]
fn get_context_line_zero_reads_as_line_one() {
    expect(get_context("fn a() {}\n", 0), "fn a() {}", 1, 1);
}

#[test]
fn get_context_on_the_attribute_line_of_an_async_main() {
    let source = "mod config;\nmod server;\nmod parser;\n\n#[tokio::main]\nasync fn main() -> Result<(), Box<dyn std::error::Error>> {\n    Ok(())\n}\n";
    let ctx = get_context(source, 5).expect("a context");
    assert_eq!(ctx.start_line, 6);
    assert_eq!(ctx.end_line, 8);
    assert!(ctx.code_snippet.starts_with("async fn main()"));
    expect(get_context(source, 1), "mod config;", 1, 1);
}

#[test]
fn get_context_text_is_a_piece_of_the_source() {
    let source = "struct Ü {\n    ä: u8,\n}\nfn f() { let s = \"ö\"; }\n";
    for line in 0..6 {
        if let Some(ctx) = get_context(source, line) {
            assert!(source.contains(&ctx.code_snippet));
            assert!(ctx.start_line >= 1 && ctx.start_line <= ctx.end_line);
        }
    }
    expect(get_context(source, 4), "fn f() { let s = \"ö\"; }", 4, 4);
}

#[test]
fn get_context_is_the_same_for_the_same_text() {
    let source = "trait T {\n    fn f(&self);\n}\n";
    for line in 0..5 {
        let (a, b) = (get_context(source, line), get_context(source, line));
        assert_eq!(a.map(|c| (c.code_snippet, c.start_line, c.end_line)), b.map(|c| (c.code_snippet, c.start_line, c.end_line)));
    }
}

#[test]
fn get_context_takes_the_first_of_two_items_on_a_line() {
    expect(get_context("struct A; struct B;\n", 1), "struct A;", 1, 1);
    expect(get_context("impl S { fn f() {} } fn g() {}\n", 1), "fn f() {}", 1, 1);
}
