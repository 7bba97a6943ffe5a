use vstd::prelude::*;

use crate::source_tree::{
    lemma_newline_count_bound, lemma_newline_count_split, newline_count, parse_records, positions_agree, rust_syntax_listing,
};
use crate::syntax::{
    first_row_with_attributes, item_covers_row, law_narrowest_item,
    law_narrowest_item_is_an_item_on_the_row, narrowest_item, valid_records, NodeRecord, SyntaxTree,
};
use vstd::string::StringSliceAdditionalSpecFns;
use vstd::utf8::{decode_utf8, encode_utf8, is_char_boundary, valid_utf8};

verus! {

/// The context found for a cursor: the text of the enclosing item and its
/// first and last lines, counted from 1.
#[derive(Debug, Clone)]
pub struct ParsedContext {
    pub code_snippet: String,
    pub start_line: usize,
    pub end_line: usize,
}

/// A context read as (text, first line, last line).
pub open spec fn context_view(c: Option<ParsedContext>) -> Option<(Seq<char>, int, int)> {
    match c {
        Some(c) => Some((c.code_snippet@, c.start_line as int, c.end_line as int)),
        None => None,
    }
}

/// The text held by bytes `start..end` of the UTF-8 encoding of `source`, when
/// that range lies within the encoding and both its ends fall on character
/// boundaries.
pub open spec fn byte_range_text(source: Seq<char>, start: int, end: int) -> Option<Seq<char>> {
    let bytes = encode_utf8(source);
    if 0 <= start <= end <= bytes.len() && is_char_boundary(bytes, start) && is_char_boundary(
        bytes,
        end,
    ) {
        Some(decode_utf8(bytes.subrange(start, end)))
    } else {
        None
    }
}

/// The context of the zero-based row `row`: the narrowest item on the row
/// (its attributes counted with it), with its own text and one-based lines.
pub open spec fn context_at_row(source: Seq<char>, t: Seq<NodeRecord>, row: int) -> Option<
    (Seq<char>, int, int),
> {
    match narrowest_item(t, row) {
        None => None,
        Some(a) => match byte_range_text(source, t[a].start_byte as int, t[a].end_byte as int) {
            None => None,
            Some(text) => if t[a].start_row < usize::MAX && t[a].end_row < usize::MAX {
                Some((text, t[a].start_row + 1, t[a].end_row + 1))
            } else {
                None
            },
        },
    }
}

/// The zero-based row of a one-based cursor line; line 0 is read as line 1.
pub open spec fn cursor_row(cursor_line: int) -> int {
    if cursor_line > 0 {
        cursor_line - 1
    } else {
        0
    }
}

/// The context of a one-based cursor line in a tree listing; none when the
/// listing is not a tree.
pub open spec fn context_of_records(source: Seq<char>, t: Seq<NodeRecord>, cursor_line: int) -> Option<
    (Seq<char>, int, int),
> {
    if valid_records(t) {
        context_at_row(source, t, cursor_row(cursor_line))
    } else {
        None
    }
}

/// Byte `end` of `bytes` is a character boundary of the bytes from `start` on.
proof fn lemma_boundary_in_suffix(bytes: Seq<u8>, start: int, end: int)
    requires
        valid_utf8(bytes),
        0 <= start <= end <= bytes.len(),
        is_char_boundary(bytes, start),
        is_char_boundary(bytes, end),
    ensures
        valid_utf8(bytes.subrange(start, bytes.len() as int)),
        is_char_boundary(bytes.subrange(start, bytes.len() as int), end - start),
{
    let tail = bytes.subrange(start, bytes.len() as int);
    vstd::utf8::valid_utf8_split(bytes, start);
    if end - start == 0 {
        vstd::utf8::is_char_boundary_start_end_of_seq(tail);
    } else if end == bytes.len() {
        vstd::utf8::is_char_boundary_start_end_of_seq(tail);
    } else {
        vstd::utf8::is_char_boundary_iff_not_is_continuation_byte(bytes, end);
        vstd::utf8::is_char_boundary_iff_not_is_continuation_byte(tail, end - start);
        assert(tail[end - start] == bytes[end]);
    }
}

/// Bytes `start..end` of a source, when they hold text, cut the source into
/// three: what comes before, that text, and what comes after.
pub proof fn law_byte_range_text_is_source_piece(source: Seq<char>, start: int, end: int)
    ensures
        byte_range_text(source, start, end) matches Some(text) ==> exists|
            before: Seq<char>,
            after: Seq<char>,
        | source == before + text + after,
{
    let bytes = encode_utf8(source);
    vstd::utf8::encode_utf8_valid_utf8(source);
    if let Some(text) = byte_range_text(source, start, end) {
        let tail = bytes.subrange(start, bytes.len() as int);
        lemma_boundary_in_suffix(bytes, start, end);
        vstd::utf8::decode_utf8_split(bytes, start);
        vstd::utf8::decode_utf8_split(tail, end - start);
        assert(tail.subrange(0, end - start) =~= bytes.subrange(start, end));
        assert(tail.subrange(end - start, tail.len() as int) =~= bytes.subrange(
            end,
            bytes.len() as int,
        ));
        vstd::utf8::encode_utf8_decode_utf8(source);
        let before = decode_utf8(bytes.subrange(0, start));
        let after = decode_utf8(bytes.subrange(end, bytes.len() as int));
        assert(source =~= before + text + after);
    }
}

/// The text of a context found is a verbatim, contiguous piece of the source,
/// and its lines are counted from 1.
pub proof fn law_context_is_source_piece(source: Seq<char>, t: Seq<NodeRecord>, row: int)
    ensures
        context_at_row(source, t, row) is Some ==> {
            let (text, first, last) = context_at_row(source, t, row).unwrap();
            &&& first >= 1
            &&& last >= 1
            &&& exists|before: Seq<char>, after: Seq<char>| source == before + text + after
        },
{
    if let Some(a) = narrowest_item(t, row) {
        let (start, end) = (t[a].start_byte as int, t[a].end_byte as int);
        law_byte_range_text_is_source_piece(source, start, end);
        if let Some(text) = byte_range_text(source, start, end) {
            if t[a].start_row < usize::MAX && t[a].end_row < usize::MAX {
                let (found, first, last) = context_at_row(source, t, row).unwrap();
                assert(found == text && first >= 1 && last >= 1);
            }
        }
    }
}

/// Where the rows of the listing count the line feeds of the text, the lines
/// of a context do too: its first line is one more than the line feeds before
/// its text, and its last line adds the line feeds inside the text, so the
/// first line is never after the last.
pub proof fn law_context_lines_count_newlines(source: Seq<char>, t: Seq<NodeRecord>, row: int)
    requires
        positions_agree(source, t),
    ensures
        context_at_row(source, t, row) is Some ==> {
            let (text, first, last) = context_at_row(source, t, row).unwrap();
            let bytes = encode_utf8(source);
            &&& first <= last
            &&& exists|start: int, end: int|
                0 <= start <= end <= bytes.len() && is_char_boundary(bytes, start)
                    && is_char_boundary(bytes, end) && text == decode_utf8(
                    bytes.subrange(start, end),
                ) && first - 1 == newline_count(bytes.take(start)) && last - first
                    == newline_count(bytes.subrange(start, end))
        },
{
    law_narrowest_item(t, row);
    if let Some(a) = narrowest_item(t, row) {
        let bytes = encode_utf8(source);
        let (start, end) = (t[a].start_byte as int, t[a].end_byte as int);
        assert(t[a].start_byte <= t[a].end_byte <= bytes.len());
        lemma_newline_count_split(bytes, start, end);
        if let Some(text) = byte_range_text(source, start, end) {
            if t[a].start_row < usize::MAX && t[a].end_row < usize::MAX {
                let (found, first, last) = context_at_row(source, t, row).unwrap();
                assert(found == text && text == decode_utf8(bytes.subrange(start, end)));
                assert(is_char_boundary(bytes, start) && is_char_boundary(bytes, end));
                assert(first - 1 == newline_count(bytes.take(start)));
                assert(last - first == newline_count(bytes.subrange(start, end)));
            }
        }
    }
}

/// Where the listing is a tree whose positions agree with the text, a context
/// is found exactly when some item covers the row.
pub proof fn law_context_found_iff_item_covers(source: Seq<char>, t: Seq<NodeRecord>, row: int)
    requires
        valid_records(t),
        positions_agree(source, t),
        encode_utf8(source).len() < usize::MAX,
    ensures
        context_at_row(source, t, row) is None <==> forall|i: int|
            0 <= i < t.len() ==> !item_covers_row(t, i, row),
{
    law_narrowest_item(t, row);
    if let Some(a) = narrowest_item(t, row) {
        let bytes = encode_utf8(source);
        vstd::utf8::encode_utf8_valid_utf8(source);
        assert(t[a].start_byte <= t[a].end_byte <= bytes.len());
        assert(byte_range_text(source, t[a].start_byte as int, t[a].end_byte as int) is Some);
        lemma_newline_count_bound(bytes.take(t[a].start_byte as int));
        lemma_newline_count_bound(bytes.take(t[a].end_byte as int));
        assert(t[a].start_row < usize::MAX && t[a].end_row < usize::MAX);
    }
}

/// A context is the text and lines of one node of the listing, and that node
/// is a `function_item`, `impl_item`, `struct_item`, `enum_item`,
/// `trait_item` or `mod_item` whose rows, with its attributes, take in the
/// row.
pub proof fn law_context_is_an_item(source: Seq<char>, t: Seq<NodeRecord>, row: int)
    ensures
        context_at_row(source, t, row) is Some ==> {
            let (text, first, last) = context_at_row(source, t, row).unwrap();
            exists|a: int|
                0 <= a < t.len() && {
                    let k = #[trigger] t[a].kind@;
                    ||| k == "function_item"@
                    ||| k == "impl_item"@
                    ||| k == "struct_item"@
                    ||| k == "enum_item"@
                    ||| k == "trait_item"@
                    ||| k == "mod_item"@
                } && first_row_with_attributes(t, a) <= row <= t[a].end_row && byte_range_text(
                    source,
                    t[a].start_byte as int,
                    t[a].end_byte as int,
                ) == Some(text) && first == t[a].start_row + 1 && last == t[a].end_row + 1
        },
{
    law_narrowest_item_is_an_item_on_the_row(t, row);
    if let Some(a) = narrowest_item(t, row) {
        if let Some(text) = byte_range_text(source, t[a].start_byte as int, t[a].end_byte as int) {
            if t[a].start_row < usize::MAX && t[a].end_row < usize::MAX {
                let (found, first, last) = context_at_row(source, t, row).unwrap();
                assert(found == text && first == t[a].start_row + 1 && last == t[a].end_row + 1);
                assert(t[a].kind@ == t[a].kind@);
            }
        }
    }
}

/// Cursor lines are counted from 1; a cursor on line 0 is read as line 1.
pub proof fn law_line_zero_reads_as_line_one(source: Seq<char>, t: Seq<NodeRecord>)
    ensures
        context_of_records(source, t, 0) == context_of_records(source, t, 1),
{
}

/// The text of bytes `start..end` of `source` (see [`byte_range_text`]).
fn text_of_byte_range(source: &str, start: usize, end: usize) -> (r: Option<String>)
    ensures
        match r {
            Some(s) => byte_range_text(source@, start as int, end as int) == Some(s@),
            None => byte_range_text(source@, start as int, end as int) is None,
        },
{
    proof {
        vstd::utf8::encode_utf8_valid_utf8(source@);
    }
    if start <= end && source.is_char_boundary(start) && source.is_char_boundary(
        end,
    ) {
        let ghost bytes = encode_utf8(source@);
        proof {
            lemma_boundary_in_suffix(bytes, start as int, end as int);
        }
        let (_, tail) = source.split_at(start);
        proof {
            assert(tail.spec_bytes() =~= bytes.subrange(start as int, bytes.len() as int));
        }
        let (mid, _) = tail.split_at(end - start);
        proof {
            assert(mid.spec_bytes() =~= bytes.subrange(start as int, end as int));
            vstd::utf8::encode_utf8_decode_utf8(mid@);
        }
        let text = mid.to_owned();
        Some(text)
    } else {
        None
    }
}

/// The context of the one-based `cursor_line` in a syntax tree of `source`.
pub fn context_from_tree(tree: &SyntaxTree, source: &str, cursor_line: usize) -> (r: Option<
    ParsedContext,
>)
    requires
        tree.wf(),
    ensures
        context_view(r) == context_at_row(source@, tree@, cursor_row(cursor_line as int)),
{
    let row = cursor_line.saturating_sub(1);
    let item = match tree.find_narrowest_item(row) {
        Some(i) => i,
        None => return None,
    };
    let node = tree.node(item);
    let code_snippet = match text_of_byte_range(source, node.start_byte, node.end_byte) {
        Some(text) => text,
        None => return None,
    };
    let start_line = match node.start_row.checked_add(1) {
        Some(l) => l,
        None => return None,
    };
    let end_line = match node.end_row.checked_add(1) {
        Some(l) => l,
        None => return None,
    };
    Some(ParsedContext { code_snippet, start_line, end_line })
}

/// The context of the one-based `cursor_line` in `source`, given the preorder
/// listing of its syntax tree; `None` when the listing is not a tree.
pub fn context_from_records(source: &str, records: Vec<NodeRecord>, cursor_line: usize) -> (r:
    Option<ParsedContext>)
    ensures
        context_view(r) == context_of_records(source@, records@, cursor_line as int),
{
    match SyntaxTree::from_records(records) {
        Some(tree) => context_from_tree(&tree, source, cursor_line),
        None => None,
    }
}

/// Parses `source_code` as Rust and returns the context of the one-based
/// `cursor_line`: the narrowest item on the line, its attributes counted with
/// it, with its own text and lines.
pub fn get_context(source_code: &str, cursor_line: usize) -> (r: Option<ParsedContext>)
    ensures
        context_view(r) == context_of_records(
            source_code@,
            rust_syntax_listing(source_code@),
            cursor_line as int,
        ),
        r matches Some(c) ==> c.start_line >= 1 && c.end_line >= 1 && exists|
            before: Seq<char>,
            after: Seq<char>,
        | source_code@ == before + c.code_snippet@ + after,
        r matches Some(c) ==> exists|a: int|
            0 <= a < rust_syntax_listing(source_code@).len() && {
                let node = #[trigger] rust_syntax_listing(source_code@)[a];
                let k = node.kind@;
                &&& k == "function_item"@ || k == "impl_item"@ || k == "struct_item"@ || k
                    == "enum_item"@ || k == "trait_item"@ || k == "mod_item"@
                &&& byte_range_text(source_code@, node.start_byte as int, node.end_byte as int)
                    == Some(c.code_snippet@)
                &&& c.start_line == node.start_row + 1
                &&& c.end_line == node.end_row + 1
            },
        encode_utf8(source_code@).len() < 0x1_0000_0000 ==> (r matches Some(c) ==> {
            let bytes = encode_utf8(source_code@);
            &&& c.start_line <= c.end_line
            &&& exists|start: int, end: int|
                0 <= start <= end <= bytes.len() && c.code_snippet@ == decode_utf8(
                    bytes.subrange(start, end),
                ) && c.start_line - 1 == newline_count(bytes.take(start)) && c.end_line
                    - c.start_line == newline_count(bytes.subrange(start, end)) && is_char_boundary(
                    bytes,
                    start,
                ) && is_char_boundary(bytes, end)
        }),
        encode_utf8(source_code@).len() < 0x1_0000_0000 && encode_utf8(source_code@).len()
            < usize::MAX ==> (r is None <==> forall|i: int|
            0 <= i < rust_syntax_listing(source_code@).len() ==> !item_covers_row(
                rust_syntax_listing(source_code@),
                i,
                cursor_row(cursor_line as int),
            )),
{
    let records = parse_records(source_code);
    let ghost t = records@;
    let ghost row = cursor_row(cursor_line as int);
    let r = context_from_records(source_code, records, cursor_line);
    proof {
        law_context_is_source_piece(source_code@, t, row);
        law_context_is_an_item(source_code@, t, row);
        if encode_utf8(source_code@).len() < 0x1_0000_0000 {
            law_context_lines_count_newlines(source_code@, t, row);
            if encode_utf8(source_code@).len() < usize::MAX {
                law_context_found_iff_item_covers(source_code@, t, row);
            }
        }
    }
    r
}

} // verus!
