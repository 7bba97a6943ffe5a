use vstd::prelude::*;

use crate::syntax::{valid_records, NodeRecord};
use tree_sitter::Parser;
use vstd::utf8::{encode_utf8, is_char_boundary};

verus! {

/// The syntax tree that the Rust grammar of `tree_sitter_rust` gives for
/// `source`, listed in preorder: the root first, then each child's subtree in
/// the order of the children; each node with its kind, its start and end rows
/// and bytes, and the position of its parent in the listing.
pub uninterp spec fn rust_syntax_listing(source: Seq<char>) -> Seq<NodeRecord>;

/// The number of line feeds (byte `0x0A`) in `bytes`.
pub open spec fn newline_count(bytes: Seq<u8>) -> nat
    decreases bytes.len(),
{
    if bytes.len() == 0 {
        0
    } else {
        newline_count(bytes.drop_last()) + if bytes.last() == 10u8 {
            1nat
        } else {
            0nat
        }
    }
}

/// Every node of the listing lies within the UTF-8 text of `source`, ends no
/// earlier than it starts, starts and ends on character boundaries, and its
/// rows are the numbers of line feeds before its start and before its end.
pub open spec fn positions_agree(source: Seq<char>, t: Seq<NodeRecord>) -> bool {
    let bytes = encode_utf8(source);
    forall|i: int|
        0 <= i < t.len() ==> {
            &&& #[trigger] t[i].start_byte <= t[i].end_byte <= bytes.len()
            &&& is_char_boundary(bytes, t[i].start_byte as int)
            &&& is_char_boundary(bytes, t[i].end_byte as int)
            &&& t[i].start_row == newline_count(bytes.take(t[i].start_byte as int))
            &&& t[i].end_row == newline_count(bytes.take(t[i].end_byte as int))
        }
}

/// Parses `source` with `tree_sitter::Parser` set to `tree_sitter_rust::language`
/// and lists the tree in preorder, reading each node's `kind`,
/// `start_position`, `end_position`, `start_byte` and `end_byte`.
///
/// Claimed: the listing is the one [`rust_syntax_listing`] names, and it is a
/// tree in preorder (the walk lists the root first and each node after its
/// parent). For texts under 4 GiB (tree-sitter counts in 32 bits) the
/// positions agree with the text: the lexer moves one whole character at a
/// time, adds a row at each `'\n'`, and byte offsets grow with the text. The
/// grammar is always accepted (its version 14 lies within the library's 13 to
/// 14) and `parse` gives a tree whenever a language is set and
/// neither a timeout nor a cancellation flag is, and `child` gives a node for
/// every index below `child_count`, so the unwraps do not fail.
#[verifier::external_body]
fn parse_listing(source: &str) -> (listing: Vec<NodeRecord>)
    ensures
        listing@ == rust_syntax_listing(source@),
        valid_records(listing@),
        encode_utf8(source@).len() < 0x1_0000_0000 ==> positions_agree(source@, listing@),
{
    let mut parser = Parser::new();
    parser.set_language(tree_sitter_rust::language()).unwrap();
    let tree = parser.parse(source, None).unwrap();
    let (mut listing, mut pending) = (Vec::new(), vec![(tree.root_node(), None)]);
    while let Some((node, parent)) = pending.pop() {
        pending.extend((0..node.child_count()).rev().map(|i| (node.child(i).unwrap(), Some(listing.len()))));
        listing.push(NodeRecord { kind: node.kind().to_string(), start_row: node.start_position().row, end_row: node.end_position().row, start_byte: node.start_byte(), end_byte: node.end_byte(), parent });
    }
    listing
}

/// The preorder listing of the syntax tree of Rust source text.
pub fn parse_records(source: &str) -> (records: Vec<NodeRecord>)
    ensures
        records@ == rust_syntax_listing(source@),
        valid_records(records@),
        encode_utf8(source@).len() < 0x1_0000_0000 ==> positions_agree(source@, records@),
{
    parse_listing(source)
}

/// Counting line feeds up to `end` counts those up to `start` and those
/// between.
/// A text holds no more line feeds than bytes.
pub proof fn lemma_newline_count_bound(bytes: Seq<u8>)
    ensures
        newline_count(bytes) <= bytes.len(),
    decreases bytes.len(),
{
    if bytes.len() > 0 {
        lemma_newline_count_bound(bytes.drop_last());
    }
}

pub proof fn lemma_newline_count_split(bytes: Seq<u8>, start: int, end: int)
    requires
        0 <= start <= end <= bytes.len(),
    ensures
        newline_count(bytes.take(end)) == newline_count(bytes.take(start)) + newline_count(
            bytes.subrange(start, end),
        ),
    decreases end - start,
{
    if end > start {
        lemma_newline_count_split(bytes, start, end - 1);
        assert(bytes.take(end).drop_last() =~= bytes.take(end - 1));
        assert(bytes.subrange(start, end).drop_last() =~= bytes.subrange(start, end - 1));
    } else {
        assert(bytes.subrange(start, end) =~= Seq::<u8>::empty());
    }
}

} // verus!
