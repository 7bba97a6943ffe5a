use vstd::prelude::*;

verus! {

/// One node of a syntax tree as read from the parser, in preorder.
///
/// Rows and bytes are zero-based; `parent` is the position of the parent node
/// in the same preorder listing, absent for the root.
#[derive(Debug, Clone)]
pub struct NodeRecord {
    pub kind: String,
    pub start_row: usize,
    pub end_row: usize,
    pub start_byte: usize,
    pub end_byte: usize,
    pub parent: Option<usize>,
}

/// A preorder listing of a tree: it has a root, the root comes first and is the
/// only node without a parent, and every other node's parent comes before it.
/// Siblings are ordered by their position in the listing.
pub open spec fn valid_records(t: Seq<NodeRecord>) -> bool {
    &&& t.len() > 0
    &&& t[0].parent is None
    &&& forall|i: int| 0 < i < t.len() ==> (#[trigger] t[i].parent matches Some(p) && p < i)
}

/// Node `i` covers the zero-based row `line`.
pub open spec fn spans_line(t: Seq<NodeRecord>, i: int, line: int) -> bool {
    t[i].start_row <= line && line <= t[i].end_row
}

/// Node `j` is a child of node `p`.
pub open spec fn is_child(t: Seq<NodeRecord>, j: int, p: int) -> bool {
    t[j].parent matches Some(q) && q == p
}

/// The first child of `p`, at position `from` or later, that covers `line`.
pub open spec fn first_spanning_child_from(
    t: Seq<NodeRecord>,
    p: int,
    line: int,
    from: int,
) -> Option<int>
    decreases t.len() - from,
{
    if from >= t.len() {
        None
    } else if is_child(t, from, p) && spans_line(t, from, line) {
        Some(from)
    } else {
        first_spanning_child_from(t, p, line, from + 1)
    }
}

/// The first child of `p` that covers `line`.
pub open spec fn first_spanning_child(t: Seq<NodeRecord>, p: int, line: int) -> Option<int> {
    first_spanning_child_from(t, p, line, p + 1)
}

/// The node reached from `i` by stepping, while possible, into the first child
/// that covers `line`; absent when `i` itself does not cover `line`.
pub open spec fn first_covering_descent(t: Seq<NodeRecord>, i: int, line: int) -> Option<int>
    decreases t.len() - i,
{
    if !spans_line(t, i, line) {
        None
    } else {
        match first_spanning_child(t, i, line) {
            Some(c) => {
                proof {
                    lemma_first_spanning_child_from(t, i, line, i + 1);
                }
                first_covering_descent(t, c, line)
            },
            None => Some(i),
        }
    }
}

/// The first child of `p` at position `from` or later.
pub open spec fn next_child_from(t: Seq<NodeRecord>, p: int, from: int) -> Option<int>
    decreases t.len() - from,
{
    if from >= t.len() {
        None
    } else if is_child(t, from, p) {
        Some(from)
    } else {
        next_child_from(t, p, from + 1)
    }
}

/// The sibling that follows node `i` under the same parent.
pub open spec fn next_sibling(t: Seq<NodeRecord>, i: int) -> Option<int> {
    match t[i].parent {
        Some(p) => next_child_from(t, p as int, i + 1),
        None => None,
    }
}

pub open spec fn is_attribute_item(t: Seq<NodeRecord>, i: int) -> bool {
    t[i].kind@ == "attribute_item"@
}

/// From an attribute such as `#[derive(..)]`, the item it decorates: skip
/// attribute nodes forward along the siblings, stopping at the first node that
/// is not an attribute or that has no next sibling.
pub open spec fn resolve_item(t: Seq<NodeRecord>, i: int) -> int
    decreases t.len() - i,
{
    if is_attribute_item(t, i) {
        match next_sibling(t, i) {
            Some(s) => {
                proof {
                    lemma_next_sibling(t, i);
                }
                resolve_item(t, s)
            },
            None => i,
        }
    } else {
        i
    }
}

/// The kinds of nodes that make a context: items with a body of their own.
pub open spec fn is_meaningful_kind(kind: Seq<char>) -> bool {
    ||| kind == "function_item"@
    ||| kind == "impl_item"@
    ||| kind == "struct_item"@
    ||| kind == "enum_item"@
    ||| kind == "trait_item"@
    ||| kind == "mod_item"@
}

/// Walking up from node `i`, the first item of a meaningful kind, where each
/// node on the way is first resolved past the attributes that decorate it.
pub open spec fn meaningful_ancestor(t: Seq<NodeRecord>, i: int) -> Option<int>
    decreases i,
    when valid_records(t) && 0 <= i < t.len()
{
    let r = resolve_item(t, i);
    if is_meaningful_kind(t[r].kind@) {
        Some(r)
    } else {
        match t[i].parent {
            Some(p) => meaningful_ancestor(t, p as int),
            None => None,
        }
    }
}

/// An optional position, read as an integer.
pub open spec fn opt_index(r: Option<usize>) -> Option<int> {
    match r {
        Some(x) => Some(x as int),
        None => None,
    }
}

pub proof fn lemma_first_spanning_child_from(t: Seq<NodeRecord>, p: int, line: int, from: int)
    ensures
        match first_spanning_child_from(t, p, line, from) {
            Some(c) => from <= c < t.len() && is_child(t, c, p) && spans_line(t, c, line) && (
            forall|k: int| from <= k < c ==> !(is_child(t, k, p) && spans_line(t, k, line))),
            None => forall|k: int|
                from <= k < t.len() ==> !(is_child(t, k, p) && spans_line(t, k, line)),
        },
    decreases t.len() - from,
{
    if from < t.len() {
        lemma_first_spanning_child_from(t, p, line, from + 1);
    }
}

pub proof fn lemma_first_covering_descent_some_iff_spans(t: Seq<NodeRecord>, i: int, line: int)
    ensures
        first_covering_descent(t, i, line) is Some <==> spans_line(t, i, line),
    decreases t.len() - i,
{
    if spans_line(t, i, line) {
        lemma_first_spanning_child_from(t, i, line, i + 1);
        if let Some(c) = first_spanning_child(t, i, line) {
            lemma_first_covering_descent_some_iff_spans(t, c, line);
        }
    }
}

pub proof fn lemma_next_child_from(t: Seq<NodeRecord>, p: int, from: int)
    ensures
        match next_child_from(t, p, from) {
            Some(c) => from <= c < t.len() && is_child(t, c, p) && (forall|k: int|
                from <= k < c ==> !is_child(t, k, p)),
            None => forall|k: int| from <= k < t.len() ==> !is_child(t, k, p),
        },
    decreases t.len() - from,
{
    if from < t.len() {
        lemma_next_child_from(t, p, from + 1);
    }
}

pub proof fn lemma_next_sibling(t: Seq<NodeRecord>, i: int)
    ensures
        next_sibling(t, i) matches Some(s) ==> i < s < t.len() && t[s].parent == t[i].parent,
{
    if let Some(p) = t[i].parent {
        lemma_next_child_from(t, p as int, i + 1);
    }
}



/// Node `a` is node `d` or one of the nodes above it.
pub open spec fn is_ancestor_or_self(t: Seq<NodeRecord>, a: int, d: int) -> bool
    decreases d,
{
    d == a || (t[d].parent matches Some(p) && p < d && is_ancestor_or_self(t, a, p as int))
}

proof fn lemma_ancestor_through_child(t: Seq<NodeRecord>, i: int, c: int, r: int)
    requires
        0 <= i < c,
        is_child(t, c, i),
        is_ancestor_or_self(t, c, r),
    ensures
        is_ancestor_or_self(t, i, r),
    decreases r,
{
    assert(is_ancestor_or_self(t, i, i));
    if r != c {
        if let Some(p) = t[r].parent {
            assert(p < r && is_ancestor_or_self(t, c, p as int));
            lemma_ancestor_through_child(t, i, c, p as int);
            assert(is_ancestor_or_self(t, i, p as int));
        }
    } else {
        assert(is_child(t, c, i));
    }
}

/// The node where the first-child descent from `i` stops lies in the subtree
/// of `i`, covers `line`, and has no child that covers `line`. None is found
/// exactly when `i` itself does not cover `line`.
pub proof fn law_first_covering_descent(t: Seq<NodeRecord>, i: int, line: int)
    requires
        valid_records(t),
        0 <= i < t.len(),
    ensures
        first_covering_descent(t, i, line) is Some <==> spans_line(t, i, line),
        first_covering_descent(t, i, line) matches Some(r) ==> {
            &&& i <= r < t.len()
            &&& spans_line(t, r, line)
            &&& first_spanning_child(t, r, line) is None
            &&& is_ancestor_or_self(t, i, r)
        },
    decreases t.len() - i,
{
    lemma_first_covering_descent_some_iff_spans(t, i, line);
    if spans_line(t, i, line) {
        lemma_first_spanning_child_from(t, i, line, i + 1);
        if let Some(c) = first_spanning_child(t, i, line) {
            law_first_covering_descent(t, c, line);
            let r = first_covering_descent(t, c, line).unwrap();
            lemma_ancestor_through_child(t, i, c, r);
        } else {
            assert(is_ancestor_or_self(t, i, i));
        }
    }
}

/// Resolving a node past attributes stays among its later siblings, stops on
/// a node that is not an attribute or has no next sibling, and resolving again
/// changes nothing.
pub proof fn law_resolve_item(t: Seq<NodeRecord>, i: int)
    requires
        valid_records(t),
        0 <= i < t.len(),
    ensures
        ({
            let r = resolve_item(t, i);
            &&& r == i || (i < r < t.len() && t[r].parent == t[i].parent && t[i].parent is Some)
            &&& !is_attribute_item(t, r) || next_sibling(t, r) is None
            &&& resolve_item(t, r) == r
        }),
    decreases t.len() - i,
{
    if is_attribute_item(t, i) {
        lemma_next_sibling(t, i);
        if let Some(s) = next_sibling(t, i) {
            law_resolve_item(t, s);
        }
    }
}

/// A meaningful ancestor has a meaningful kind and is what some node at or
/// above `i` resolves to; when `i` itself resolves to a meaningful item, that
/// item is the answer.
pub proof fn law_meaningful_ancestor(t: Seq<NodeRecord>, i: int)
    requires
        valid_records(t),
        0 <= i < t.len(),
    ensures
        meaningful_ancestor(t, i) matches Some(r) ==> {
            &&& 0 <= r < t.len()
            &&& is_meaningful_kind(t[r].kind@)
            &&& exists|a: int|
                0 <= a <= i && is_ancestor_or_self(t, a, i) && #[trigger] resolve_item(t, a) == r
        },
        is_meaningful_kind(t[resolve_item(t, i)].kind@) ==> meaningful_ancestor(t, i) == Some(
            resolve_item(t, i),
        ),
    decreases i,
{
    law_resolve_item(t, i);
    assert(is_ancestor_or_self(t, i, i));
    let r = resolve_item(t, i);
    if !is_meaningful_kind(t[r].kind@) {
        if let Some(p) = t[i].parent {
            if i > 0 {
                assert(t[i].parent matches Some(q) && q < i);
            }
            law_meaningful_ancestor(t, p as int);
            if let Some(m) = meaningful_ancestor(t, p as int) {
                let a = choose|a: int|
                    0 <= a <= p && is_ancestor_or_self(t, a, p as int) && #[trigger] resolve_item(
                        t,
                        a,
                    ) == m;
                assert(is_ancestor_or_self(t, a, i));
            }
        }
    }
}

/// The last child of `p` before position `k`.
pub open spec fn prev_child_before(t: Seq<NodeRecord>, p: int, k: int) -> Option<int>
    decreases k,
{
    if k <= 0 {
        None
    } else if is_child(t, k - 1, p) {
        Some(k - 1)
    } else {
        prev_child_before(t, p, k - 1)
    }
}

/// The sibling that comes just before node `i` under the same parent.
pub open spec fn prev_sibling(t: Seq<NodeRecord>, i: int) -> Option<int> {
    match t[i].parent {
        Some(p) => prev_child_before(t, p as int, i),
        None => None,
    }
}

pub proof fn lemma_prev_child_before(t: Seq<NodeRecord>, p: int, k: int)
    ensures
        match prev_child_before(t, p, k) {
            Some(j) => 0 <= j < k && is_child(t, j, p) && (forall|m: int|
                j < m < k ==> !is_child(t, m, p)),
            None => forall|m: int| 0 <= m < k ==> !is_child(t, m, p),
        },
    decreases k,
{
    if k > 0 {
        lemma_prev_child_before(t, p, k - 1);
    }
}

/// The first row of node `i` taken together with the attributes that directly
/// precede it among its siblings, such as `#[derive(..)]` above an item.
pub open spec fn first_row_with_attributes(t: Seq<NodeRecord>, i: int) -> int
    decreases i,
{
    match prev_sibling(t, i) {
        Some(j) => if is_attribute_item(t, j) {
            proof {
                if let Some(p) = t[i].parent {
                    lemma_prev_child_before(t, p as int, i);
                }
            }
            first_row_with_attributes(t, j)
        } else {
            t[i].start_row as int
        },
        None => t[i].start_row as int,
    }
}

/// Node `i` is an item of a meaningful kind whose rows, its attributes
/// included, take in `row`.
pub open spec fn item_covers_row(t: Seq<NodeRecord>, i: int, row: int) -> bool {
    &&& is_meaningful_kind(t[i].kind@)
    &&& first_row_with_attributes(t, i) <= row <= t[i].end_row
}

/// The last node before position `k` that is an item covering `row`.
pub open spec fn last_item_covering_before(t: Seq<NodeRecord>, row: int, k: int) -> Option<int>
    decreases k,
{
    if k <= 0 {
        None
    } else if item_covers_row(t, k - 1, row) {
        Some(k - 1)
    } else {
        last_item_covering_before(t, row, k - 1)
    }
}

/// Node `i` is an item covering `row`, and no item inside it covers `row`.
pub open spec fn is_innermost_covering(t: Seq<NodeRecord>, i: int, row: int) -> bool {
    &&& item_covers_row(t, i, row)
    &&& forall|d: int|
        0 <= d < t.len() && d != i && #[trigger] is_ancestor_or_self(t, i, d)
            ==> !item_covers_row(t, d, row)
}

/// The first node at position `k` or later that is an innermost item
/// covering `row`.
pub open spec fn first_innermost_from(t: Seq<NodeRecord>, row: int, k: int) -> Option<int>
    decreases t.len() - k,
{
    if k >= t.len() {
        None
    } else if is_innermost_covering(t, k, row) {
        Some(k)
    } else {
        first_innermost_from(t, row, k + 1)
    }
}

/// The narrowest item on `row`: of the items covering `row` with no covering
/// item inside them, the first in the listing (see [`law_narrowest_item`]).
pub open spec fn narrowest_item(t: Seq<NodeRecord>, row: int) -> Option<int> {
    first_innermost_from(t, row, 0)
}

pub proof fn lemma_first_innermost_from(t: Seq<NodeRecord>, row: int, k: int)
    requires
        0 <= k,
    ensures
        match first_innermost_from(t, row, k) {
            Some(j) => k <= j < t.len() && is_innermost_covering(t, j, row) && (forall|m: int|
                k <= m < j ==> !is_innermost_covering(t, m, row)),
            None => forall|m: int| k <= m < t.len() ==> !is_innermost_covering(t, m, row),
        },
    decreases t.len() - k,
{
    if k < t.len() {
        lemma_first_innermost_from(t, row, k + 1);
    }
}

pub proof fn lemma_last_item_covering_before(t: Seq<NodeRecord>, row: int, k: int)
    ensures
        match last_item_covering_before(t, row, k) {
            Some(j) => 0 <= j < k && item_covers_row(t, j, row) && (forall|m: int|
                j < m < k ==> !item_covers_row(t, m, row)),
            None => forall|m: int| 0 <= m < k ==> !item_covers_row(t, m, row),
        },
    decreases k,
{
    if k > 0 {
        lemma_last_item_covering_before(t, row, k - 1);
    }
}

/// An ancestor comes no later than its descendant.
pub proof fn lemma_ancestor_comes_first(t: Seq<NodeRecord>, a: int, d: int)
    requires
        is_ancestor_or_self(t, a, d),
    ensures
        a <= d,
    decreases d,
{
    if d != a {
        if let Some(p) = t[d].parent {
            lemma_ancestor_comes_first(t, a, p as int);
        }
    }
}

/// The narrowest item on a row covers the row and no item inside it does, and
/// no item before it in the listing is such an innermost covering item; none
/// is found exactly when no item covers the row.
pub proof fn law_narrowest_item(t: Seq<NodeRecord>, row: int)
    ensures
        narrowest_item(t, row) is None <==> forall|i: int|
            0 <= i < t.len() ==> !item_covers_row(t, i, row),
        narrowest_item(t, row) matches Some(n) ==> {
            &&& 0 <= n < t.len()
            &&& is_innermost_covering(t, n, row)
            &&& forall|m: int| 0 <= m < n ==> !is_innermost_covering(t, m, row)
        },
{
    lemma_first_innermost_from(t, row, 0);
    lemma_last_item_covering_before(t, row, t.len() as int);
    if let Some(l) = last_item_covering_before(t, row, t.len() as int) {
        assert forall|d: int|
            0 <= d < t.len() && d != l && #[trigger] is_ancestor_or_self(t, l, d) implies !item_covers_row(
            t,
            d,
            row,
        ) by {
            lemma_ancestor_comes_first(t, l, d);
        }
        assert(is_innermost_covering(t, l, row));
    }
}

/// Where the positions before `j` hold no innermost covering item and `j`
/// holds one, the search from any earlier position finds `j`; with none up to
/// the end, it finds nothing.
proof fn lemma_first_innermost_is(t: Seq<NodeRecord>, row: int, k: int, j: int)
    requires
        0 <= k <= j <= t.len(),
        forall|m: int| k <= m < j ==> !is_innermost_covering(t, m, row),
    ensures
        j < t.len() && is_innermost_covering(t, j, row) ==> first_innermost_from(t, row, k)
            == Some(j),
        j == t.len() ==> first_innermost_from(t, row, k) is None,
    decreases j - k,
{
    if k < j {
        lemma_first_innermost_is(t, row, k + 1, j);
    }
}

/// Any listing whose root comes first, alone without a parent, and whose
/// every other node names an earlier parent is a tree, whatever its length.
pub proof fn law_valid_records_any_length(t: Seq<NodeRecord>)
    requires
        t.len() > 0,
        t[0].parent is None,
        forall|i: int| 0 < i < t.len() ==> (#[trigger] t[i].parent matches Some(p) && p < i),
    ensures
        valid_records(t),
{
}

/// Resolving node `i` past attributes moves only forward along `i`'s
/// siblings and only over `attribute_item` nodes: every sibling from `i` up
/// to the result is an `attribute_item`, and the result is an
/// `attribute_item` only when no later sibling follows it.
pub proof fn law_resolve_item_stops_at_decorated_item(t: Seq<NodeRecord>, i: int)
    requires
        valid_records(t),
        0 <= i < t.len(),
    ensures
        ({
            let r = resolve_item(t, i);
            &&& i <= r < t.len()
            &&& t[r].parent == t[i].parent
            &&& forall|j: int|
                i <= j < r && #[trigger] t[j].parent == t[i].parent ==> t[j].kind@
                    == "attribute_item"@
            &&& t[r].kind@ == "attribute_item"@ ==> forall|j: int|
                r < j < t.len() ==> #[trigger] t[j].parent != t[r].parent
        }),
    decreases t.len() - i,
{
    let r = resolve_item(t, i);
    if t[i].kind@ == "attribute_item"@ {
        lemma_next_sibling(t, i);
        match next_sibling(t, i) {
            Some(s) => {
                if let Some(p) = t[i].parent {
                    lemma_next_child_from(t, p as int, i + 1);
                }
                law_resolve_item_stops_at_decorated_item(t, s);
                assert forall|j: int|
                    i <= j < r && #[trigger] t[j].parent == t[i].parent implies t[j].kind@
                        == "attribute_item"@ by {
                    if i < j < s {
                        assert(is_child(t, j, t[i].parent.unwrap() as int));
                    }
                }
            },
            None => {
                if let Some(p) = t[i].parent {
                    lemma_next_child_from(t, p as int, i + 1);
                    assert forall|j: int| r < j < t.len() implies #[trigger] t[j].parent
                        != t[r].parent by {
                        if t[j].parent == t[r].parent {
                            assert(is_child(t, j, p as int));
                        }
                    }
                } else {
                    assert forall|j: int| r < j < t.len() implies #[trigger] t[j].parent
                        != t[r].parent by {
                        assert(t[j].parent matches Some(q) && q < j);
                    }
                }
            },
        }
    }
}

/// Where some node at or above `i` resolves to an item of one of the six
/// context kinds, the walk up from `i` finds one.
proof fn lemma_meaningful_ancestor_exists(t: Seq<NodeRecord>, i: int, a: int)
    requires
        valid_records(t),
        0 <= i < t.len(),
        0 <= a,
        is_ancestor_or_self(t, a, i),
        ({
            let k = t[resolve_item(t, a)].kind@;
            ||| k == "function_item"@
            ||| k == "impl_item"@
            ||| k == "struct_item"@
            ||| k == "enum_item"@
            ||| k == "trait_item"@
            ||| k == "mod_item"@
        }),
    ensures
        meaningful_ancestor(t, i) is Some,
    decreases i,
{
    if !is_meaningful_kind(t[resolve_item(t, i)].kind@) {
        assert(a != i);
        let p = t[i].parent.unwrap() as int;
        lemma_meaningful_ancestor_exists(t, p, a);
    }
}

/// The walk up from `i` answers with the nearest node at or above `i` that
/// resolves to an item of one of the six context kinds.
proof fn lemma_meaningful_ancestor_nearest(t: Seq<NodeRecord>, i: int)
    requires
        valid_records(t),
        0 <= i < t.len(),
    ensures
        meaningful_ancestor(t, i) matches Some(r) ==> exists|a: int|
            0 <= a <= i && is_ancestor_or_self(t, a, i) && #[trigger] resolve_item(t, a) == r
                && is_meaningful_kind(t[r].kind@) && forall|b: int|
                0 <= b < t.len() && b != a && is_ancestor_or_self(t, a, b)
                    && #[trigger] is_ancestor_or_self(t, b, i) ==> !is_meaningful_kind(
                    t[resolve_item(t, b)].kind@,
                ),
    decreases i,
{
    assert(is_ancestor_or_self(t, i, i));
    if is_meaningful_kind(t[resolve_item(t, i)].kind@) {
        assert forall|b: int|
            0 <= b < t.len() && b != i && is_ancestor_or_self(t, i, b)
                && #[trigger] is_ancestor_or_self(t, b, i) implies !is_meaningful_kind(
            t[resolve_item(t, b)].kind@,
        ) by {
            lemma_ancestor_comes_first(t, i, b);
            lemma_ancestor_comes_first(t, b, i);
        }
    } else if let Some(p) = t[i].parent {
        if i > 0 {
            assert(t[i].parent matches Some(q) && q < i);
        }
        lemma_meaningful_ancestor_nearest(t, p as int);
        if let Some(r) = meaningful_ancestor(t, p as int) {
            let a = choose|a: int|
                0 <= a <= p && is_ancestor_or_self(t, a, p as int) && #[trigger] resolve_item(t, a)
                    == r && is_meaningful_kind(t[r].kind@) && forall|b: int|
                    0 <= b < t.len() && b != a && is_ancestor_or_self(t, a, b)
                        && #[trigger] is_ancestor_or_self(t, b, p as int) ==> !is_meaningful_kind(
                        t[resolve_item(t, b)].kind@,
                    );
            assert(is_ancestor_or_self(t, a, i));
            assert forall|b: int|
                0 <= b < t.len() && b != a && is_ancestor_or_self(t, a, b)
                    && #[trigger] is_ancestor_or_self(t, b, i) implies !is_meaningful_kind(
                t[resolve_item(t, b)].kind@,
            ) by {
                if b != i {
                    assert(is_ancestor_or_self(t, b, p as int));
                }
            }
        }
    }
}

/// The walk up from node `i` finds an item exactly when some node at or above
/// `i` resolves to a `function_item`, `impl_item`, `struct_item`,
/// `enum_item`, `trait_item` or `mod_item`; what it finds is of one of these
/// kinds, and is what the nearest such node resolves to: no node between `i`
/// and that node resolves to one.
pub proof fn law_meaningful_ancestor_is_nearest(t: Seq<NodeRecord>, i: int)
    requires
        valid_records(t),
        0 <= i < t.len(),
    ensures
        (exists|a: int|
            0 <= a && is_ancestor_or_self(t, a, i) && {
                let k = #[trigger] t[resolve_item(t, a)].kind@;
                ||| k == "function_item"@
                ||| k == "impl_item"@
                ||| k == "struct_item"@
                ||| k == "enum_item"@
                ||| k == "trait_item"@
                ||| k == "mod_item"@
            }) ==> meaningful_ancestor(t, i) is Some,
        meaningful_ancestor(t, i) matches Some(r) ==> exists|a: int|
            0 <= a <= i && is_ancestor_or_self(t, a, i) && #[trigger] resolve_item(t, a) == r && {
                let k = t[r].kind@;
                ||| k == "function_item"@
                ||| k == "impl_item"@
                ||| k == "struct_item"@
                ||| k == "enum_item"@
                ||| k == "trait_item"@
                ||| k == "mod_item"@
            } && forall|b: int|
                0 <= b < t.len() && b != a && is_ancestor_or_self(t, a, b)
                    && #[trigger] is_ancestor_or_self(t, b, i) ==> {
                    let k = t[resolve_item(t, b)].kind@;
                    &&& k != "function_item"@
                    &&& k != "impl_item"@
                    &&& k != "struct_item"@
                    &&& k != "enum_item"@
                    &&& k != "trait_item"@
                    &&& k != "mod_item"@
                },
{
    if exists|a: int|
        0 <= a && is_ancestor_or_self(t, a, i) && {
            let k = #[trigger] t[resolve_item(t, a)].kind@;
            ||| k == "function_item"@
            ||| k == "impl_item"@
            ||| k == "struct_item"@
            ||| k == "enum_item"@
            ||| k == "trait_item"@
            ||| k == "mod_item"@
        } {
        let a = choose|a: int|
            0 <= a && is_ancestor_or_self(t, a, i) && {
                let k = #[trigger] t[resolve_item(t, a)].kind@;
                ||| k == "function_item"@
                ||| k == "impl_item"@
                ||| k == "struct_item"@
                ||| k == "enum_item"@
                ||| k == "trait_item"@
                ||| k == "mod_item"@
            };
        lemma_meaningful_ancestor_exists(t, i, a);
    }
    lemma_meaningful_ancestor_nearest(t, i);
}

/// The narrowest item on a row is a `function_item`, `impl_item`,
/// `struct_item`, `enum_item`, `trait_item` or `mod_item` whose rows, from
/// the attributes directly before it to its end, take in the row.
pub proof fn law_narrowest_item_is_an_item_on_the_row(t: Seq<NodeRecord>, row: int)
    ensures
        narrowest_item(t, row) matches Some(n) ==> {
            let k = t[n].kind@;
            &&& 0 <= n < t.len()
            &&& first_row_with_attributes(t, n) <= row <= t[n].end_row
            &&& {
                ||| k == "function_item"@
                ||| k == "impl_item"@
                ||| k == "struct_item"@
                ||| k == "enum_item"@
                ||| k == "trait_item"@
                ||| k == "mod_item"@
            }
        },
{
    law_narrowest_item(t, row);
}

/// A syntax tree held as its preorder listing of nodes.
pub struct SyntaxTree {
    nodes: Vec<NodeRecord>,
}

impl View for SyntaxTree {
    type V = Seq<NodeRecord>;

    closed spec fn view(&self) -> Seq<NodeRecord> {
        self.nodes@
    }
}

impl SyntaxTree {
    /// The listing is a tree in preorder.
    pub open spec fn wf(&self) -> bool {
        valid_records(self@)
    }

    /// Accepts the listing exactly when it is a tree in preorder.
    pub fn from_records(records: Vec<NodeRecord>) -> (r: Option<SyntaxTree>)
        ensures
            r is Some <==> valid_records(records@),
            r matches Some(tree) ==> tree@ == records@ && tree.wf(),
    {
        let n = records.len();
        if n == 0 {
            return None;
        }
        if records[0].parent.is_some() {
            return None;
        }
        let mut i: usize = 1;
        while i < n
            invariant
                1 <= i <= n,
                n == records@.len(),
                records@[0].parent is None,
                forall|k: int| 0 < k < i ==> (#[trigger] records@[k].parent matches Some(p) && p < k),
            decreases n - i,
        {
            match records[i].parent {
                Some(p) => {
                    if p >= i {
                        return None;
                    }
                },
                None => {
                    return None;
                },
            }
            i = i + 1;
        }
        Some(SyntaxTree { nodes: records })
    }

    /// The number of nodes.
    pub fn len(&self) -> (n: usize)
        ensures
            n == self@.len(),
    {
        self.nodes.len()
    }

    /// The node at position `i`.
    pub fn node(&self, i: usize) -> (r: &NodeRecord)
        requires
            i < self@.len(),
        ensures
            *r == self@[i as int],
    {
        &self.nodes[i]
    }

    fn has_kind(&self, i: usize, kind: &str) -> (b: bool)
        requires
            i < self@.len(),
        ensures
            b == (self@[i as int].kind@ == kind@),
    {
        let expected = kind.to_owned();
        self.nodes[i].kind == expected
    }

    fn is_child(&self, j: usize, p: usize) -> (b: bool)
        requires
            j < self@.len(),
        ensures
            b == is_child(self@, j as int, p as int),
    {
        match self.nodes[j].parent {
            Some(q) => q == p,
            None => false,
        }
    }

    /// The sibling that follows `node` under the same parent.
    pub fn next_sibling(&self, node: usize) -> (r: Option<usize>)
        requires
            node < self@.len(),
        ensures
            opt_index(r) == next_sibling(self@, node as int),
    {
        let n = self.nodes.len();
        match self.nodes[node].parent {
            None => None,
            Some(p) => {
                let mut j = node + 1;
                while j < n
                    invariant
                        node < j <= n,
                        n == self@.len(),
                        self@[node as int].parent == Some(p),
                        next_child_from(self@, p as int, node + 1) == next_child_from(
                            self@,
                            p as int,
                            j as int,
                        ),
                    decreases n - j,
                {
                    if self.is_child(j, p) {
                        return Some(j);
                    }
                    j = j + 1;
                }
                None
            },
        }
    }

    /// From `node`, the node reached by stepping, while possible, into the first
    /// child that covers the zero-based row `line`; `None` when `node` does not
    /// cover `line`.
    pub fn find_smallest_node_containing_line(&self, node: usize, line: usize) -> (r: Option<
        usize,
    >)
        requires
            self.wf(),
            node < self@.len(),
        ensures
            opt_index(r) == first_covering_descent(self@, node as int, line as int),
            r matches Some(x) ==> x < self@.len(),
        decreases self@.len() - node,
    {
        let start_row = self.nodes[node].start_row;
        let end_row = self.nodes[node].end_row;
        if start_row <= line && end_row >= line {
            let n = self.nodes.len();
            let mut j = node + 1;
            while j < n
                invariant
                    node < j <= n,
                    n == self@.len(),
                    self.wf(),
                    spans_line(self@, node as int, line as int),
                    first_spanning_child(self@, node as int, line as int)
                        == first_spanning_child_from(self@, node as int, line as int, j as int),
                decreases n - j,
            {
                proof {
                    lemma_first_covering_descent_some_iff_spans(self@, j as int, line as int);
                }
                if self.is_child(j, node) {
                    if let Some(found) = self.find_smallest_node_containing_line(j, line) {
                        return Some(found);
                    }
                }
                j = j + 1;
            }
            Some(node)
        } else {
            None
        }
    }

    /// From an attribute node, the item it decorates (see [`resolve_item`]).
    pub fn resolve_item(&self, node: usize) -> (r: usize)
        requires
            node < self@.len(),
        ensures
            r == resolve_item(self@, node as int),
            r < self@.len(),
    {
        let mut cur = node;
        loop
            invariant
                cur < self@.len(),
                resolve_item(self@, cur as int) == resolve_item(self@, node as int),
            decreases self@.len() - cur,
        {
            if !self.has_kind(cur, "attribute_item") {
                return cur;
            }
            match self.next_sibling(cur) {
                Some(s) => {
                    proof {
                        lemma_next_sibling(self@, cur as int);
                    }
                    cur = s;
                },
                None => {
                    return cur;
                },
            }
        }
    }

    fn is_meaningful(&self, i: usize) -> (b: bool)
        requires
            i < self@.len(),
        ensures
            b == is_meaningful_kind(self@[i as int].kind@),
    {
        self.has_kind(i, "function_item") || self.has_kind(i, "impl_item") || self.has_kind(
            i,
            "struct_item",
        ) || self.has_kind(i, "enum_item") || self.has_kind(i, "trait_item") || self.has_kind(
            i,
            "mod_item",
        )
    }

    /// Walking up from `node`, the first item of a meaningful kind, each node
    /// resolved past its attributes first (see [`meaningful_ancestor`]).
    pub fn find_meaningful_ancestor(&self, node: usize) -> (r: Option<usize>)
        requires
            self.wf(),
            node < self@.len(),
        ensures
            opt_index(r) == meaningful_ancestor(self@, node as int),
            r matches Some(x) ==> x < self@.len(),
    {
        let mut cur = node;
        loop
            invariant
                self.wf(),
                cur < self@.len(),
                meaningful_ancestor(self@, cur as int) == meaningful_ancestor(
                    self@,
                    node as int,
                ),
            decreases cur,
        {
            let resolved = self.resolve_item(cur);
            if self.is_meaningful(resolved) {
                return Some(resolved);
            }
            match self.nodes[cur].parent {
                Some(p) => {
                    // Only the root lacks a parent, so `cur` is not the root.
                    assert(self@[cur as int].parent matches Some(q) && q < cur);
                    cur = p;
                },
                None => {
                    return None;
                },
            }
        }
    }
    /// The sibling that comes just before `node` under the same parent.
    pub fn prev_sibling(&self, node: usize) -> (r: Option<usize>)
        requires
            node < self@.len(),
        ensures
            opt_index(r) == prev_sibling(self@, node as int),
    {
        match self.nodes[node].parent {
            None => None,
            Some(p) => {
                let mut k = node;
                while k > 0
                    invariant
                        k <= node < self@.len(),
                        self@[node as int].parent == Some(p),
                        prev_child_before(self@, p as int, node as int) == prev_child_before(
                            self@,
                            p as int,
                            k as int,
                        ),
                    decreases k,
                {
                    if self.is_child(k - 1, p) {
                        return Some(k - 1);
                    }
                    k = k - 1;
                }
                None
            },
        }
    }

    /// The first row of `node` with the attributes that directly precede it.
    pub fn first_row_with_attributes(&self, node: usize) -> (r: usize)
        requires
            node < self@.len(),
        ensures
            r == first_row_with_attributes(self@, node as int),
    {
        let mut cur = node;
        loop
            invariant
                cur < self@.len(),
                first_row_with_attributes(self@, cur as int) == first_row_with_attributes(
                    self@,
                    node as int,
                ),
            decreases cur,
        {
            match self.prev_sibling(cur) {
                Some(j) => {
                    proof {
                        if let Some(p) = self@[cur as int].parent {
                            lemma_prev_child_before(self@, p as int, cur as int);
                        }
                    }
                    if self.has_kind(j, "attribute_item") {
                        cur = j;
                    } else {
                        return self.nodes[cur].start_row;
                    }
                },
                None => {
                    return self.nodes[cur].start_row;
                },
            }
        }
    }

    /// Node `a` is node `d` or one of the nodes above it.
    pub fn is_ancestor_or_self(&self, a: usize, d: usize) -> (b: bool)
        requires
            self.wf(),
            a < self@.len(),
            d < self@.len(),
        ensures
            b == is_ancestor_or_self(self@, a as int, d as int),
    {
        let mut cur = d;
        loop
            invariant
                self.wf(),
                a < self@.len(),
                cur < self@.len(),
                is_ancestor_or_self(self@, a as int, cur as int) == is_ancestor_or_self(
                    self@,
                    a as int,
                    d as int,
                ),
            decreases cur,
        {
            if cur == a {
                return true;
            }
            if cur < a {
                proof {
                    if is_ancestor_or_self(self@, a as int, cur as int) {
                        lemma_ancestor_comes_first(self@, a as int, cur as int);
                    }
                }
                return false;
            }
            match self.nodes[cur].parent {
                Some(p) => {
                    assert(self@[cur as int].parent matches Some(q) && q < cur);
                    cur = p;
                },
                None => {
                    return false;
                },
            }
        }
    }

    /// Node `i` is an item whose rows, its attributes included, take in `row`.
    pub fn item_covers_row(&self, i: usize, row: usize) -> (b: bool)
        requires
            i < self@.len(),
        ensures
            b == item_covers_row(self@, i as int, row as int),
    {
        self.nodes[i].end_row >= row && self.is_meaningful(i) && self.first_row_with_attributes(i)
            <= row
    }

    /// The narrowest item on the zero-based `row` (see [`narrowest_item`]).
    pub fn find_narrowest_item(&self, row: usize) -> (r: Option<usize>)
        requires
            self.wf(),
        ensures
            opt_index(r) == narrowest_item(self@, row as int),
            r matches Some(x) ==> x < self@.len(),
    {
        let n = self.nodes.len();
        let ghost t = self@;
        let ghost rw = row as int;
        // The items covering the row, in the order of the listing.
        let mut covering: Vec<usize> = Vec::new();
        let mut k: usize = 0;
        while k < n
            invariant
                k <= n,
                n == t.len(),
                t == self@,
                rw == row as int,
                forall|b: int|
                    0 <= b < covering.len() ==> #[trigger] covering@[b] < k && item_covers_row(
                        t,
                        covering@[b] as int,
                        rw,
                    ),
                forall|b1: int, b2: int|
                    0 <= b1 < b2 < covering.len() ==> #[trigger] covering@[b1]
                        < #[trigger] covering@[b2],
                forall|m: int|
                    0 <= m < k && item_covers_row(t, m, rw) ==> exists|b: int|
                        0 <= b < covering.len() && #[trigger] covering@[b] == m,
            decreases n - k,
        {
            let ghost before = covering@;
            if self.item_covers_row(k, row) {
                covering.push(k);
            }
            proof {
                assert forall|m: int|
                    0 <= m < k + 1 && item_covers_row(t, m, rw) implies exists|b: int|
                        0 <= b < covering.len() && #[trigger] covering@[b] == m by {
                    if m < k {
                        let b = choose|b: int| 0 <= b < before.len() && #[trigger] before[b] == m;
                        assert(covering@[b] == m);
                    } else {
                        assert(covering@[covering.len() - 1] == m);
                    }
                }
            }
            k = k + 1;
        }
        let cn = covering.len();
        let mut a: usize = 0;
        while a < cn
            invariant
                a <= cn,
                cn == covering.len(),
                n == t.len(),
                t == self@,
                self.wf(),
                rw == row as int,
                forall|b: int|
                    0 <= b < covering.len() ==> #[trigger] covering@[b] < n && item_covers_row(
                        t,
                        covering@[b] as int,
                        rw,
                    ),
                forall|b1: int, b2: int|
                    0 <= b1 < b2 < covering.len() ==> #[trigger] covering@[b1]
                        < #[trigger] covering@[b2],
                forall|m: int|
                    0 <= m < n && item_covers_row(t, m, rw) ==> exists|b: int|
                        0 <= b < covering.len() && #[trigger] covering@[b] == m,
                forall|m: int|
                    0 <= m < n && (a < cn ==> m < covering@[a as int])
                        ==> !is_innermost_covering(t, m, rw),
            decreases cn - a,
        {
            let j = covering[a];
            let mut inner = false;
            let mut b = a + 1;
            while b < cn
                invariant
                    a < b <= cn,
                    cn == covering.len(),
                    j == covering@[a as int],
                    t == self@,
                    self.wf(),
                    n == t.len(),
                    forall|c: int|
                        0 <= c < covering.len() ==> #[trigger] covering@[c] < n && item_covers_row(
                            t,
                            covering@[c] as int,
                            rw,
                        ),
                    forall|b1: int, b2: int|
                        0 <= b1 < b2 < covering.len() ==> #[trigger] covering@[b1]
                            < #[trigger] covering@[b2],
                    !inner ==> forall|c: int|
                        a < c < b ==> !is_ancestor_or_self(t, j as int, #[trigger] covering@[c] as int),
                    inner ==> !is_innermost_covering(t, j as int, rw),
                ensures
                    !inner ==> forall|c: int|
                        a < c < cn ==> !is_ancestor_or_self(t, j as int, #[trigger] covering@[c] as int),
                    inner ==> !is_innermost_covering(t, j as int, rw),
                decreases cn - b,
            {
                let d = covering[b];
                if self.is_ancestor_or_self(j, d) {
                    inner = true;
                    proof {
                        assert(covering@[a as int] < covering@[b as int]);
                        assert(is_ancestor_or_self(t, j as int, d as int) && d != j
                            && item_covers_row(t, d as int, rw));
                    }
                    break;
                }
                b = b + 1;
            }
            if !inner {
                proof {
                    assert forall|d: int|
                        0 <= d < t.len() && d != j && #[trigger] is_ancestor_or_self(
                            t,
                            j as int,
                            d,
                        ) implies !item_covers_row(t, d, rw) by {
                        if item_covers_row(t, d, rw) {
                            let c = choose|c: int| 0 <= c < covering.len() && #[trigger] covering@[c] == d;
                            lemma_ancestor_comes_first(t, j as int, d);
                            if c <= a {
                                if c < a {
                                    assert(covering@[c] < covering@[a as int]);
                                }
                            }
                            assert(!is_ancestor_or_self(t, j as int, covering@[c] as int));
                        }
                    }
                    assert(is_innermost_covering(t, j as int, rw));
                    lemma_first_innermost_is(t, rw, 0, j as int);
                }
                return Some(j);
            }
            proof {
                assert forall|m: int|
                    0 <= m < n && (a + 1 < cn ==> m < covering@[a + 1]) implies !is_innermost_covering(
                    t,
                    m,
                    rw,
                ) by {
                    if m >= covering@[a as int] && m != j && item_covers_row(t, m, rw) {
                        let c = choose|c: int| 0 <= c < covering.len() && #[trigger] covering@[c] == m;
                        if c < a {
                            assert(covering@[c] < covering@[a as int]);
                        } else if c > a + 1 {
                            assert(covering@[a + 1] < covering@[c]);
                        }
                    }
                }
            }
            a = a + 1;
        }
        proof {
            lemma_first_innermost_is(t, rw, 0, n as int);
        }
        None
    }
}

} // verus!
