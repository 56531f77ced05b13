//! Lazy tree over a huge JSON value: pages of direct children, by path and
//! ordinal or by byte offset, and child counts under limits.

use vstd::prelude::*;
use vstd::slice::slice_subrange;
use crate::engine::CoreError;
use crate::formats::json::{
    after_comma, consume_comma, invalid_arg_numbers, lemma_member_bounds,
    lemma_subtree_start_bounds, member_at,
    member_value_start, read_member, seek_to_subtree, skip_member_key, subtree_start,
};
use crate::formats::scan::{
    lemma_skip_ignorable_bounds, lemma_value_end_bounds, scan_value_end, skip_ignorable,
    skip_ws_and_nul, value_end, StopBytes, COMMA, LBRACE, LBRACKET, RBRACE, RBRACKET,
};
use crate::models::{
    kind_from_first_byte, kind_of_byte, next_index, path_view, ChildSummaryView, ChildView,
    ChildrenPageView, ChildrenView, JsonChildItem, JsonChildItemOffset, JsonChildrenPage,
    JsonChildrenPageOffset, JsonNodeKind, JsonNodeSummary, JsonNodeSummaryOffset,
    JsonPathSegment, SegmentView,
};
use crate::text::{
    chars_of, force_ellipsis, lossy_text, strip_trailing_pad, stripped_len, truncated,
    truncated_from_chars, utf8_lossy, with_forced_ellipsis,
};

verus! {

/// The most bytes of a child's value that its preview is made from.
pub open spec fn preview_cap(preview_max_chars: nat) -> nat {
    if preview_max_chars > 64 {
        preview_max_chars * 4
    } else {
        256
    }
}

/// Preview of the value `data[start..end]`: the decoded text of its first
/// bytes, up to the cap, without trailing padding, cut to `max_chars`
/// characters, and ending with an ellipsis when bytes were left out.
pub open spec fn child_preview(data: Seq<u8>, start: int, end: int, max_chars: nat) -> Seq<char> {
    let cap = preview_cap(max_chars);
    let shown_end = if end - start > cap {
        start + cap
    } else {
        end
    };
    with_forced_ellipsis(
        truncated(strip_trailing_pad(lossy_text(data.subrange(start, shown_end))), max_chars),
        shown_end < end,
    )
}

/// The child `seg` whose value starts at `start` and ends where `stops` say.
pub open spec fn child_at(
    seg: SegmentView,
    data: Seq<u8>,
    start: int,
    stops: StopBytes,
    max_chars: nat,
) -> ChildView {
    ChildView {
        seg,
        kind: if 0 <= start < data.len() {
            kind_of_byte(data[start])
        } else {
            JsonNodeKind::Unknown
        },
        preview: child_preview(data, start, value_end(data, start, stops), max_chars),
        value_offset: start,
    }
}

/// `done` followed by the items of `rest`.
pub open spec fn prepend(done: Seq<ChildView>, rest: ChildrenView) -> ChildrenView {
    ChildrenView { items: done + rest.items, ..rest }
}

/// `done` followed by the items of `rest`, if there is a rest.
pub open spec fn prepend_opt(done: Seq<ChildView>, rest: Option<ChildrenView>) -> Option<
    ChildrenView,
> {
    match rest {
        Some(r) => Some(prepend(done, r)),
        None => None,
    }
}

/// The page that ends the listing with no further item.
pub open spec fn end_of_children() -> ChildrenView {
    ChildrenView { items: Seq::empty(), next_offset: None, next_index: None, reached_end: true }
}

/// Up to `limit` members of an object, listed from `pos` on. The listing
/// ends at `}`, at the end of the data, or after a member that no comma
/// follows; otherwise the next page starts after the comma and its padding.
/// `None` when a member is malformed.
pub open spec fn object_children(data: Seq<u8>, pos: int, limit: nat, max_chars: nat) -> Option<
    ChildrenView,
>
    decreases limit,
{
    if limit == 0 {
        Some(
            ChildrenView {
                items: Seq::empty(),
                next_offset: Some(pos),
                next_index: None,
                reached_end: false,
            },
        )
    } else {
        let p = skip_ignorable(data, pos);
        if p < 0 || p >= data.len() || data[p] == RBRACE {
            Some(end_of_children())
        } else {
            match member_at(data, p) {
                None => None,
                Some((key, value_start)) => {
                    let item = child_at(
                        SegmentView::Key(key),
                        data,
                        value_start,
                        StopBytes::InObject,
                        max_chars,
                    );
                    match after_comma(data, value_end(data, value_start, StopBytes::InObject)) {
                        Some(next) => prepend_opt(
                            seq![item],
                            object_children(
                                data,
                                skip_ignorable(data, next),
                                (limit - 1) as nat,
                                max_chars,
                            ),
                        ),
                        None => Some(prepend(seq![item], end_of_children())),
                    }
                },
            }
        }
    }
}

/// Up to `limit` elements of an array, listed from `pos` on, the first of
/// them with index `idx`. The listing ends at `]`, at the end of the data,
/// or after an element that no comma follows; otherwise the next page starts
/// after the comma and its padding, with the next index.
pub open spec fn array_children(
    data: Seq<u8>,
    pos: int,
    idx: u64,
    limit: nat,
    max_chars: nat,
) -> ChildrenView
    decreases limit,
{
    if limit == 0 {
        ChildrenView {
            items: Seq::empty(),
            next_offset: Some(pos),
            next_index: Some(idx),
            reached_end: false,
        }
    } else {
        let p = skip_ignorable(data, pos);
        if p < 0 || p >= data.len() || data[p] == RBRACKET {
            end_of_children()
        } else {
            let item = child_at(SegmentView::Index(idx), data, p, StopBytes::InArray, max_chars);
            match after_comma(data, value_end(data, p, StopBytes::InArray)) {
                Some(next) => prepend(
                    seq![item],
                    array_children(
                        data,
                        skip_ignorable(data, next),
                        next_index(idx),
                        (limit - 1) as nat,
                        max_chars,
                    ),
                ),
                None => prepend(seq![item], end_of_children()),
            }
        }
    }
}

/// Where a page of a container's children starts: at `cursor_offset` if one
/// is given, else at `first`; padding and one comma in front are skipped.
/// `None` when the offset lies beyond the data.
pub open spec fn page_start(data: Seq<u8>, first: int, cursor_offset: Option<u64>) -> Option<
    int,
> {
    let want = match cursor_offset {
        Some(o) => o as int,
        None => first,
    };
    if want > data.len() {
        None
    } else {
        let q = skip_ignorable(data, want);
        if 0 <= q < data.len() && data[q] == COMMA {
            Some(skip_ignorable(data, q + 1))
        } else {
            Some(q)
        }
    }
}

/// The page of direct children of the value at `node_offset`. A value that
/// is neither an object nor an array has none. `None` when an offset lies
/// beyond the data or a member of the object is malformed.
pub open spec fn children_at_offset(
    data: Seq<u8>,
    node_offset: u64,
    cursor_offset: Option<u64>,
    cursor_index: Option<u64>,
    limit: nat,
    max_chars: nat,
) -> Option<ChildrenView> {
    if node_offset > data.len() {
        None
    } else {
        let p = skip_ignorable(data, node_offset as int);
        if p >= data.len() {
            Some(end_of_children())
        } else if data[p] == LBRACE {
            match page_start(data, skip_ignorable(data, p + 1), cursor_offset) {
                Some(q) => object_children(data, q, limit, max_chars),
                None => None,
            }
        } else if data[p] == LBRACKET {
            match page_start(data, skip_ignorable(data, p + 1), cursor_offset) {
                Some(q) => Some(
                    array_children(
                        data,
                        q,
                        match cursor_index {
                            Some(i) => i,
                            None => 0,
                        },
                        limit,
                        max_chars,
                    ),
                ),
                None => None,
            }
        } else {
            Some(end_of_children())
        }
    }
}

/// Shortened text of the value `data[start..end]`.
pub fn preview_from_scan(captured: &[u8], total_len_bytes: u64, preview_max_chars: usize) -> (r: (
    String,
    bool,
))
    ensures
        r.0@ == truncated(strip_trailing_pad(lossy_text(captured@)), preview_max_chars as nat),
        r.1 == (captured.len() < total_len_bytes),
{
    let text = utf8_lossy(captured);
    let chars = chars_of(text.as_str());
    let n = stripped_len(chars.as_slice());
    let preview = truncated_from_chars(chars.as_slice(), n, preview_max_chars);
    (preview, (captured.len() as u64) < total_len_bytes)
}

fn make_child(
    seg: JsonPathSegment,
    data: &[u8],
    start: usize,
    end: usize,
    stops: StopBytes,
    preview_max_chars: usize,
) -> (item: JsonChildItemOffset)
    requires
        start <= end <= data.len(),
        end == value_end(data@, start as int, stops),
    ensures
        item@ == child_at(seg@, data@, start as int, stops, preview_max_chars as nat),
{
    let kind = if start < data.len() {
        kind_from_first_byte(data[start])
    } else {
        JsonNodeKind::Unknown
    };
    let cap: usize = if preview_max_chars > 64 {
        if preview_max_chars > usize::MAX / 4 {
            usize::MAX
        } else {
            preview_max_chars * 4
        }
    } else {
        256
    };
    let shown_end = if end - start > cap {
        start + cap
    } else {
        end
    };
    let (text, cut) = preview_from_scan(
        slice_subrange(data, start, shown_end),
        (end - start) as u64,
        preview_max_chars,
    );
    let preview = force_ellipsis(text, cut);
    JsonChildItemOffset { seg, kind, preview, value_offset: start as u64 }
}

fn end_page(items: Vec<JsonChildItemOffset>) -> (page: JsonChildrenPageOffset)
    ensures
        page@ == prepend(items@.map_values(|c: JsonChildItemOffset| c@), end_of_children()),
{
    let page = JsonChildrenPageOffset {
        items,
        next_cursor_offset: None,
        next_cursor_index: None,
        reached_end: true,
    };
    assert(page@.items =~= page@.items + Seq::<ChildView>::empty());
    page
}

fn collect_object_children(data: &[u8], pos: usize, limit: usize, preview_max_chars: usize) -> (r:
    Result<JsonChildrenPageOffset, CoreError>)
    requires
        pos <= data.len(),
    ensures
        match r {
            Ok(page) => object_children(
                data@,
                pos as int,
                limit as nat,
                preview_max_chars as nat,
            ) == Some(page@),
            Err(e) => object_children(data@, pos as int, limit as nat, preview_max_chars as nat)
                is None && e is InvalidArg,
        },
{
    let ghost max = preview_max_chars as nat;
    let mut items: Vec<JsonChildItemOffset> = Vec::new();
    let mut cur: usize = pos;
    let mut i: usize = 0;
    proof {
        match object_children(data@, pos as int, limit as nat, max) {
            Some(rest) => {
                assert(Seq::<ChildView>::empty() + rest.items =~= rest.items);
            },
            None => {},
        }
    }
    while i < limit
        invariant
            i <= limit,
            cur <= data.len(),
            max == preview_max_chars as nat,
            object_children(data@, pos as int, limit as nat, max) == prepend_opt(
                items@.map_values(|c: JsonChildItemOffset| c@),
                object_children(data@, cur as int, (limit - i) as nat, max),
            ),
        decreases limit - i,
    {
        let ghost done = items@.map_values(|c: JsonChildItemOffset| c@);
        let p = skip_ws_and_nul(data, cur);
        if p >= data.len() || data[p] == RBRACE {
            return Ok(end_page(items));
        }
        let (key, value_start) = read_member(data, p)?;
        let end = scan_value_end(data, value_start, StopBytes::InObject);
        let item = make_child(
            JsonPathSegment::Key(key),
            data,
            value_start,
            end,
            StopBytes::InObject,
            preview_max_chars,
        );
        let ghost item_view = item@;
        items.push(item);
        assert(items@.map_values(|c: JsonChildItemOffset| c@) =~= done + seq![item_view]);
        match consume_comma(data, end) {
            Some(next) => {
                cur = skip_ws_and_nul(data, next);
                i += 1;
                proof {
                    match object_children(data@, cur as int, (limit - i) as nat, max) {
                        Some(rest) => {
                            assert((done + seq![item_view]) + rest.items =~= done + (seq![
                                item_view,
                            ] + rest.items));
                        },
                        None => {},
                    }
                }
            },
            None => {
                assert((done + seq![item_view]) + Seq::<ChildView>::empty() =~= done + (seq![
                    item_view,
                ] + Seq::<ChildView>::empty()));
                return Ok(end_page(items));
            },
        }
    }
    let page = JsonChildrenPageOffset {
        items,
        next_cursor_offset: Some(cur as u64),
        next_cursor_index: None,
        reached_end: false,
    };
    assert(page@.items + Seq::<ChildView>::empty() =~= page@.items);
    Ok(page)
}

fn collect_array_children(
    data: &[u8],
    pos: usize,
    first_index: u64,
    limit: usize,
    preview_max_chars: usize,
) -> (page: JsonChildrenPageOffset)
    requires
        pos <= data.len(),
    ensures
        page@ == array_children(
            data@,
            pos as int,
            first_index,
            limit as nat,
            preview_max_chars as nat,
        ),
{
    let ghost max = preview_max_chars as nat;
    let mut items: Vec<JsonChildItemOffset> = Vec::new();
    let mut cur: usize = pos;
    let mut idx: u64 = first_index;
    let mut i: usize = 0;
    proof {
        let rest = array_children(data@, pos as int, first_index, limit as nat, max);
        assert(Seq::<ChildView>::empty() + rest.items =~= rest.items);
    }
    while i < limit
        invariant
            i <= limit,
            cur <= data.len(),
            max == preview_max_chars as nat,
            array_children(data@, pos as int, first_index, limit as nat, max) == prepend(
                items@.map_values(|c: JsonChildItemOffset| c@),
                array_children(data@, cur as int, idx, (limit - i) as nat, max),
            ),
        decreases limit - i,
    {
        let ghost done = items@.map_values(|c: JsonChildItemOffset| c@);
        let p = skip_ws_and_nul(data, cur);
        if p >= data.len() || data[p] == RBRACKET {
            return end_page(items);
        }
        let end = scan_value_end(data, p, StopBytes::InArray);
        let item = make_child(
            JsonPathSegment::Index(idx),
            data,
            p,
            end,
            StopBytes::InArray,
            preview_max_chars,
        );
        let ghost item_view = item@;
        items.push(item);
        assert(items@.map_values(|c: JsonChildItemOffset| c@) =~= done + seq![item_view]);
        match consume_comma(data, end) {
            Some(next) => {
                cur = skip_ws_and_nul(data, next);
                idx = if idx < u64::MAX {
                    idx + 1
                } else {
                    idx
                };
                i += 1;
                proof {
                    let rest = array_children(data@, cur as int, idx, (limit - i) as nat, max);
                    assert((done + seq![item_view]) + rest.items =~= done + (seq![item_view]
                        + rest.items));
                }
            },
            None => {
                assert((done + seq![item_view]) + Seq::<ChildView>::empty() =~= done + (seq![
                    item_view,
                ] + Seq::<ChildView>::empty()));
                return end_page(items);
            },
        }
    }
    let page = JsonChildrenPageOffset {
        items,
        next_cursor_offset: Some(cur as u64),
        next_cursor_index: Some(idx),
        reached_end: false,
    };
    assert(page@.items + Seq::<ChildView>::empty() =~= page@.items);
    page
}

fn find_page_start(data: &[u8], first: usize, cursor_offset: Option<u64>) -> (r: Result<
    usize,
    CoreError,
>)
    requires
        first <= data.len(),
    ensures
        match r {
            Ok(q) => page_start(data@, first as int, cursor_offset) == Some(q as int) && q
                <= data.len(),
            Err(e) => page_start(data@, first as int, cursor_offset) is None && e is InvalidArg,
        },
{
    let want: usize = match cursor_offset {
        Some(o) => {
            if o > data.len() as u64 {
                return Err(
                    invalid_arg_numbers(
                        "cursor_offset ",
                        o,
                        " beyond file len ",
                        data.len() as u64,
                    ),
                );
            }
            o as usize
        },
        None => first,
    };
    let q = skip_ws_and_nul(data, want);
    if q < data.len() && data[q] == COMMA {
        Ok(skip_ws_and_nul(data, q + 1))
    } else {
        Ok(q)
    }
}

/// Lists up to `limit` direct children of the value at `node_offset`,
/// starting at `cursor_offset` (the first child when `None`).
pub fn list_json_children_page_at_offset(
    data: &[u8],
    node_offset: u64,
    cursor_offset: Option<u64>,
    cursor_index: Option<u64>,
    limit: usize,
    preview_max_chars: usize,
) -> (r: Result<JsonChildrenPageOffset, CoreError>)
    ensures
        match r {
            Ok(page) => children_at_offset(
                data@,
                node_offset,
                cursor_offset,
                cursor_index,
                limit as nat,
                preview_max_chars as nat,
            ) == Some(page@),
            Err(e) => children_at_offset(
                data@,
                node_offset,
                cursor_offset,
                cursor_index,
                limit as nat,
                preview_max_chars as nat,
            ) is None && e is InvalidArg,
        },
{
    if node_offset > data.len() as u64 {
        return Err(
            invalid_arg_numbers("offset ", node_offset, " beyond file len ", data.len() as u64),
        );
    }
    let p = skip_ws_and_nul(data, node_offset as usize);
    if p >= data.len() {
        return Ok(end_page(Vec::new()));
    }
    let first = data[p];
    if first == LBRACE {
        let q = find_page_start(data, skip_ws_and_nul(data, p + 1), cursor_offset)?;
        collect_object_children(data, q, limit, preview_max_chars)
    } else if first == LBRACKET {
        let q = find_page_start(data, skip_ws_and_nul(data, p + 1), cursor_offset)?;
        let idx = match cursor_index {
            Some(i) => i,
            None => 0,
        };
        Ok(collect_array_children(data, q, idx, limit, preview_max_chars))
    } else {
        Ok(end_page(Vec::new()))
    }
}

/// Where listing continues once `n` members from `pos` on are passed over:
/// `Some(None)` when the object ends first, `None` when a member is
/// malformed.
pub open spec fn skip_members(data: Seq<u8>, pos: int, n: nat) -> Option<Option<int>>
    decreases n,
{
    if n == 0 {
        Some(Some(pos))
    } else {
        let p = skip_ignorable(data, pos);
        if 0 <= p < data.len() && data[p] == RBRACE {
            Some(None)
        } else {
            match member_at(data, p) {
                None => None,
                Some((_, value_start)) => match after_comma(
                    data,
                    value_end(data, value_start, StopBytes::InObject),
                ) {
                    Some(next) => skip_members(data, next, (n - 1) as nat),
                    None => Some(None),
                },
            }
        }
    }
}

/// Where listing continues once `n` elements from `pos` on are passed over;
/// `None` when the array ends first.
pub open spec fn skip_elements(data: Seq<u8>, pos: int, n: nat) -> Option<int>
    decreases n,
{
    if n == 0 {
        Some(pos)
    } else {
        let p = skip_ignorable(data, pos);
        if 0 <= p < data.len() && data[p] == RBRACKET {
            None
        } else {
            match after_comma(data, value_end(data, p, StopBytes::InArray)) {
                Some(next) => skip_elements(data, next, (n - 1) as nat),
                None => None,
            }
        }
    }
}

/// The listed children without their offsets.
pub open spec fn without_offsets(items: Seq<ChildView>) -> Seq<ChildSummaryView> {
    items.map_values(
        |c: ChildView| ChildSummaryView { seg: c.seg, kind: c.kind, preview: c.preview },
    )
}

/// `cursor + count`, held at the largest value.
pub open spec fn advance_cursor(cursor: u64, count: nat) -> u64 {
    if cursor + count > u64::MAX {
        u64::MAX
    } else {
        (cursor + count) as u64
    }
}

/// A page listed by offset, as the page listed by ordinal that starts at
/// ordinal `cursor`.
pub open spec fn ordinal_page(cursor: u64, page: ChildrenView) -> ChildrenPageView {
    ChildrenPageView {
        items: without_offsets(page.items),
        next_cursor: if page.reached_end {
            None
        } else {
            Some(advance_cursor(cursor, page.items.len()))
        },
        reached_end: page.reached_end,
    }
}

/// The page that holds nothing and ends the listing.
pub open spec fn empty_page() -> ChildrenPageView {
    ChildrenPageView { items: Seq::empty(), next_cursor: None, reached_end: true }
}

/// The page of up to `limit` direct children, from ordinal `cursor` on, of
/// the value that follows the padding at `pos`: the children before the
/// cursor are passed over, and the rest is listed as a page by offset is.
/// `None` when a member is malformed.
pub open spec fn children_from(data: Seq<u8>, pos: int, cursor: u64, limit: nat, max_chars: nat) -> Option<
    ChildrenPageView,
> {
    let p = skip_ignorable(data, pos);
    if p < 0 || p >= data.len() {
        Some(empty_page())
    } else if data[p] == LBRACE {
        match page_start(data, skip_ignorable(data, p + 1), None) {
            None => None,
            Some(first) => match skip_members(data, first, cursor as nat) {
                None => None,
                Some(None) => Some(empty_page()),
                Some(Some(q)) => match object_children(data, q, limit, max_chars) {
                    Some(page) => Some(ordinal_page(cursor, page)),
                    None => None,
                },
            },
        }
    } else if data[p] == LBRACKET {
        match page_start(data, skip_ignorable(data, p + 1), None) {
            None => None,
            Some(first) => match skip_elements(data, first, cursor as nat) {
                None => Some(empty_page()),
                Some(q) => Some(
                    ordinal_page(cursor, array_children(data, q, cursor, limit, max_chars)),
                ),
            },
        }
    } else {
        Some(empty_page())
    }
}

/// The page of up to `limit` direct children, from ordinal `cursor` on, of
/// the value that `path` selects in the record at `record_offset`. `None`
/// when the offset lies beyond the data, the path leads nowhere or a member
/// is malformed.
pub open spec fn children_by_path(
    data: Seq<u8>,
    record_offset: u64,
    path: Seq<SegmentView>,
    cursor: u64,
    limit: nat,
    max_chars: nat,
) -> Option<ChildrenPageView> {
    if record_offset > data.len() {
        None
    } else {
        match subtree_start(data, record_offset as int, path) {
            None => None,
            Some(start) => children_from(data, start, cursor, limit, max_chars),
        }
    }
}

/// Listing by path and listing by offset agree: the first page of children
/// of the value that a path selects holds the children that the first page
/// by offset holds for the offset of that value, in the same order.
pub proof fn lemma_listings_agree(
    data: Seq<u8>,
    record_offset: u64,
    path: Seq<SegmentView>,
    limit: nat,
    max_chars: nat,
)
    requires
        record_offset <= data.len() <= u64::MAX,
        subtree_start(data, record_offset as int, path) is Some,
    ensures
        children_by_path(data, record_offset, path, 0, limit, max_chars) == (
        match children_at_offset(
            data,
            subtree_start(data, record_offset as int, path)->Some_0 as u64,
            None,
            None,
            limit,
            max_chars,
        ) {
            Some(page) => Some(ordinal_page(0, page)),
            None => None,
        }),
{
    let start = subtree_start(data, record_offset as int, path)->Some_0;
    lemma_subtree_start_bounds(data, record_offset as int, path);
    lemma_skip_ignorable_bounds(data, start);
    let p = skip_ignorable(data, start);
    if p < data.len() {
        lemma_skip_ignorable_bounds(data, p + 1);
    }
    assert(ordinal_page(0, end_of_children()).items =~= empty_page().items);
}

fn pass_members(data: &[u8], pos: usize, n: u64) -> (r: Result<Option<usize>, CoreError>)
    requires
        pos <= data.len(),
    ensures
        match r {
            Ok(Some(q)) => skip_members(data@, pos as int, n as nat) == Some(Some(q as int))
                && q <= data.len(),
            Ok(None) => skip_members(data@, pos as int, n as nat) == Some(None::<int>),
            Err(e) => skip_members(data@, pos as int, n as nat) is None && e is InvalidArg,
        },
{
    let mut cur: usize = pos;
    let mut i: u64 = 0;
    while i < n
        invariant
            i <= n,
            cur <= data.len(),
            skip_members(data@, pos as int, n as nat) == skip_members(
                data@,
                cur as int,
                (n - i) as nat,
            ),
        decreases n - i,
    {
        let p = skip_ws_and_nul(data, cur);
        if p < data.len() && data[p] == RBRACE {
            return Ok(None);
        }
        let (_, value_start) = read_member(data, p)?;
        let end = scan_value_end(data, value_start, StopBytes::InObject);
        match consume_comma(data, end) {
            Some(next) => {
                cur = next;
                i += 1;
            },
            None => {
                return Ok(None);
            },
        }
    }
    Ok(Some(cur))
}

fn pass_elements(data: &[u8], pos: usize, n: u64) -> (r: Option<usize>)
    requires
        pos <= data.len(),
    ensures
        match r {
            Some(q) => skip_elements(data@, pos as int, n as nat) == Some(q as int) && q
                <= data.len(),
            None => skip_elements(data@, pos as int, n as nat) is None,
        },
{
    let mut cur: usize = pos;
    let mut i: u64 = 0;
    while i < n
        invariant
            i <= n,
            cur <= data.len(),
            skip_elements(data@, pos as int, n as nat) == skip_elements(
                data@,
                cur as int,
                (n - i) as nat,
            ),
        decreases n - i,
    {
        let p = skip_ws_and_nul(data, cur);
        if p < data.len() && data[p] == RBRACKET {
            return None;
        }
        let end = scan_value_end(data, p, StopBytes::InArray);
        match consume_comma(data, end) {
            Some(next) => {
                cur = next;
                i += 1;
            },
            None => {
                return None;
            },
        }
    }
    Some(cur)
}

fn copy_segment(seg: &JsonPathSegment) -> (r: JsonPathSegment)
    ensures
        r@ == seg@,
{
    match seg {
        JsonPathSegment::Key(k) => JsonPathSegment::Key(k.clone()),
        JsonPathSegment::Index(i) => JsonPathSegment::Index(*i),
    }
}

fn to_ordinal_page(cursor: u64, page: &JsonChildrenPageOffset) -> (r: JsonChildrenPage)
    ensures
        r@ == ordinal_page(cursor, page@),
{
    let mut items: Vec<JsonChildItem> = Vec::new();
    let mut i: usize = 0;
    while i < page.items.len()
        invariant
            i <= page.items.len(),
            items@.map_values(|c: JsonChildItem| c@) == without_offsets(page@.items).take(
                i as int,
            ),
        decreases page.items.len() - i,
    {
        let ghost before = items@.map_values(|c: JsonChildItem| c@);
        let src = &page.items[i];
        let item = JsonChildItem {
            seg: copy_segment(&src.seg),
            kind: src.kind,
            preview: src.preview.clone(),
        };
        assert(page@.items[i as int] == page.items@[i as int]@);
        assert(item@ == without_offsets(page@.items)[i as int]);
        items.push(item);
        assert(items@.map_values(|c: JsonChildItem| c@) =~= before.push(
            without_offsets(page@.items)[i as int],
        ));
        assert(before.push(without_offsets(page@.items)[i as int]) =~= without_offsets(
            page@.items,
        ).take(i + 1));
        i += 1;
    }
    assert(without_offsets(page@.items).take(page.items.len() as int) =~= without_offsets(
        page@.items,
    ));
    let count = page.items.len() as u64;
    let next_cursor = if page.reached_end {
        None
    } else if count > u64::MAX - cursor {
        Some(u64::MAX)
    } else {
        Some(cursor + count)
    };
    JsonChildrenPage { items, next_cursor, reached_end: page.reached_end }
}

fn no_children() -> (r: JsonChildrenPage)
    ensures
        r@ == empty_page(),
{
    let r = JsonChildrenPage { items: Vec::new(), next_cursor: None, reached_end: true };
    assert(r@.items =~= Seq::empty());
    r
}

/// Lists up to `limit` direct children, from ordinal `cursor` on, of the
/// value that `path_segments` select in the record at `record_offset`.
pub fn list_json_children_page(
    data: &[u8],
    record_offset: u64,
    path_segments: &[JsonPathSegment],
    cursor: u64,
    limit: usize,
    preview_max_chars: usize,
) -> (r: Result<JsonChildrenPage, CoreError>)
    ensures
        match r {
            Ok(page) => children_by_path(
                data@,
                record_offset,
                path_view(path_segments@),
                cursor,
                limit as nat,
                preview_max_chars as nat,
            ) == Some(page@),
            Err(e) => children_by_path(
                data@,
                record_offset,
                path_view(path_segments@),
                cursor,
                limit as nat,
                preview_max_chars as nat,
            ) is None && e is InvalidArg,
        },
{
    if record_offset > data.len() as u64 {
        return Err(
            invalid_arg_numbers("offset ", record_offset, " beyond file len ", data.len() as u64),
        );
    }
    let start = seek_to_subtree(data, record_offset as usize, path_segments)?;
    let p = skip_ws_and_nul(data, start);
    if p >= data.len() {
        return Ok(no_children());
    }
    let first = data[p];
    if first == LBRACE {
        let inner = find_page_start(data, skip_ws_and_nul(data, p + 1), None)?;
        match pass_members(data, inner, cursor)? {
            None => Ok(no_children()),
            Some(q) => {
                let page = collect_object_children(data, q, limit, preview_max_chars)?;
                Ok(to_ordinal_page(cursor, &page))
            },
        }
    } else if first == LBRACKET {
        let inner = find_page_start(data, skip_ws_and_nul(data, p + 1), None)?;
        match pass_elements(data, inner, cursor) {
            None => Ok(no_children()),
            Some(q) => {
                let page = collect_array_children(data, q, cursor, limit, preview_max_chars);
                Ok(to_ordinal_page(cursor, &page))
            },
        }
    } else {
        Ok(no_children())
    }
}

/// The number of members counted from `pos` on, starting from `count`, and
/// whether the count is complete. Counting gives up, as incomplete, once
/// more than `max_scan` bytes lie between `from` and the next member or
/// `max_items` are counted. `None` when a member is malformed.
pub open spec fn count_members(
    data: Seq<u8>,
    pos: int,
    count: u64,
    from: int,
    max_items: u64,
    max_scan: u64,
) -> Option<(u64, bool)>
    decreases data.len() - pos,
{
    if pos < 0 || pos > data.len() {
        None
    } else if pos - from > max_scan || count >= max_items {
        Some((count, false))
    } else {
        let p = skip_ignorable(data, pos);
        if p >= data.len() || data[p] == RBRACE {
            Some((count, true))
        } else {
            match member_value_start(data, p) {
                None => None,
                Some(value_start) => match after_comma(
                    data,
                    value_end(data, value_start, StopBytes::InObject),
                ) {
                    Some(next) => {
                        proof {
                            lemma_skip_ignorable_bounds(data, pos);
                            lemma_member_bounds(data, p);
                            lemma_value_end_bounds(data, value_start, StopBytes::InObject);
                            lemma_skip_ignorable_bounds(
                                data,
                                value_end(data, value_start, StopBytes::InObject),
                            );
                        }
                        count_members(data, next, (count + 1) as u64, from, max_items, max_scan)
                    },
                    None => Some(((count + 1) as u64, true)),
                },
            }
        }
    }
}

/// The number of elements counted from `pos` on, starting from `count`, and
/// whether the count is complete; the limits are those of [`count_members`].
pub open spec fn count_elements(
    data: Seq<u8>,
    pos: int,
    count: u64,
    from: int,
    max_items: u64,
    max_scan: u64,
) -> (u64, bool)
    decreases data.len() - pos,
{
    if pos < 0 || pos > data.len() || pos - from > max_scan || count >= max_items {
        (count, false)
    } else {
        let p = skip_ignorable(data, pos);
        if p >= data.len() || data[p] == RBRACKET {
            (count, true)
        } else {
            match after_comma(data, value_end(data, p, StopBytes::InArray)) {
                Some(next) => {
                    proof {
                        lemma_skip_ignorable_bounds(data, pos);
                        lemma_value_end_bounds(data, p, StopBytes::InArray);
                        lemma_skip_ignorable_bounds(
                            data,
                            value_end(data, p, StopBytes::InArray),
                        );
                    }
                    count_elements(data, next, (count + 1) as u64, from, max_items, max_scan)
                },
                None => ((count + 1) as u64, true),
            }
        }
    }
}

/// Kind, child count and completeness for the value that follows the
/// padding at `pos`. Values other than objects and arrays have no count.
pub open spec fn summary_at(data: Seq<u8>, pos: int, max_items: u64, max_scan: u64) -> Option<
    JsonNodeSummary,
> {
    let p = skip_ignorable(data, pos);
    let kind = if 0 <= p < data.len() {
        kind_of_byte(data[p])
    } else {
        JsonNodeKind::Unknown
    };
    if kind == JsonNodeKind::Object {
        match count_members(data, p + 1, 0, p, max_items, max_scan) {
            Some((count, complete)) => Some(
                JsonNodeSummary { kind, child_count: Some(count), complete },
            ),
            None => None,
        }
    } else if kind == JsonNodeKind::Array {
        let (count, complete) = count_elements(data, p + 1, 0, p, max_items, max_scan);
        Some(JsonNodeSummary { kind, child_count: Some(count), complete })
    } else {
        Some(JsonNodeSummary { kind, child_count: None, complete: true })
    }
}

/// The summary of the value that `path` selects in the record at
/// `record_offset`.
pub open spec fn summary_by_path(
    data: Seq<u8>,
    record_offset: u64,
    path: Seq<SegmentView>,
    max_items: u64,
    max_scan: u64,
) -> Option<JsonNodeSummary> {
    if record_offset > data.len() {
        None
    } else {
        match subtree_start(data, record_offset as int, path) {
            Some(start) => summary_at(data, start, max_items, max_scan),
            None => None,
        }
    }
}

/// The summary of the value at `node_offset`.
pub open spec fn summary_at_offset(
    data: Seq<u8>,
    node_offset: u64,
    max_items: u64,
    max_scan: u64,
) -> Option<JsonNodeSummaryOffset> {
    if node_offset > data.len() {
        None
    } else {
        match summary_at(data, node_offset as int, max_items, max_scan) {
            Some(s) => Some(
                JsonNodeSummaryOffset {
                    kind: s.kind,
                    child_count: s.child_count,
                    complete: s.complete,
                    node_offset,
                },
            ),
            None => None,
        }
    }
}

fn summarize(data: &[u8], pos: usize, max_items: u64, max_scan_bytes: u64) -> (r: Result<
    JsonNodeSummary,
    CoreError,
>)
    requires
        pos <= data.len(),
    ensures
        match r {
            Ok(s) => summary_at(data@, pos as int, max_items, max_scan_bytes) == Some(s),
            Err(e) => summary_at(data@, pos as int, max_items, max_scan_bytes) is None && e
                is InvalidArg,
        },
{
    let p = skip_ws_and_nul(data, pos);
    let kind = if p < data.len() {
        kind_from_first_byte(data[p])
    } else {
        JsonNodeKind::Unknown
    };
    let is_object = matches!(kind, JsonNodeKind::Object);
    if !is_object && !matches!(kind, JsonNodeKind::Array) {
        return Ok(JsonNodeSummary { kind, child_count: None, complete: true });
    }
    let mut cur: usize = p + 1;
    let mut count: u64 = 0;
    loop
        invariant
            p < cur <= data.len(),
            is_object ==> kind == JsonNodeKind::Object,
            !is_object ==> kind == JsonNodeKind::Array,
            is_object ==> count_members(data@, p + 1, 0, p as int, max_items, max_scan_bytes)
                == count_members(
                data@,
                cur as int,
                count,
                p as int,
                max_items,
                max_scan_bytes,
            ),
            !is_object ==> count_elements(data@, p + 1, 0, p as int, max_items, max_scan_bytes)
                == count_elements(
                data@,
                cur as int,
                count,
                p as int,
                max_items,
                max_scan_bytes,
            ),
            p == skip_ignorable(data@, pos as int),
            kind == kind_of_byte(data@[p as int]),
        decreases data.len() - cur,
    {
        if (cur - p) as u64 > max_scan_bytes || count >= max_items {
            return Ok(JsonNodeSummary { kind, child_count: Some(count), complete: false });
        }
        let q = skip_ws_and_nul(data, cur);
        if q >= data.len() || data[q] == (if is_object {
            RBRACE
        } else {
            RBRACKET
        }) {
            return Ok(JsonNodeSummary { kind, child_count: Some(count), complete: true });
        }
        let value_start = if is_object {
            skip_member_key(data, q)?
        } else {
            q
        };
        let end = scan_value_end(
            data,
            value_start,
            if is_object {
                StopBytes::InObject
            } else {
                StopBytes::InArray
            },
        );
        count += 1;
        match consume_comma(data, end) {
            Some(next) => {
                cur = next;
            },
            None => {
                return Ok(JsonNodeSummary { kind, child_count: Some(count), complete: true });
            },
        }
    }
}

/// Kind and number of direct children of the value that `path_segments`
/// select in the record at `record_offset`.
pub fn json_node_summary(
    data: &[u8],
    record_offset: u64,
    path_segments: &[JsonPathSegment],
    max_items: u64,
    max_scan_bytes: u64,
) -> (r: Result<JsonNodeSummary, CoreError>)
    ensures
        match r {
            Ok(s) => summary_by_path(
                data@,
                record_offset,
                path_view(path_segments@),
                max_items,
                max_scan_bytes,
            ) == Some(s),
            Err(e) => summary_by_path(
                data@,
                record_offset,
                path_view(path_segments@),
                max_items,
                max_scan_bytes,
            ) is None && e is InvalidArg,
        },
{
    if record_offset > data.len() as u64 {
        return Err(
            invalid_arg_numbers("offset ", record_offset, " beyond file len ", data.len() as u64),
        );
    }
    let start = seek_to_subtree(data, record_offset as usize, path_segments)?;
    summarize(data, start, max_items, max_scan_bytes)
}

/// Kind and number of direct children of the value at `node_offset`.
pub fn json_node_summary_at_offset(
    data: &[u8],
    node_offset: u64,
    max_items: u64,
    max_scan_bytes: u64,
) -> (r: Result<JsonNodeSummaryOffset, CoreError>)
    ensures
        match r {
            Ok(s) => summary_at_offset(data@, node_offset, max_items, max_scan_bytes) == Some(s),
            Err(e) => summary_at_offset(data@, node_offset, max_items, max_scan_bytes) is None
                && e is InvalidArg,
        },
{
    if node_offset > data.len() as u64 {
        return Err(
            invalid_arg_numbers("offset ", node_offset, " beyond file len ", data.len() as u64),
        );
    }
    let s = summarize(data, node_offset as usize, max_items, max_scan_bytes)?;
    Ok(
        JsonNodeSummaryOffset {
            kind: s.kind,
            child_count: s.child_count,
            complete: s.complete,
            node_offset,
        },
    )
}

} // verus!
