//! Query preparation and the predicate that decides whether a record's
//! text matches.

use vstd::prelude::*;
use crate::json_text::{json_quote, json_quoted_text};
use crate::models::{
    records_view, Record, RecordPage, RecordView, SearchMode, SearchQuery, SearchResult,
};
use crate::text::{
    char_is_whitespace, chars_of, has_substring, is_whitespace, lowercase_text, push_char,
    str_contains, string_from_chars, to_lowercase,
};

verus! {

/// `s` without the whitespace at its start.
pub open spec fn trim_start(s: Seq<char>) -> Seq<char>
    decreases s.len(),
{
    if s.len() > 0 && char_is_whitespace(s[0]) {
        trim_start(s.drop_first())
    } else {
        s
    }
}

/// `s` without the whitespace at its end.
pub open spec fn trim_end(s: Seq<char>) -> Seq<char>
    decreases s.len(),
{
    if s.len() > 0 && char_is_whitespace(s.last()) {
        trim_end(s.drop_last())
    } else {
        s
    }
}

/// `s` without the whitespace at both ends.
pub open spec fn trimmed(s: Seq<char>) -> Seq<char> {
    trim_end(trim_start(s))
}

/// `s`, trimmed, and without the pair of double or single quotes around it
/// if there is one.
pub open spec fn unquoted(s: Seq<char>) -> Seq<char> {
    let t = trimmed(s);
    if t.len() >= 2 && ((t[0] == '"' && t.last() == '"') || (t[0] == '\'' && t.last() == '\'')) {
        t.subrange(1, t.len() - 1)
    } else {
        t
    }
}

/// The index of the first colon in `s` at or after `i`, or the length of
/// `s` when there is none.
pub open spec fn colon_index(s: Seq<char>, i: int) -> int
    decreases s.len() - i,
{
    if i < 0 || i >= s.len() {
        s.len() as int
    } else if s[i] == ':' {
        i
    } else {
        colon_index(s, i + 1)
    }
}

/// The two sides of a `key:value` query: the text before and after the
/// first colon, unquoted. `None` unless a colon stands after a first
/// character and both sides are non-empty.
pub open spec fn key_value_of(q: Seq<char>) -> Option<(Seq<char>, Seq<char>)> {
    let t = trimmed(q);
    let idx = colon_index(t, 0);
    if idx >= t.len() || idx == 0 {
        None
    } else {
        let k = unquoted(t.subrange(0, idx));
        let v = unquoted(t.subrange(idx + 1, t.len() as int));
        if k.len() == 0 || v.len() == 0 {
            None
        } else {
            Some((k, v))
        }
    }
}

/// `s` as it is compared: itself, or in lowercase when case is ignored.
pub open spec fn normalized(s: Seq<char>, case_sensitive: bool) -> Seq<char> {
    if case_sensitive {
        s
    } else {
        lowercase_text(s)
    }
}

#[derive(Debug, Clone)]
pub struct PreparedKv {
    pub key: String,
    pub key_quoted: String,
    pub value: String,
    pub value_quoted: String,
}

#[derive(Debug, Clone)]
pub struct PreparedSearch {
    pub q: String,
    pub q_quoted: String,
    pub kv: Option<PreparedKv>,
}

pub struct PreparedKvView {
    pub key: Seq<char>,
    pub key_quoted: Seq<char>,
    pub value: Seq<char>,
    pub value_quoted: Seq<char>,
}

pub struct PreparedSearchView {
    pub q: Seq<char>,
    pub q_quoted: Seq<char>,
    pub kv: Option<PreparedKvView>,
}

impl View for PreparedKv {
    type V = PreparedKvView;

    open spec fn view(&self) -> PreparedKvView {
        PreparedKvView {
            key: self.key@,
            key_quoted: self.key_quoted@,
            value: self.value@,
            value_quoted: self.value_quoted@,
        }
    }
}

impl View for PreparedSearch {
    type V = PreparedSearchView;

    open spec fn view(&self) -> PreparedSearchView {
        PreparedSearchView {
            q: self.q@,
            q_quoted: self.q_quoted@,
            kv: match self.kv {
                Some(kv) => Some(kv@),
                None => None,
            },
        }
    }
}

/// The matcher for the query `text`: the trimmed query and its JSON-quoted
/// form, and for a `key:value` query each side with its JSON-quoted form;
/// all of them normalized. `None` for a query that is empty once trimmed.
pub open spec fn prepared(text: Seq<char>, case_sensitive: bool) -> Option<PreparedSearchView> {
    let t = trimmed(text);
    if t.len() == 0 {
        None
    } else {
        Some(
            PreparedSearchView {
                q: normalized(t, case_sensitive),
                q_quoted: normalized(json_quoted_text(t), case_sensitive),
                kv: match key_value_of(t) {
                    Some((k, v)) => Some(
                        PreparedKvView {
                            key: normalized(k, case_sensitive),
                            key_quoted: normalized(json_quoted_text(k), case_sensitive),
                            value: normalized(v, case_sensitive),
                            value_quoted: normalized(json_quoted_text(v), case_sensitive),
                        },
                    ),
                    None => None,
                },
            },
        )
    }
}

/// Whether the normalized text `hay` matches: a `key:value` query asks for
/// the key, bare or quoted, and for the value, bare or quoted; any other
/// query asks for itself, bare or quoted.
pub open spec fn matches_hay(p: PreparedSearchView, hay: Seq<char>) -> bool {
    match p.kv {
        Some(kv) => (has_substring(hay, kv.key) || has_substring(hay, kv.key_quoted)) && (
        has_substring(hay, kv.value) || has_substring(hay, kv.value_quoted)),
        None => has_substring(hay, p.q) || has_substring(hay, p.q_quoted),
    }
}

/// Finds `chars[from..to]` without the whitespace at its ends.
fn trim_bounds(chars: &[char], from: usize, to: usize) -> (r: (usize, usize))
    requires
        from <= to <= chars.len(),
    ensures
        from <= r.0 <= r.1 <= to,
        chars@.subrange(r.0 as int, r.1 as int) == trimmed(chars@.subrange(from as int, to as int)),
{
    let mut a: usize = from;
    while a < to && is_whitespace(chars[a])
        invariant
            from <= a <= to <= chars.len(),
            trim_start(chars@.subrange(from as int, to as int)) == trim_start(
                chars@.subrange(a as int, to as int),
            ),
        decreases to - a,
    {
        assert(chars@.subrange(a as int, to as int).drop_first() =~= chars@.subrange(
            a + 1,
            to as int,
        ));
        a += 1;
    }
    let mut b: usize = to;
    while b > a && is_whitespace(chars[b - 1])
        invariant
            a <= b <= to <= chars.len(),
            trim_end(chars@.subrange(a as int, to as int)) == trim_end(
                chars@.subrange(a as int, b as int),
            ),
        decreases b,
    {
        assert(chars@.subrange(a as int, b as int).drop_last() =~= chars@.subrange(
            a as int,
            b - 1,
        ));
        b -= 1;
    }
    (a, b)
}

/// Finds `chars[from..to]` trimmed and without the quotes around it.
fn unquote_bounds(chars: &[char], from: usize, to: usize) -> (r: (usize, usize))
    requires
        from <= to <= chars.len(),
    ensures
        from <= r.0 <= r.1 <= to,
        chars@.subrange(r.0 as int, r.1 as int) == unquoted(
            chars@.subrange(from as int, to as int),
        ),
{
    let (a, b) = trim_bounds(chars, from, to);
    let ghost t = chars@.subrange(a as int, b as int);
    if b - a >= 2 {
        assert(t[0] == chars@[a as int]);
        assert(t.last() == chars@[b - 1]);
        if (chars[a] == '"' && chars[b - 1] == '"') || (chars[a] == '\'' && chars[b - 1] == '\'') {
            assert(chars@.subrange(a + 1, b - 1) =~= t.subrange(1, t.len() - 1));
            return (a + 1, b - 1);
        }
    }
    (a, b)
}

/// Trims `s` and takes off the pair of quotes around it, if there is one.
pub fn strip_quotes(s: &str) -> (r: String)
    ensures
        r@ == unquoted(s@),
{
    let chars = chars_of(s);
    assert(chars@.subrange(0, chars.len() as int) =~= chars@);
    let (a, b) = unquote_bounds(chars.as_slice(), 0, chars.len());
    string_from_chars(chars.as_slice(), a, b)
}

/// Splits a `key:value` query into its two sides.
pub fn parse_key_value_query(q: &str) -> (r: Option<(String, String)>)
    ensures
        match r {
            Some((k, v)) => key_value_of(q@) == Some((k@, v@)),
            None => key_value_of(q@) is None,
        },
{
    let chars = chars_of(q);
    assert(chars@.subrange(0, chars.len() as int) =~= chars@);
    let (a, b) = trim_bounds(chars.as_slice(), 0, chars.len());
    let ghost t = chars@.subrange(a as int, b as int);
    let mut idx: usize = a;
    while idx < b && chars[idx] != ':'
        invariant
            a <= idx <= b <= chars.len(),
            t == chars@.subrange(a as int, b as int),
            colon_index(t, 0) == colon_index(t, idx - a),
        decreases b - idx,
    {
        idx += 1;
    }
    if idx >= b || idx == a {
        return None;
    }
    proof {
        assert(chars@.subrange(a as int, idx as int) =~= t.subrange(0, idx - a));
        assert(chars@.subrange(idx + 1, b as int) =~= t.subrange(idx - a + 1, t.len() as int));
    }
    let (ka, kb) = unquote_bounds(chars.as_slice(), a, idx);
    let (va, vb) = unquote_bounds(chars.as_slice(), idx + 1, b);
    if ka == kb || va == vb {
        return None;
    }
    Some((string_from_chars(chars.as_slice(), ka, kb), string_from_chars(chars.as_slice(), va, vb)))
}

fn normalize(s: String, case_sensitive: bool) -> (r: String)
    ensures
        r@ == normalized(s@, case_sensitive),
{
    if case_sensitive {
        s
    } else {
        to_lowercase(s.as_str())
    }
}

impl PreparedSearch {
    /// Prepares the matcher for `query`, or `None` for an empty query.
    pub fn new(query: &SearchQuery) -> (r: Option<PreparedSearch>)
        ensures
            match r {
                Some(p) => prepared(query.text@, query.case_sensitive) == Some(p@),
                None => prepared(query.text@, query.case_sensitive) is None,
            },
    {
        let chars = chars_of(query.text.as_str());
        assert(chars@.subrange(0, chars.len() as int) =~= chars@);
        let (a, b) = trim_bounds(chars.as_slice(), 0, chars.len());
        if a == b {
            return None;
        }
        let t = string_from_chars(chars.as_slice(), a, b);
        let cs = query.case_sensitive;
        let q_quoted = normalize(json_quote(t.as_str()), cs);
        let kv = match parse_key_value_query(t.as_str()) {
            Some((k, v)) => {
                let key_quoted = normalize(json_quote(k.as_str()), cs);
                let value_quoted = normalize(json_quote(v.as_str()), cs);
                Some(
                    PreparedKv {
                        key: normalize(k, cs),
                        key_quoted,
                        value: normalize(v, cs),
                        value_quoted,
                    },
                )
            },
            None => None,
        };
        Some(PreparedSearch { q: normalize(t, cs), q_quoted, kv })
    }

    /// Whether `hay` matches. `hay` must be normalized as the matcher was:
    /// lowercased unless the query is case sensitive.
    pub fn matches_in_hay(&self, hay: &str) -> (r: bool)
        ensures
            r == matches_hay(self@, hay@),
    {
        match &self.kv {
            Some(kv) => {
                let key_ok = str_contains(hay, kv.key.as_str()) || str_contains(
                    hay,
                    kv.key_quoted.as_str(),
                );
                let val_ok = str_contains(hay, kv.value.as_str()) || str_contains(
                    hay,
                    kv.value_quoted.as_str(),
                );
                key_ok && val_ok
            },
            None => str_contains(hay, self.q.as_str()) || str_contains(hay, self.q_quoted.as_str()),
        }
    }
}

/// The text of a record that a search looks at: its preview, and on a line
/// of its own its raw text if it has one.
pub open spec fn record_text(r: RecordView) -> Seq<char> {
    match r.raw {
        Some(raw) => r.preview.push('\n') + raw,
        None => r.preview,
    }
}

/// Whether record `r` matches.
pub open spec fn record_matches(r: RecordView, p: PreparedSearchView, case_sensitive: bool) -> bool {
    matches_hay(p, normalized(record_text(r), case_sensitive))
}

/// The records among `records` that match, in order.
pub open spec fn hits_of(
    records: Seq<RecordView>,
    p: PreparedSearchView,
    case_sensitive: bool,
) -> Seq<RecordView>
    decreases records.len(),
{
    if records.len() == 0 {
        Seq::empty()
    } else {
        let rest = hits_of(records.drop_last(), p, case_sensitive);
        if record_matches(records.last(), p, case_sensitive) {
            rest.push(records.last())
        } else {
            rest
        }
    }
}

/// The hits of `query` among `records`: none for an empty query.
pub open spec fn page_hits(records: Seq<RecordView>, text: Seq<char>, case_sensitive: bool) -> Seq<
    RecordView,
> {
    match prepared(text, case_sensitive) {
        Some(p) => hits_of(records, p, case_sensitive),
        None => Seq::empty(),
    }
}

/// Every hit is one of the records that were searched.
pub proof fn lemma_hits_are_records(
    records: Seq<RecordView>,
    p: PreparedSearchView,
    case_sensitive: bool,
)
    ensures
        forall|i: int|
            0 <= i < hits_of(records, p, case_sensitive).len() ==> records.contains(
                #[trigger] hits_of(records, p, case_sensitive)[i],
            ),
        hits_of(records, p, case_sensitive).len() <= records.len(),
    decreases records.len(),
{
    if records.len() > 0 {
        let front = records.drop_last();
        lemma_hits_are_records(front, p, case_sensitive);
        let rest = hits_of(front, p, case_sensitive);
        let hits = hits_of(records, p, case_sensitive);
        assert forall|i: int| 0 <= i < hits.len() implies records.contains(#[trigger] hits[i]) by {
            if i < rest.len() {
                assert(front.contains(rest[i]));
                let j = choose|j: int| 0 <= j < front.len() && front[j] == rest[i];
                assert(records[j] == rest[i]);
            } else {
                assert(records[records.len() - 1] == hits[i]);
            }
        }
    }
}

/// Searches the records of `page`, in order.
pub fn search_current_page(page: &RecordPage, query: &SearchQuery) -> (r: SearchResult)
    ensures
        r.mode == SearchMode::CurrentPage,
        r.task is None,
        !r.truncated,
        records_view(r.hits@) == page_hits(
            records_view(page.records@),
            query.text@,
            query.case_sensitive,
        ),
        forall|i: int|
            0 <= i < r.hits@.len() ==> records_view(page.records@).contains(
                #[trigger] records_view(r.hits@)[i],
            ),
{
    let mut hits: Vec<Record> = Vec::new();
    let prepared_search = match PreparedSearch::new(query) {
        Some(p) => p,
        None => {
            assert(records_view(hits@) =~= Seq::empty());
            return SearchResult {
                mode: SearchMode::CurrentPage,
                hits,
                task: None,
                truncated: false,
            };
        },
    };
    let ghost all = records_view(page.records@);
    let ghost p = prepared_search@;
    let cs = query.case_sensitive;
    let mut i: usize = 0;
    assert(all.take(0) =~= Seq::empty());
    assert(records_view(hits@) =~= Seq::empty());
    while i < page.records.len()
        invariant
            i <= page.records.len(),
            all == records_view(page.records@),
            p == prepared_search@,
            cs == query.case_sensitive,
            records_view(hits@) == hits_of(all.take(i as int), p, cs),
        decreases page.records.len() - i,
    {
        let r = &page.records[i];
        proof {
            assert(all.take(i + 1).drop_last() =~= all.take(i as int));
            assert(all.take(i + 1).last() == r@);
        }
        let text = match &r.raw {
            Some(raw) => {
                let mut t = r.preview.clone();
                push_char(&mut t, '\n');
                t.append(raw.as_str());
                t
            },
            None => r.preview.clone(),
        };
        let hay = normalize(text, cs);
        if prepared_search.matches_in_hay(hay.as_str()) {
            let ghost before = records_view(hits@);
            hits.push(r.copy());
            assert(records_view(hits@) =~= before.push(r@));
        }
        i += 1;
    }
    proof {
        assert(all.take(page.records.len() as int) =~= all);
        lemma_hits_are_records(all, p, cs);
    }
    SearchResult { mode: SearchMode::CurrentPage, hits, task: None, truncated: false }
}

} // verus!
