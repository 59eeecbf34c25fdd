//! The head of an HTTP request: its request line and its headers, read from text.

use vstd::prelude::*;
use vstd::string::*;
use crate::text::{
    chars_of, find_separator, lemma_lines_append, lemma_lines_terminated, line_bounds, line_end,
    lines, lines_from, lowercases_to, lowercases_to_key, newline_at_or_after, next_line_start,
    skip_white, split_header, substring, text_of, word_end, words,
};

verus! {

/// An HTTP header with a name-value pair.
#[derive(Debug)]
pub struct Header {
    pub name: String,
    pub value: String,
}

impl View for Header {
    type V = (Seq<char>, Seq<char>);

    open spec fn view(&self) -> (Seq<char>, Seq<char>) {
        (self.name@, self.value@)
    }
}

/// An HTTP request head: method, path, version and the headers after them.
#[derive(Debug)]
pub struct HttpRequest {
    pub method: Option<String>,
    pub path: Option<String>,
    pub http_version: Option<String>,
    pub headers: Vec<Header>,
}

/// What an `HttpRequest` holds, as text.
pub struct RequestView {
    pub method: Option<Seq<char>>,
    pub path: Option<Seq<char>>,
    pub http_version: Option<Seq<char>>,
    pub headers: Seq<(Seq<char>, Seq<char>)>,
}

impl View for HttpRequest {
    type V = RequestView;

    open spec fn view(&self) -> RequestView {
        RequestView {
            method: text_of(self.method),
            path: text_of(self.path),
            http_version: text_of(self.http_version),
            headers: self.headers@.map_values(|h: Header| h@),
        }
    }
}

pub open spec fn method_key() -> Seq<char> {
    seq!['m', 'e', 't', 'h', 'o', 'd']
}

pub open spec fn path_key() -> Seq<char> {
    seq!['p', 'a', 't', 'h']
}

pub open spec fn version_key() -> Seq<char> {
    seq!['h', 't', 't', 'p', '_', 'v', 'e', 'r', 's', 'i', 'o', 'n']
}

/// The request line of `s`: the first three words of its first line, if it has them.
pub open spec fn request_line(s: Seq<char>) -> Option<(Seq<char>, Seq<char>, Seq<char>)> {
    let ls = lines(s);
    if ls.len() == 0 {
        None
    } else {
        let w = words(ls[0]);
        if w.len() < 3 {
            None
        } else {
            Some((w[0], w[1], w[2]))
        }
    }
}

/// The header lines among `ls`: those before the first empty line.
pub open spec fn header_block(ls: Seq<Seq<char>>) -> Seq<Seq<char>>
    decreases ls.len(),
{
    if ls.len() == 0 || ls[0].len() == 0 {
        seq![]
    } else {
        seq![ls[0]] + header_block(ls.drop_first())
    }
}

/// A header read by `from_string`: the names `method`, `path` and `http_version`
/// (in any case) set those parts; any other header is appended.
pub open spec fn assign_header(r: RequestView, name: Seq<char>, value: Seq<char>) -> RequestView {
    if lowercases_to(name, method_key()) {
        RequestView { method: Some(value), ..r }
    } else if lowercases_to(name, path_key()) {
        RequestView { path: Some(value), ..r }
    } else if lowercases_to(name, version_key()) {
        RequestView { http_version: Some(value), ..r }
    } else {
        RequestView { headers: r.headers.push((name, value)), ..r }
    }
}

/// `headers` holds a header named `name`.
pub open spec fn has_header_named(headers: Seq<(Seq<char>, Seq<char>)>, name: Seq<char>) -> bool {
    exists|i: int| 0 <= i < headers.len() && headers[i].0 == name
}

/// A header read by `update_structure`: appended unless one of that name is already there.
pub open spec fn merge_header(r: RequestView, name: Seq<char>, value: Seq<char>) -> RequestView {
    if has_header_named(r.headers, name) {
        r
    } else {
        RequestView { headers: r.headers.push((name, value)), ..r }
    }
}

/// Reads the header lines `hs` into `r`, one after the other, by `merge_header` when
/// `merge` holds and by `assign_header` otherwise. The flag is false when a line
/// holds no `": "`; the request is then as the lines before it left it.
pub open spec fn apply_header_lines(r: RequestView, hs: Seq<Seq<char>>, merge: bool) -> (
    RequestView,
    bool,
)
    decreases hs.len(),
{
    if hs.len() == 0 {
        (r, true)
    } else {
        match split_header(hs[0]) {
            None => (r, false),
            Some((n, v)) => apply_header_lines(
                if merge {
                    merge_header(r, n, v)
                } else {
                    assign_header(r, n, v)
                },
                hs.drop_first(),
                merge,
            ),
        }
    }
}

/// The header lines of `s`.
pub open spec fn header_lines(s: Seq<char>) -> Seq<Seq<char>> {
    header_block(lines(s).drop_first())
}

/// The request that `s` describes, or `None` when `s` is not a request head.
pub open spec fn parse_request(s: Seq<char>) -> Option<RequestView> {
    match request_line(s) {
        None => None,
        Some((m, p, v)) => {
            let start = RequestView {
                method: Some(m),
                path: Some(p),
                http_version: Some(v),
                headers: seq![],
            };
            let (r, ok) = apply_header_lines(start, header_lines(s), false);
            if ok {
                Some(r)
            } else {
                None
            }
        },
    }
}

/// The request head `old` after `update_structure` read `s` into it, and whether all
/// of `s` was read.
pub open spec fn update_request(old: RequestView, s: Seq<char>) -> (RequestView, bool) {
    match request_line(s) {
        None => (old, false),
        Some((m, p, v)) => {
            let start = RequestView {
                method: Some(m),
                path: Some(p),
                http_version: Some(v),
                headers: old.headers,
            };
            apply_header_lines(start, header_lines(s), true)
        },
    }
}

/// No two headers in `hs` share a name.
pub open spec fn distinct_names(hs: Seq<(Seq<char>, Seq<char>)>) -> bool {
    forall|i: int, j: int| 0 <= i < j < hs.len() ==> hs[i].0 != hs[j].0
}

/// Merging header lines only appends, and keeps names distinct.
proof fn lemma_merge_lines(r: RequestView, hs: Seq<Seq<char>>)
    ensures
        r.headers.len() <= apply_header_lines(r, hs, true).0.headers.len(),
        apply_header_lines(r, hs, true).0.headers.take(r.headers.len() as int) == r.headers,
        distinct_names(r.headers) ==> distinct_names(apply_header_lines(r, hs, true).0.headers),
    decreases hs.len(),
{
    if hs.len() > 0 {
        if let Some((n, v)) = split_header(hs[0]) {
            let r2 = merge_header(r, n, v);
            lemma_merge_lines(r2, hs.drop_first());
            let f = apply_header_lines(r2, hs.drop_first(), true).0.headers;
            assert(r2.headers.take(r.headers.len() as int) =~= r.headers);
            assert(f.take(r.headers.len() as int) =~= r2.headers.take(r.headers.len() as int));
            if distinct_names(r.headers) && !has_header_named(r.headers, n) {
                assert forall|i: int, j: int| 0 <= i < j < r2.headers.len() implies r2.headers[i].0
                    != r2.headers[j].0 by {
                    if j == r.headers.len() {
                        assert(!(0 <= i < r.headers.len() && r.headers[i].0 == n));
                    }
                }
            }
        } else {
            assert(apply_header_lines(r, hs, true).0.headers.take(r.headers.len() as int)
                =~= r.headers);
        }
    } else {
        assert(r.headers.take(r.headers.len() as int) =~= r.headers);
    }
}

/// `update_structure` only appends headers: those there before stay, in order and
/// with their values, and no name it reads is added a second time.
pub proof fn lemma_update_keeps_headers(old: RequestView, s: Seq<char>)
    ensures
        old.headers.len() <= update_request(old, s).0.headers.len(),
        update_request(old, s).0.headers.take(old.headers.len() as int) == old.headers,
        distinct_names(old.headers) ==> distinct_names(update_request(old, s).0.headers),
{
    match request_line(s) {
        None => {
            assert(old.headers.take(old.headers.len() as int) =~= old.headers);
        },
        Some((m, p, v)) => {
            let start = RequestView {
                method: Some(m),
                path: Some(p),
                http_version: Some(v),
                headers: old.headers,
            };
            lemma_merge_lines(start, header_lines(s));
        },
    }
}

/// `header_block` stops at an empty line: what follows one is never a header line.
proof fn lemma_header_block_stops(a: Seq<Seq<char>>, c: Seq<Seq<char>>)
    requires
        c.len() > 0,
        c[0].len() == 0,
    ensures
        header_block(a + c) == header_block(a),
    decreases a.len(),
{
    if a.len() == 0 {
        assert(a + c =~= c);
    } else {
        assert((a + c)[0] == a[0]);
        assert((a + c).drop_first() =~= a.drop_first() + c);
        if a[0].len() != 0 {
            lemma_header_block_stops(a.drop_first(), c);
        }
    }
}

/// Text that starts with `"\r\n"` starts with an empty line.
proof fn lemma_starts_blank(q: Seq<char>)
    requires
        q.len() >= 2,
        q[0] == '\r',
        q[1] == '\n',
    ensures
        lines(q).len() > 0,
        lines(q)[0].len() == 0,
{
    assert(newline_at_or_after(q, 1) == 1);
    assert(newline_at_or_after(q, 0) == 1);
    assert(line_end(q, 0) == 0);
    assert(lines(q) == seq![q.subrange(0, 0)] + lines_from(q, next_line_start(q, 0)));
}

/// The lines of a head, an empty line and a body: the lines of the head, then lines
/// of which the first is empty.
proof fn lemma_blank_line_split(h: Seq<char>, body: Seq<char>) -> (c: Seq<Seq<char>>)
    ensures
        lines(h + seq!['\r', '\n', '\r', '\n'] + body) == lines(h) + c,
        c.len() > 0,
        c[0].len() == 0,
{
    let t2 = seq!['\r', '\n'];
    let full = h + seq!['\r', '\n', '\r', '\n'] + body;
    if h.len() == 0 {
        let q = seq!['\r', '\n', '\r', '\n'] + body;
        assert(full =~= q);
        lemma_starts_blank(q);
        assert(lines(h) =~= Seq::<Seq<char>>::empty());
        assert(lines(h) + lines(q) =~= lines(q));
        lines(q)
    } else if h.last() == '\n' {
        let q = seq!['\r', '\n', '\r', '\n'] + body;
        assert(full =~= h + q);
        lemma_starts_blank(q);
        lemma_lines_append(h, q, 0);
        lines(q)
    } else {
        let p = h + t2;
        let q = t2 + body;
        assert(full =~= p + q);
        assert(p.last() == '\n');
        lemma_starts_blank(q);
        lemma_lines_append(p, q, 0);
        lemma_lines_terminated(h, 0);
        lines(q)
    }
}

/// Nothing after the first empty line is read: a request head followed by an empty
/// line and any body reads, for `from_string` and for `update_structure`, as the head
/// alone.
pub proof fn lemma_body_is_not_read(h: Seq<char>, body: Seq<char>, old: RequestView)
    ensures
        request_line(h + seq!['\r', '\n', '\r', '\n'] + body) == request_line(h),
        parse_request(h + seq!['\r', '\n', '\r', '\n'] + body) == parse_request(h),
        update_request(old, h + seq!['\r', '\n', '\r', '\n'] + body) == update_request(old, h),
{
    let full = h + seq!['\r', '\n', '\r', '\n'] + body;
    let c = lemma_blank_line_split(h, body);
    let lh = lines(h);
    if lh.len() > 0 {
        assert((lh + c)[0] == lh[0]);
        assert((lh + c).drop_first() =~= lh.drop_first() + c);
        lemma_header_block_stops(lh.drop_first(), c);
        assert(header_lines(full) == header_lines(h));
    } else {
        assert(lh + c =~= c);
        assert(words(c[0]) =~= Seq::<Seq<char>>::empty());
    }
}

/// Every header line of `hs` holds a separator, and its name is among `headers`.
spec fn names_present(hs: Seq<Seq<char>>, headers: Seq<(Seq<char>, Seq<char>)>) -> bool {
    forall|i: int|
        0 <= i < hs.len() ==> match split_header(#[trigger] hs[i]) {
            Some((n, _)) => has_header_named(headers, n),
            None => false,
        }
}

/// A merging pass keeps method, path and version, and when it reads every line, every
/// name it read is among the headers it leaves.
proof fn lemma_merge_pass(r: RequestView, hs: Seq<Seq<char>>)
    ensures
        apply_header_lines(r, hs, true).0.method == r.method,
        apply_header_lines(r, hs, true).0.path == r.path,
        apply_header_lines(r, hs, true).0.http_version == r.http_version,
        apply_header_lines(r, hs, true).1 ==> names_present(
            hs,
            apply_header_lines(r, hs, true).0.headers,
        ),
    decreases hs.len(),
{
    if hs.len() > 0 {
        if let Some((n, v)) = split_header(hs[0]) {
            let r2 = merge_header(r, n, v);
            let rest = hs.drop_first();
            lemma_merge_pass(r2, rest);
            lemma_merge_lines(r2, rest);
            let f = apply_header_lines(r2, rest, true);
            if f.1 {
                if !has_header_named(r.headers, n) {
                    assert(r2.headers[r.headers.len() as int].0 == n);
                }
                assert(has_header_named(r2.headers, n));
                let k = choose|k: int| 0 <= k < r2.headers.len() && r2.headers[k].0 == n;
                assert(f.0.headers.take(r2.headers.len() as int)[k] == r2.headers[k]);
                assert(f.0.headers[k].0 == n);
                assert forall|i: int| 0 <= i < hs.len() implies match split_header(
                    #[trigger] hs[i],
                ) {
                    Some((n2, _)) => has_header_named(f.0.headers, n2),
                    None => false,
                } by {
                    if i > 0 {
                        assert(hs[i] == rest[i - 1]);
                    }
                }
            }
        }
    }
}

/// A merging pass over lines whose names are all present already changes nothing.
proof fn lemma_merge_pass_present(r: RequestView, hs: Seq<Seq<char>>)
    requires
        names_present(hs, r.headers),
    ensures
        apply_header_lines(r, hs, true) == (r, true),
    decreases hs.len(),
{
    if hs.len() > 0 {
        let rest = hs.drop_first();
        assert(split_header(hs[0]) is Some);
        assert forall|i: int| 0 <= i < rest.len() implies match split_header(#[trigger] rest[i]) {
            Some((n, _)) => has_header_named(r.headers, n),
            None => false,
        } by {
            assert(rest[i] == hs[i + 1]);
        }
        lemma_merge_pass_present(r, rest);
    }
}

/// A header name that sets a part of the request line: `method`, `path` or
/// `http_version`, in any case.
pub open spec fn sets_request_line(name: Seq<char>) -> bool {
    lowercases_to(name, method_key()) || lowercases_to(name, path_key()) || lowercases_to(
        name,
        version_key(),
    )
}

/// The header lines among `hs` that hold a `": "` and whose names set no part of the
/// request line, each split at its first `": "`, in order.
pub open spec fn ordinary_headers(hs: Seq<Seq<char>>) -> Seq<(Seq<char>, Seq<char>)>
    decreases hs.len(),
{
    if hs.len() == 0 {
        seq![]
    } else {
        match split_header(hs[0]) {
            Some((n, v)) => if sets_request_line(n) {
                ordinary_headers(hs.drop_first())
            } else {
                seq![(n, v)] + ordinary_headers(hs.drop_first())
            },
            None => ordinary_headers(hs.drop_first()),
        }
    }
}

/// A pass that reads every line of `hs` appends its ordinary headers, all of them.
proof fn lemma_assign_pass(r: RequestView, hs: Seq<Seq<char>>)
    ensures
        apply_header_lines(r, hs, false).1 ==> apply_header_lines(r, hs, false).0.headers
            == r.headers + ordinary_headers(hs),
    decreases hs.len(),
{
    if hs.len() == 0 {
        assert(r.headers + Seq::<(Seq<char>, Seq<char>)>::empty() =~= r.headers);
    } else if let Some((n, v)) = split_header(hs[0]) {
        let rest = hs.drop_first();
        let r2 = assign_header(r, n, v);
        lemma_assign_pass(r2, rest);
        if sets_request_line(n) {
            assert(r2.headers == r.headers);
        } else {
            assert(r2.headers == r.headers.push((n, v)));
            assert(r.headers.push((n, v)) + ordinary_headers(rest) =~= r.headers + (seq![(n, v)]
                + ordinary_headers(rest)));
        }
    }
}

/// `from_string` keeps every header line whose name sets no part of the request
/// line, split at its first `": "` with the whole rest of the line as its value, in
/// order, repeated names included: as many headers as such lines.
pub proof fn lemma_request_keeps_every_ordinary_header(s: Seq<char>)
    ensures
        parse_request(s) matches Some(r) ==> r.headers == ordinary_headers(header_lines(s)),
        parse_request(s) matches Some(r) ==> r.headers.len() == ordinary_headers(
            header_lines(s),
        ).len(),
{
    if let Some((m, p, v)) = request_line(s) {
        let start = RequestView {
            method: Some(m),
            path: Some(p),
            http_version: Some(v),
            headers: seq![],
        };
        lemma_assign_pass(start, header_lines(s));
        assert(Seq::<(Seq<char>, Seq<char>)>::empty() + ordinary_headers(header_lines(s))
            =~= ordinary_headers(header_lines(s)));
    }
}

/// Every header that a merging pass appends is a line of `hs` split at its first
/// `": "`.
proof fn lemma_merge_appends_lines(r: RequestView, hs: Seq<Seq<char>>)
    ensures
        forall|k: int|
            #![trigger apply_header_lines(r, hs, true).0.headers[k]]
            r.headers.len() <= k < apply_header_lines(r, hs, true).0.headers.len() ==> exists|
                j: int,
            |
                0 <= j < hs.len() && #[trigger] split_header(hs[j]) == Some(
                    apply_header_lines(r, hs, true).0.headers[k],
                ),
    decreases hs.len(),
{
    if hs.len() > 0 {
        if let Some((n, v)) = split_header(hs[0]) {
            let r2 = merge_header(r, n, v);
            let rest = hs.drop_first();
            lemma_merge_appends_lines(r2, rest);
            lemma_merge_lines(r2, rest);
            let f = apply_header_lines(r2, rest, true).0.headers;
            assert(apply_header_lines(r, hs, true).0.headers == f);
            assert forall|k: int| #![trigger f[k]] r.headers.len() <= k < f.len() implies exists|j: int|
                0 <= j < hs.len() && #[trigger] split_header(hs[j]) == Some(f[k]) by {
                if k < r2.headers.len() {
                    assert(r2.headers == r.headers.push((n, v)));
                    assert(f.take(r2.headers.len() as int)[k] == f[k]);
                    assert(split_header(hs[0]) == Some(f[k]));
                } else {
                    let j = choose|j: int|
                        0 <= j < rest.len() && #[trigger] split_header(rest[j]) == Some(f[k]);
                    assert(hs[j + 1] == rest[j]);
                    assert(split_header(hs[j + 1]) == Some(f[k]));
                }
            }
        } else {
            assert(apply_header_lines(r, hs, true).0 == r);
        }
    }
}

/// No line of `hs` before `j` holds a header named `n`.
pub open spec fn first_named(hs: Seq<Seq<char>>, j: int, n: Seq<char>) -> bool {
    forall|i: int| 0 <= i < j ==> match #[trigger] split_header(hs[i]) {
        Some((n2, _)) => n2 != n,
        None => true,
    }
}

/// A merging pass that reads every line appends the first line of each name not
/// there before, with its whole value.
proof fn lemma_merge_keeps_first_lines(r: RequestView, hs: Seq<Seq<char>>, j: int)
    requires
        apply_header_lines(r, hs, true).1,
        0 <= j < hs.len(),
        split_header(hs[j]) is Some,
        !has_header_named(r.headers, split_header(hs[j]).unwrap().0),
        first_named(hs, j, split_header(hs[j]).unwrap().0),
    ensures
        apply_header_lines(r, hs, true).0.headers.contains(split_header(hs[j]).unwrap()),
    decreases hs.len(),
{
    let (n, v) = split_header(hs[j]).unwrap();
    let (n0, v0) = split_header(hs[0]).unwrap();
    let r2 = merge_header(r, n0, v0);
    let rest = hs.drop_first();
    let f = apply_header_lines(r2, rest, true).0.headers;
    lemma_merge_lines(r2, rest);
    if j == 0 {
        assert(r2.headers == r.headers.push((n, v)));
        assert(f.take(r2.headers.len() as int)[r.headers.len() as int] == (n, v));
        assert(f[r.headers.len() as int] == (n, v));
    } else {
        assert(split_header(hs[0]) matches Some((n2, _)) && n2 != n);
        assert(rest[j - 1] == hs[j]);
        assert(!has_header_named(r2.headers, n)) by {
            if has_header_named(r2.headers, n) {
                let k = choose|k: int| 0 <= k < r2.headers.len() && r2.headers[k].0 == n;
                if k < r.headers.len() {
                    assert(r2.headers[k] == r.headers[k]);
                }
            }
        }
        assert forall|i: int| 0 <= i < j - 1 implies match #[trigger] split_header(rest[i]) {
            Some((n2, _)) => n2 != n,
            None => true,
        } by {
            assert(rest[i] == hs[i + 1]);
            assert(match split_header(hs[i + 1]) {
                Some((n2, _)) => n2 != n,
                None => true,
            });
        }
        lemma_merge_keeps_first_lines(r2, rest, j - 1);
    }
}

/// Each header that `update_structure` appends is a header line of the new text,
/// split at its first `": "`, with the whole rest of the line as its value; and when
/// the whole text is read, every name among its header lines is among the headers.
pub proof fn lemma_update_appends_whole_lines(old: RequestView, s: Seq<char>)
    ensures
        forall|k: int|
            #![trigger update_request(old, s).0.headers[k]]
            old.headers.len() <= k < update_request(old, s).0.headers.len() ==> exists|j: int|
                0 <= j < header_lines(s).len() && #[trigger] split_header(header_lines(s)[j])
                    == Some(update_request(old, s).0.headers[k]),
        update_request(old, s).1 ==> forall|j: int|
            0 <= j < header_lines(s).len() ==> match #[trigger] split_header(header_lines(s)[j]) {
                Some((n, _)) => has_header_named(update_request(old, s).0.headers, n),
                None => false,
            },
        update_request(old, s).1 ==> forall|j: int|
            #![trigger split_header(header_lines(s)[j])]
            0 <= j < header_lines(s).len() && split_header(header_lines(s)[j]) is Some
                && !has_header_named(old.headers, split_header(header_lines(s)[j]).unwrap().0)
                && first_named(header_lines(s), j, split_header(header_lines(s)[j]).unwrap().0)
                ==> update_request(old, s).0.headers.contains(
                split_header(header_lines(s)[j]).unwrap(),
            ),
{
    if let Some((m, p, v)) = request_line(s) {
        let start = RequestView {
            method: Some(m),
            path: Some(p),
            http_version: Some(v),
            headers: old.headers,
        };
        lemma_merge_appends_lines(start, header_lines(s));
        lemma_merge_pass(start, header_lines(s));
        if update_request(old, s).1 {
            assert forall|j: int|
                #![trigger split_header(header_lines(s)[j])]
                0 <= j < header_lines(s).len() && split_header(header_lines(s)[j]) is Some
                    && !has_header_named(old.headers, split_header(header_lines(s)[j]).unwrap().0)
                    && first_named(header_lines(s), j, split_header(header_lines(s)[j]).unwrap().0)
                    implies update_request(old, s).0.headers.contains(
                split_header(header_lines(s)[j]).unwrap(),
            ) by {
                lemma_merge_keeps_first_lines(start, header_lines(s), j);
            }
        }
    }
}

/// Reading the same request text a second time changes nothing: when
/// `update_structure` read all of `s`, reading `s` again succeeds and leaves the
/// request as the first read left it.
pub proof fn lemma_update_idempotent(r: RequestView, s: Seq<char>)
    requires
        update_request(r, s).1,
    ensures
        update_request(update_request(r, s).0, s) == update_request(r, s),
{
    if let Some((m, p, v)) = request_line(s) {
        let start = RequestView {
            method: Some(m),
            path: Some(p),
            http_version: Some(v),
            headers: r.headers,
        };
        let r1 = update_request(r, s).0;
        lemma_merge_pass(start, header_lines(s));
        let again = RequestView {
            method: Some(m),
            path: Some(p),
            http_version: Some(v),
            headers: r1.headers,
        };
        assert(again == r1);
        lemma_merge_pass_present(r1, header_lines(s));
    }
}

/// Reads the request line of `s`: its three parts, and where the line after it starts.
fn read_request_line(v: &Vec<char>, s: &str) -> (r: Option<(String, String, String, usize)>)
    requires
        v@ == s@,
    ensures
        match r {
            None => request_line(v@) is None,
            Some((m, p, ver, next)) => {
                &&& request_line(v@) == Some((m@, p@, ver@))
                &&& lines(v@).drop_first() == lines_from(v@, next as int)
                &&& next <= v@.len()
            },
        },
{
    if v.len() == 0 {
        return None;
    }
    let (cend, next) = line_bounds(v, 0);
    let ghost line = v@.subrange(0, cend as int);
    assert(lines(v@) == seq![line] + lines_from(v@, next as int));
    assert(lines(v@)[0] == line);
    assert(lines(v@).drop_first() =~= lines_from(v@, next as int));
    let j0 = skip_white(v, 0, cend);
    if j0 == cend {
        assert(v@.subrange(j0 as int, cend as int).len() == 0);
        return None;
    }
    let k0 = word_end(v, j0, cend);
    let j1 = skip_white(v, k0, cend);
    if j1 == cend {
        assert(v@.subrange(j1 as int, cend as int).len() == 0);
        assert(words(line).len() == 1);
        return None;
    }
    let k1 = word_end(v, j1, cend);
    let j2 = skip_white(v, k1, cend);
    if j2 == cend {
        assert(v@.subrange(j2 as int, cend as int).len() == 0);
        assert(words(line).len() == 2);
        return None;
    }
    let k2 = word_end(v, j2, cend);
    let m = substring(s, j0, k0);
    let p = substring(s, j1, k1);
    let ver = substring(s, j2, k2);
    assert(words(line)[0] == m@);
    assert(words(line)[1] == p@);
    assert(words(line)[2] == ver@);
    Some((m, p, ver, next))
}

/// Whether `headers` holds a header named `name`.
fn has_header(headers: &Vec<Header>, name: &String) -> (r: bool)
    ensures
        r == has_header_named(headers@.map_values(|h: Header| h@), name@),
{
    let ghost hv = headers@.map_values(|h: Header| h@);
    let mut i: usize = 0;
    while i < headers.len()
        invariant
            0 <= i <= headers@.len(),
            hv == headers@.map_values(|h: Header| h@),
            forall|j: int| 0 <= j < i ==> hv[j].0 != name@,
        decreases headers@.len() - i,
    {
        if headers[i].name == *name {
            assert(hv[i as int].0 == name@);
            return true;
        }
        i = i + 1;
    }
    false
}

/// Reads the header lines of `v` from position `start` into `req`.
fn read_header_lines(v: &Vec<char>, s: &str, req: &mut HttpRequest, start: usize, merge: bool) -> (ok: bool)
    requires
        v@ == s@,
        start <= v@.len(),
    ensures
        (final(req)@, ok) == apply_header_lines(
            old(req)@,
            header_block(lines_from(v@, start as int)),
            merge,
        ),
{
    let ghost goal = apply_header_lines(old(req)@, header_block(lines_from(v@, start as int)), merge);
    let method_key_chars: Vec<char> = vec!['m', 'e', 't', 'h', 'o', 'd'];
    let path_key_chars: Vec<char> = vec!['p', 'a', 't', 'h'];
    let version_key_chars: Vec<char> = vec!['h', 't', 't', 'p', '_', 'v', 'e', 'r', 's', 'i', 'o', 'n'];
    assert(method_key_chars@ =~= method_key());
    assert(path_key_chars@ =~= path_key());
    assert(version_key_chars@ =~= version_key());
    let mut pos: usize = start;
    let mut outcome: Option<bool> = None;
    while outcome.is_none() && pos < v.len()
        invariant
            v@ == s@,
            pos <= v@.len(),
            method_key_chars@ == method_key(),
            path_key_chars@ == path_key(),
            version_key_chars@ == version_key(),
            outcome matches Some(b) ==> goal == (req@, b),
            outcome is None ==> goal == apply_header_lines(
                req@,
                header_block(lines_from(v@, pos as int)),
                merge,
            ),
        decreases v@.len() - pos,
    {
        let (cend, next) = line_bounds(v, pos);
        let ghost line = v@.subrange(pos as int, cend as int);
        let ghost rest = lines_from(v@, next as int);
        assert(lines_from(v@, pos as int) == seq![line] + rest);
        assert((seq![line] + rest)[0] == line);
        assert((seq![line] + rest).drop_first() =~= rest);
        if cend == pos {
            assert(line.len() == 0);
            assert(header_block(lines_from(v@, pos as int)) =~= Seq::<Seq<char>>::empty());
            assert(apply_header_lines(req@, Seq::<Seq<char>>::empty(), merge) == (req@, true));
            outcome = Some(true);
        } else {
            let ghost block = header_block(lines_from(v@, pos as int));
            assert(block == seq![line] + header_block(rest));
            assert(block[0] == line);
            assert(block.drop_first() =~= header_block(rest));
            match find_separator(v, pos, cend) {
                None => {
                    assert(split_header(line) is None);
                    assert(apply_header_lines(req@, block, merge) == (req@, false));
                    outcome = Some(false);
                },
                Some(k) => {
                    let name = substring(s, pos, k);
                    let value = substring(s, k + 2, cend);
                    assert(line.take(k - pos) =~= name@);
                    assert(line.skip(k - pos + 2) =~= value@);
                    assert(split_header(line) == Some((name@, value@)));
                    let ghost before = req@;
                    if merge {
                        if !has_header(&req.headers, &name) {
                            req.headers.push(Header { name, value });
                            assert(req@.headers =~= before.headers.push((name@, value@)));
                        }
                        assert(req@ == merge_header(before, name@, value@));
                    } else {
                        if lowercases_to_key(v, pos, k, &method_key_chars) {
                            req.method = Some(value);
                        } else if lowercases_to_key(v, pos, k, &path_key_chars) {
                            req.path = Some(value);
                        } else if lowercases_to_key(v, pos, k, &version_key_chars) {
                            req.http_version = Some(value);
                        } else {
                            req.headers.push(Header { name, value });
                            assert(req@.headers =~= before.headers.push((name@, value@)));
                        }
                        assert(req@ == assign_header(before, name@, value@));
                    }
                },
            }
        }
        pos = next;
    }
    match outcome {
        Some(b) => b,
        None => {
            assert(lines_from(v@, pos as int) =~= Seq::<Seq<char>>::empty());
            assert(header_block(lines_from(v@, pos as int)) =~= Seq::<Seq<char>>::empty());
            assert(apply_header_lines(req@, Seq::<Seq<char>>::empty(), merge) == (req@, true));
            true
        },
    }
}

impl HttpRequest {
    /// Reads a request head from `request_str`: the method, path and version from the
    /// first three words of the first line, then one header per line up to the first
    /// empty line. A header named `method`, `path` or `http_version` (in any case)
    /// replaces that part of the request line.
    pub fn from_string(request_str: String) -> (r: Result<HttpRequest, &'static str>)
        ensures
            match r {
                Ok(req) => parse_request(request_str@) == Some(req@),
                Err(e) => {
                    &&& parse_request(request_str@) is None
                    &&& request_line(request_str@) is None ==> e == "Invalid request format"
                    &&& request_line(request_str@) is Some ==> e == "Invalid header format"
                },
            },
    {
        let s = request_str.as_str();
        let v = chars_of(s);
        match read_request_line(&v, s) {
            None => Err("Invalid request format"),
            Some((m, p, ver, next)) => {
                let mut req = HttpRequest {
                    method: Some(m),
                    path: Some(p),
                    http_version: Some(ver),
                    headers: Vec::new(),
                };
                assert(req@.headers =~= Seq::<(Seq<char>, Seq<char>)>::empty());
                if read_header_lines(&v, s, &mut req, next, false) {
                    Ok(req)
                } else {
                    Err("Invalid header format")
                }
            },
        }
    }

    /// Reads a new request head into this one: the request line replaces method, path
    /// and version; each header whose name is not there yet is appended. When the
    /// request line is malformed nothing changes; when a header line is malformed,
    /// the lines before it stay read.
    pub fn update_structure(&mut self, new_request_str: String) -> (r: Result<(), &'static str>)
        ensures
            (final(self)@, r is Ok) == update_request(old(self)@, new_request_str@),
            r matches Err(e) ==> (request_line(new_request_str@) is None ==> e
                == "Invalid request format"),
            r matches Err(e) ==> (request_line(new_request_str@) is Some ==> e
                == "Invalid header format"),
    {
        let s = new_request_str.as_str();
        let v = chars_of(s);
        match read_request_line(&v, s) {
            None => Err("Invalid request format"),
            Some((m, p, ver, next)) => {
                self.method = Some(m);
                self.path = Some(p);
                self.http_version = Some(ver);
                if read_header_lines(&v, s, self, next, true) {
                    Ok(())
                } else {
                    Err("Invalid header format")
                }
            },
        }
    }
}

} // verus!
