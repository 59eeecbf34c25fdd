//! Character-level views of request text: lines, whitespace-separated
//! words, header separators, case-folded key comparison and substring search.

use vstd::prelude::*;
use vstd::string::*;

verus! {

/// The characters of `s`, in order.
pub fn chars_of(s: &str) -> (v: Vec<char>)
    ensures
        v@ == s@,
{
    broadcast use vstd::string::group_string_axioms;
    let mut v: Vec<char> = Vec::new();
    for c in it: s.chars()
        invariant
            v@ == it.seq().take(it.index()),
    {
        v.push(c);
    }
    v
}

/// The text of an optional string.
pub open spec fn text_of(o: Option<String>) -> Option<Seq<char>> {
    match o {
        Some(s) => Some(s@),
        None => None,
    }
}

/// The texts of a sequence of strings.
pub open spec fn texts(v: Seq<String>) -> Seq<Seq<char>> {
    v.map_values(|s: String| s@)
}

/// The owned text of `s[from..to]`, counted in characters.
pub fn substring(s: &str, from: usize, to: usize) -> (r: String)
    requires
        from <= to <= s@.len(),
    ensures
        r@ == s@.subrange(from as int, to as int),
{
    String::from_str(s.substring_char(from, to))
}

// ---------------------------------------------------------------- whitespace

/// The Unicode `White_Space` property, which `char::is_whitespace` tests.
pub open spec fn is_white(c: char) -> bool {
    let u: u32 = c as u32;
    ||| 9 <= u <= 13
    ||| u == 32
    ||| u == 0x85
    ||| u == 0xa0
    ||| u == 0x1680
    ||| 0x2000 <= u <= 0x200a
    ||| u == 0x2028
    ||| u == 0x2029
    ||| u == 0x202f
    ||| u == 0x205f
    ||| u == 0x3000
}

/// Whether `c` is a whitespace character.
pub fn is_whitespace_char(c: char) -> (b: bool)
    ensures
        b == is_white(c),
{
    let u: u32 = c as u32;
    (9 <= u && u <= 13) || u == 32 || u == 0x85 || u == 0xa0 || u == 0x1680 || (0x2000 <= u && u
        <= 0x200a) || u == 0x2028 || u == 0x2029 || u == 0x202f || u == 0x205f || u == 0x3000
}

// ---------------------------------------------------------------- lines

/// Index of the first `'\n'` at or after `i`, or the length of `s` when there is none.
pub open spec fn newline_at_or_after(s: Seq<char>, i: int) -> int
    decreases s.len() - i,
{
    if i >= s.len() {
        s.len() as int
    } else if s[i] == '\n' {
        i
    } else {
        newline_at_or_after(s, i + 1)
    }
}

/// Where the text of the line that starts at `start` ends: before its `'\n'`, and
/// before a `'\r'` that directly precedes that `'\n'`.
pub open spec fn line_end(s: Seq<char>, start: int) -> int {
    let e = newline_at_or_after(s, start);
    if e < s.len() && e > start && s[e - 1] == '\r' {
        e - 1
    } else {
        e
    }
}

/// Where the line after the one that starts at `start` begins.
pub open spec fn next_line_start(s: Seq<char>, start: int) -> int {
    let e = newline_at_or_after(s, start);
    if e < s.len() {
        e + 1
    } else {
        e
    }
}

/// The next newline lies between `i` and the end, and none stands before it.
pub proof fn lemma_newline_bounds(s: Seq<char>, i: int)
    requires
        0 <= i <= s.len(),
    ensures
        i <= newline_at_or_after(s, i) <= s.len(),
        newline_at_or_after(s, i) < s.len() ==> s[newline_at_or_after(s, i)] == '\n',
        forall|j: int| i <= j < newline_at_or_after(s, i) ==> s[j] != '\n',
    decreases s.len() - i,
{
    if i < s.len() && s[i] != '\n' {
        lemma_newline_bounds(s, i + 1);
    }
}

/// The lines of `s` from position `start` on, as `str::lines` gives them: split at
/// `'\n'`, with a `'\r'` before a `'\n'` dropped, and no empty line after a final `'\n'`.
pub open spec fn lines_from(s: Seq<char>, start: int) -> Seq<Seq<char>>
    decreases s.len() - start,
{
    if start < 0 || start >= s.len() {
        seq![]
    } else {
        proof {
            lemma_newline_bounds(s, start);
        }
        seq![s.subrange(start, line_end(s, start))] + lines_from(s, next_line_start(s, start))
    }
}

/// The lines of `s`, as `str::lines` gives them.
pub open spec fn lines(s: Seq<char>) -> Seq<Seq<char>> {
    lines_from(s, 0)
}

proof fn lemma_newline_shift(p: Seq<char>, q: Seq<char>, j: int)
    requires
        0 <= j <= q.len(),
    ensures
        newline_at_or_after(p + q, p.len() + j) == p.len() + newline_at_or_after(q, j),
    decreases q.len() - j,
{
    if j < q.len() {
        assert((p + q)[p.len() + j] == q[j]);
        if q[j] != '\n' {
            lemma_newline_shift(p, q, j + 1);
        }
    }
}

/// The lines of `q` are the lines of `p + q` from where `q` starts.
pub proof fn lemma_lines_shift(p: Seq<char>, q: Seq<char>, j: int)
    requires
        0 <= j <= q.len(),
    ensures
        lines_from(p + q, p.len() + j) == lines_from(q, j),
    decreases q.len() - j,
{
    if j < q.len() {
        lemma_newline_shift(p, q, j);
        lemma_newline_bounds(q, j);
        let e = newline_at_or_after(q, j);
        if e > j {
            assert((p + q)[p.len() + e - 1] == q[e - 1]);
        }
        assert((p + q).subrange(p.len() + j, p.len() + line_end(q, j)) =~= q.subrange(
            j,
            line_end(q, j),
        ));
        lemma_lines_shift(p, q, next_line_start(q, j));
    }
}

proof fn lemma_newline_in_prefix(p: Seq<char>, q: Seq<char>, i: int)
    requires
        0 <= i < p.len(),
        p.last() == '\n',
    ensures
        newline_at_or_after(p + q, i) == newline_at_or_after(p, i),
        newline_at_or_after(p, i) < p.len(),
    decreases p.len() - i,
{
    assert((p + q)[i] == p[i]);
    if p[i] != '\n' {
        lemma_newline_in_prefix(p, q, i + 1);
    }
}

/// When `p` ends with a newline, the lines of `p + q` are those of `p`, then those of `q`.
pub proof fn lemma_lines_append(p: Seq<char>, q: Seq<char>, i: int)
    requires
        0 <= i <= p.len(),
        p.len() > 0,
        p.last() == '\n',
    ensures
        lines_from(p + q, i) == lines_from(p, i) + lines(q),
    decreases p.len() - i,
{
    if i == p.len() {
        lemma_lines_shift(p, q, 0);
        assert(lines_from(p, i) =~= Seq::<Seq<char>>::empty());
        assert(lines_from(p, i) + lines(q) =~= lines(q));
    } else {
        lemma_newline_in_prefix(p, q, i);
        lemma_newline_bounds(p, i);
        let e = newline_at_or_after(p, i);
        if e > i {
            assert((p + q)[e - 1] == p[e - 1]);
        }
        assert((p + q).subrange(i, line_end(p, i)) =~= p.subrange(i, line_end(p, i)));
        lemma_lines_append(p, q, e + 1);
        let l = p.subrange(i, line_end(p, i));
        assert(lines_from(p + q, i) == seq![l] + lines_from(p + q, e + 1));
        assert(lines_from(p, i) == seq![l] + lines_from(p, e + 1));
        assert(seq![l] + (lines_from(p, e + 1) + lines(q)) =~= (seq![l] + lines_from(p, e + 1))
            + lines(q));
    }
}

/// Ending text that does not end with a newline by `"\r\n"` leaves its lines as they were.
pub proof fn lemma_lines_terminated(h: Seq<char>, i: int)
    requires
        0 <= i < h.len(),
        h.last() != '\n',
    ensures
        lines_from(h + seq!['\r', '\n'], i) == lines_from(h, i),
    decreases h.len() - i,
{
    let t = seq!['\r', '\n'];
    let p = h + t;
    lemma_newline_bounds(h, i);
    let e = newline_at_or_after(h, i);
    if e < h.len() {
        lemma_newline_in_prefix(p, Seq::<char>::empty(), i);
        assert(p + Seq::<char>::empty() =~= p);
        assert(newline_at_or_after(p, i) == newline_at_or_after(h, i)) by {
            lemma_newline_prefix_agree(h, t, i);
        }
        if e > i {
            assert(p[e - 1] == h[e - 1]);
        }
        assert(p.subrange(i, line_end(h, i)) =~= h.subrange(i, line_end(h, i)));
        assert(e + 1 < h.len());
        lemma_lines_terminated(h, e + 1);
    } else {
        lemma_newline_prefix_agree(h, t, i);
        lemma_newline_shift(h, t, 0);
        assert(p[h.len() as int] == '\r');
        assert(p[h.len() as int + 1] == '\n');
        assert(t[0] == '\r' && t[1] == '\n');
        assert(newline_at_or_after(t, 1) == 1);
        assert(newline_at_or_after(t, 0) == 1);
        assert(newline_at_or_after(p, i) == h.len() + 1);
        assert(line_end(p, i) == h.len());
        assert(p.subrange(i, h.len() as int) =~= h.subrange(i, h.len() as int));
        assert(lines_from(p, h.len() as int + 2) =~= Seq::<Seq<char>>::empty());
        assert(lines_from(h, h.len() as int) =~= Seq::<Seq<char>>::empty());
    }
}

/// Where `h` has no newline from `i` on, scanning `h + t` from `i` meets the first
/// newline of `h` or one of `t`.
proof fn lemma_newline_prefix_agree(h: Seq<char>, t: Seq<char>, i: int)
    requires
        0 <= i <= h.len(),
    ensures
        newline_at_or_after(h, i) < h.len() ==> newline_at_or_after(h + t, i)
            == newline_at_or_after(h, i),
        newline_at_or_after(h, i) == h.len() ==> newline_at_or_after(h + t, i)
            == newline_at_or_after(h + t, h.len() as int),
    decreases h.len() - i,
{
    if i < h.len() {
        assert((h + t)[i] == h[i]);
        if h[i] != '\n' {
            lemma_newline_prefix_agree(h, t, i + 1);
        }
    }
}

/// The end of the text of the line that starts at `start`, and where the next line starts.
pub fn line_bounds(v: &Vec<char>, start: usize) -> (r: (usize, usize))
    requires
        start < v@.len(),
    ensures
        r.0 == line_end(v@, start as int),
        r.1 == next_line_start(v@, start as int),
        start <= r.0 <= v@.len(),
        start < r.1 <= v@.len(),
        lines_from(v@, start as int) == seq![v@.subrange(start as int, r.0 as int)] + lines_from(
            v@,
            r.1 as int,
        ),
{
    let mut e: usize = start;
    while e < v.len() && v[e] != '\n'
        invariant
            start <= e <= v@.len(),
            newline_at_or_after(v@, start as int) == newline_at_or_after(v@, e as int),
        decreases v@.len() - e,
    {
        e = e + 1;
    }
    proof {
        lemma_newline_bounds(v@, start as int);
    }
    let cend: usize = if e < v.len() && e > start && v[e - 1] == '\r' {
        e - 1
    } else {
        e
    };
    let next: usize = if e < v.len() {
        e + 1
    } else {
        e
    };
    (cend, next)
}

// ---------------------------------------------------------------- words

/// Length of the run of non-whitespace characters at the start of `l`.
pub open spec fn word_len(l: Seq<char>) -> nat
    decreases l.len(),
{
    if l.len() == 0 || is_white(l[0]) {
        0
    } else {
        1 + word_len(l.drop_first())
    }
}

/// A word is no longer than its text, and is not empty when the text starts with no whitespace.
pub proof fn lemma_word_len_bound(l: Seq<char>)
    ensures
        word_len(l) <= l.len(),
        l.len() > 0 && !is_white(l[0]) ==> word_len(l) >= 1,
    decreases l.len(),
{
    if l.len() > 0 && !is_white(l[0]) {
        lemma_word_len_bound(l.drop_first());
    }
}

/// The whitespace-separated words of `l`, as `str::split_whitespace` gives them.
pub open spec fn words(l: Seq<char>) -> Seq<Seq<char>>
    decreases l.len(),
{
    if l.len() == 0 {
        seq![]
    } else if is_white(l[0]) {
        words(l.drop_first())
    } else {
        proof {
            lemma_word_len_bound(l);
        }
        seq![l.take(word_len(l) as int)] + words(l.skip(word_len(l) as int))
    }
}

/// The first position at or after `i` (and before `end`) that holds no whitespace.
pub fn skip_white(v: &Vec<char>, i: usize, end: usize) -> (j: usize)
    requires
        i <= end <= v@.len(),
    ensures
        i <= j <= end,
        j < end ==> !is_white(v@[j as int]),
        forall|k: int| i <= k < j ==> is_white(v@[k]),
        words(v@.subrange(i as int, end as int)) == words(v@.subrange(j as int, end as int)),
{
    let mut j: usize = i;
    while j < end && is_whitespace_char(v[j])
        invariant
            i <= j <= end <= v@.len(),
            forall|k: int| i <= k < j ==> is_white(v@[k]),
            words(v@.subrange(i as int, end as int)) == words(v@.subrange(j as int, end as int)),
        decreases end - j,
    {
        assert(v@.subrange(j as int, end as int).drop_first() =~= v@.subrange(
            j + 1,
            end as int,
        ));
        j = j + 1;
    }
    j
}

/// The end of the word that starts at `j`.
pub fn word_end(v: &Vec<char>, j: usize, end: usize) -> (k: usize)
    requires
        j < end <= v@.len(),
        !is_white(v@[j as int]),
    ensures
        j < k <= end,
        words(v@.subrange(j as int, end as int)) == seq![v@.subrange(j as int, k as int)] + words(
            v@.subrange(k as int, end as int),
        ),
{
    let mut k: usize = j;
    while k < end && !is_whitespace_char(v[k])
        invariant
            j <= k <= end <= v@.len(),
            word_len(v@.subrange(j as int, end as int)) == (k - j) + word_len(
                v@.subrange(k as int, end as int),
            ),
        decreases end - k,
    {
        assert(v@.subrange(k as int, end as int).drop_first() =~= v@.subrange(
            k + 1,
            end as int,
        ));
        k = k + 1;
    }
    let ghost l = v@.subrange(j as int, end as int);
    assert(word_len(l) == k - j);
    assert(l.take(k - j) =~= v@.subrange(j as int, k as int));
    assert(l.skip(k - j) =~= v@.subrange(k as int, end as int));
    k
}

// ---------------------------------------------------------------- header separator

/// The first position at or after `i` where `": "` stands in `l`.
pub open spec fn separator_from(l: Seq<char>, i: int) -> Option<int>
    decreases l.len() - i,
{
    if i < 0 || i + 1 >= l.len() {
        None
    } else if l[i] == ':' && l[i + 1] == ' ' {
        Some(i)
    } else {
        separator_from(l, i + 1)
    }
}

/// A header line split at its first `": "`, as `splitn(2, ": ")` splits it:
/// `None` when the line holds no `": "`.
pub open spec fn split_header(l: Seq<char>) -> Option<(Seq<char>, Seq<char>)> {
    match separator_from(l, 0) {
        Some(k) => Some((l.take(k), l.skip(k + 2))),
        None => None,
    }
}

/// The position of the first `": "` in `v[a..b]`.
pub fn find_separator(v: &Vec<char>, a: usize, b: usize) -> (r: Option<usize>)
    requires
        a <= b <= v@.len(),
    ensures
        match r {
            Some(k) => a <= k && k + 2 <= b && separator_from(v@.subrange(a as int, b as int), 0)
                == Some(k - a),
            None => separator_from(v@.subrange(a as int, b as int), 0) is None,
        },
{
    let ghost l = v@.subrange(a as int, b as int);
    let mut k: usize = a;
    while b - k >= 2
        invariant
            a <= k <= b <= v@.len(),
            l == v@.subrange(a as int, b as int),
            separator_from(l, 0) == separator_from(l, k - a),
        decreases b - k,
    {
        if v[k] == ':' && v[k + 1] == ' ' {
            return Some(k);
        }
        k = k + 1;
    }
    None
}

// ---------------------------------------------------------------- case-folded keys

/// `c` lowercases to `k`, for `k` a lowercase ASCII letter or `'_'`.
pub open spec fn lowers_to(c: char, k: char) -> bool {
    c == k || (65 <= c as u32 <= 90 && c as u32 + 32 == k as u32)
}

/// `name` lowercases to `key`, for a key made of lowercase ASCII letters other than
/// `k`, and `'_'`. The only characters outside ASCII whose lowercase is ASCII are the
/// Kelvin sign (to `k`) and the dotted capital I (to two characters, `i` and a
/// combining dot), so for such a key comparing character by character gives what
/// `name.to_lowercase() == key` gives.
pub open spec fn lowercases_to(name: Seq<char>, key: Seq<char>) -> bool {
    name.len() == key.len() && forall|i: int| 0 <= i < name.len() ==> lowers_to(name[i], key[i])
}

/// Whether `v[a..b]` lowercases to `key`.
pub fn lowercases_to_key(v: &Vec<char>, a: usize, b: usize, key: &Vec<char>) -> (r: bool)
    requires
        a <= b <= v@.len(),
    ensures
        r == lowercases_to(v@.subrange(a as int, b as int), key@),
{
    if b - a != key.len() {
        return false;
    }
    let mut i: usize = 0;
    while i < key.len()
        invariant
            a <= b <= v@.len(),
            b - a == key@.len(),
            0 <= i <= key@.len(),
            forall|j: int| 0 <= j < i ==> lowers_to(v@[a + j], key@[j]),
        decreases key@.len() - i,
    {
        let c = v[a + i];
        let k = key[i];
        let u: u32 = c as u32;
        if !(c == k || (65 <= u && u <= 90 && u + 32 == k as u32)) {
            assert(!lowers_to(v@.subrange(a as int, b as int)[i as int], key@[i as int]));
            return false;
        }
        i = i + 1;
    }
    true
}

// ---------------------------------------------------------------- substring search

/// `p` stands in `s` at position `i`.
pub open spec fn occurs_at(s: Seq<char>, p: Seq<char>, i: int) -> bool {
    0 <= i && i + p.len() <= s.len() && s.subrange(i, i + p.len()) == p
}

/// `p` stands somewhere in `s`, as `str::contains` finds it.
pub open spec fn contains_text(s: Seq<char>, p: Seq<char>) -> bool {
    exists|i: int| occurs_at(s, p, i)
}

/// Whether `p` stands somewhere in `s`.
pub fn contains_chars(s: &Vec<char>, p: &Vec<char>) -> (r: bool)
    ensures
        r == contains_text(s@, p@),
{
    if p.len() > s.len() {
        assert forall|i: int| !occurs_at(s@, p@, i) by {}
        return false;
    }
    let slen: usize = s.len();
    let last: usize = slen - p.len();
    let mut i: usize = 0;
    while i <= last
        invariant
            last == s@.len() - p@.len(),
            p@.len() <= s@.len(),
            slen == s@.len(),
            0 <= i <= last + 1,
            forall|j: int| 0 <= j < i ==> !occurs_at(s@, p@, j),
        decreases last + 1 - i,
    {
        let mut k: usize = 0;
        let mut same = true;
        while k < p.len()
            invariant
                i <= last,
                last == s@.len() - p@.len(),
                p@.len() <= s@.len(),
                slen == s@.len(),
                i + p@.len() <= s@.len(),
                0 <= k <= p@.len(),
                same == forall|m: int| 0 <= m < k ==> s@[i + m] == p@[m],
            decreases p@.len() - k,
        {
            if s[i + k] != p[k] {
                same = false;
            }
            k = k + 1;
        }
        if same {
            assert(s@.subrange(i as int, i + p@.len()) =~= p@);
            assert(occurs_at(s@, p@, i as int));
            return true;
        }
        assert(!(s@.subrange(i as int, i + p@.len()) =~= p@));
        if i == last {
            return false;
        }
        i = i + 1;
    }
    false
}

} // verus!
