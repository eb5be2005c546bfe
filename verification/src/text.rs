//! Character-level building blocks: ASCII case folding, Unicode white space
//! trimming, splitting on a separator and joining path text.

use vstd::prelude::*;

verus! {

/// ASCII upper-casing of one character; every other character is unchanged.
pub open spec fn ascii_upper(c: char) -> char {
    if 'a' <= c && c <= 'z' {
        ((c as int) - 32) as char
    } else {
        c
    }
}

/// ASCII upper-casing of every character of a sequence.
pub open spec fn ascii_upper_seq(s: Seq<char>) -> Seq<char> {
    s.map_values(|c: char| ascii_upper(c))
}

/// Two sequences are equal up to ASCII case.
pub open spec fn eq_ignore_ascii_case(a: Seq<char>, b: Seq<char>) -> bool {
    a.len() == b.len() && forall|i: int| 0 <= i < a.len() ==> ascii_upper(#[trigger] a[i]) == ascii_upper(b[i])
}

/// The Unicode `White_Space` property.
pub open spec fn is_white_space(c: char) -> bool {
    ||| ('\u{9}' <= c && c <= '\u{d}')
    ||| c == ' '
    ||| c == '\u{85}'
    ||| c == '\u{a0}'
    ||| c == '\u{1680}'
    ||| ('\u{2000}' <= c && c <= '\u{200a}')
    ||| c == '\u{2028}'
    ||| c == '\u{2029}'
    ||| c == '\u{202f}'
    ||| c == '\u{205f}'
    ||| c == '\u{3000}'
}

/// `s` without its leading white space.
pub open spec fn trim_start(s: Seq<char>) -> Seq<char>
    decreases s.len(),
{
    if s.len() > 0 && is_white_space(s[0]) {
        trim_start(s.drop_first())
    } else {
        s
    }
}

/// `s` without its trailing white space.
pub open spec fn trim_end(s: Seq<char>) -> Seq<char>
    decreases s.len(),
{
    if s.len() > 0 && is_white_space(s.last()) {
        trim_end(s.drop_last())
    } else {
        s
    }
}

/// `s` without leading and trailing white space.
pub open spec fn trim(s: Seq<char>) -> Seq<char> {
    trim_end(trim_start(s))
}

/// The pieces of `s` between occurrences of `sep`, as `str::split` yields
/// them: `n` separators give `n + 1` pieces, empty ones included.
pub open spec fn split_on(s: Seq<char>, sep: char) -> Seq<Seq<char>>
    decreases s.len(),
{
    if s.len() == 0 {
        seq![Seq::<char>::empty()]
    } else {
        let pieces = split_on(s.drop_last(), sep);
        if s.last() == sep {
            pieces.push(Seq::<char>::empty())
        } else {
            pieces.update(pieces.len() - 1, pieces.last().push(s.last()))
        }
    }
}

/// The character contents of each string of a sequence.
pub open spec fn views(v: Seq<String>) -> Seq<Seq<char>> {
    v.map_values(|x: String| x@)
}

/// The characters of an optional string.
pub open spec fn opt_view(o: Option<String>) -> Option<Seq<char>> {
    match o {
        Some(s) => Some(s@),
        None => None,
    }
}

/// The character contents of each string slice of a sequence.
pub open spec fn str_views(v: Seq<&str>) -> Seq<Seq<char>> {
    v.map_values(|x: &str| x@)
}

/// Path text of `rel` below `base`, with `/` as the separator; no separator
/// is doubled when `base` already ends with one.
pub open spec fn join_path(base: Seq<char>, rel: Seq<char>) -> Seq<char> {
    if base.len() == 0 {
        rel
    } else if base.last() == '/' {
        base + rel
    } else {
        base + seq!['/'] + rel
    }
}

pub fn ascii_upper_char(c: char) -> (r: char)
    ensures
        r == ascii_upper(c),
{
    if 'a' <= c && c <= 'z' {
        let b: u8 = c as u8;
        (b - 32) as char
    } else {
        c
    }
}

pub fn is_white_space_char(c: char) -> (r: bool)
    ensures
        r == is_white_space(c),
{
    ('\u{9}' <= c && c <= '\u{d}') || c == ' ' || c == '\u{85}' || c == '\u{a0}' || c == '\u{1680}'
        || ('\u{2000}' <= c && c <= '\u{200a}') || c == '\u{2028}' || c == '\u{2029}' || c
        == '\u{202f}' || c == '\u{205f}' || c == '\u{3000}'
}

proof fn lemma_trim_start_skip(s: Seq<char>, i: int)
    requires
        0 <= i <= s.len(),
        forall|k: int| 0 <= k < i ==> is_white_space(#[trigger] s[k]),
    ensures
        trim_start(s) == trim_start(s.skip(i)),
    decreases i,
{
    if i > 0 {
        assert(s.skip(1) == s.drop_first());
        lemma_trim_start_skip(s.drop_first(), i - 1);
        assert(s.drop_first().skip(i - 1) =~= s.skip(i));
    } else {
        assert(s.skip(0) =~= s);
    }
}

proof fn lemma_trim_end_take(s: Seq<char>, j: int)
    requires
        0 <= j <= s.len(),
        forall|k: int| j <= k < s.len() ==> is_white_space(#[trigger] s[k]),
    ensures
        trim_end(s) == trim_end(s.take(j)),
    decreases s.len() - j,
{
    if j < s.len() {
        lemma_trim_end_take(s.drop_last(), j);
        assert(s.drop_last().take(j) =~= s.take(j));
    } else {
        assert(s.take(j) =~= s);
    }
}

/// `s` without leading and trailing white space, as `str::trim` gives it.
pub fn trim_str(s: &str) -> (r: &str)
    ensures
        r@ == trim(s@),
{
    let n = s.unicode_len();
    let mut lo: usize = 0;
    while lo < n && is_white_space_char(s.get_char(lo))
        invariant
            n == s@.len(),
            0 <= lo <= n,
            forall|k: int| 0 <= k < lo ==> is_white_space(#[trigger] s@[k]),
        decreases n - lo,
    {
        lo = lo + 1;
    }
    proof {
        lemma_trim_start_skip(s@, lo as int);
        if lo < n {
            assert(!is_white_space(s@.skip(lo as int)[0]));
        }
    }
    let mut hi: usize = n;
    while hi > lo && is_white_space_char(s.get_char(hi - 1))
        invariant
            n == s@.len(),
            0 <= lo <= hi <= n,
            forall|k: int| hi <= k < n ==> is_white_space(#[trigger] s@[k]),
        decreases hi,
    {
        hi = hi - 1;
    }
    proof {
        let t = s@.skip(lo as int);
        assert forall|k: int| hi - lo <= k < t.len() implies is_white_space(#[trigger] t[k]) by {
            assert(t[k] == s@[k + lo]);
        }
        lemma_trim_end_take(t, hi - lo);
        assert(t.take(hi - lo) =~= s@.subrange(lo as int, hi as int));
        if hi > lo {
            assert(!is_white_space(s@.subrange(lo as int, hi as int).last()));
        }
    }
    s.substring_char(lo, hi)
}


/// The pieces of `s` between occurrences of `sep`, as `str::split` gives them.
pub fn split_str(s: &str, sep: char) -> (r: Vec<String>)
    ensures
        views(r@) == split_on(s@, sep),
{
    let n = s.unicode_len();
    let mut out: Vec<String> = Vec::new();
    let mut start: usize = 0;
    let mut i: usize = 0;
    assert(s@.take(0) =~= Seq::<char>::empty());
    while i < n
        invariant
            n == s@.len(),
            0 <= start <= i <= n,
            split_on(s@.take(i as int), sep) =~= views(out@).push(s@.subrange(start as int, i as int)),
        decreases n - i,
    {
        let c = s.get_char(i);
        let ghost prev = split_on(s@.take(i as int), sep);
        proof {
            assert(s@.take(i + 1).drop_last() =~= s@.take(i as int));
            assert(s@.take(i + 1).last() == c);
            assert(split_on(s@.take(i + 1), sep) == if c == sep {
                prev.push(Seq::<char>::empty())
            } else {
                prev.update(prev.len() - 1, prev.last().push(c))
            });
        }
        if c == sep {
            let piece = s.substring_char(start, i).to_owned();
            let ghost old_out = out@;
            out.push(piece);
            assert(views(out@) =~= views(old_out).push(s@.subrange(start as int, i as int)));
            start = i + 1;
            assert(s@.subrange(start as int, start as int) =~= Seq::<char>::empty());
        } else {
            assert(s@.subrange(start as int, i as int).push(c) =~= s@.subrange(start as int, i + 1));
            assert(prev.update(prev.len() - 1, prev.last().push(c)) =~= views(out@).push(
                s@.subrange(start as int, i + 1),
            ));
        }
        i = i + 1;
    }
    let piece = s.substring_char(start, n).to_owned();
    let ghost old_out = out@;
    out.push(piece);
    assert(views(out@) =~= views(old_out).push(s@.subrange(start as int, n as int)));
    assert(s@.take(n as int) =~= s@);
    out
}


/// Path text of `rel` below `base` (see [`join_path`]).
pub fn join_path_str(base: &str, rel: &str) -> (r: String)
    ensures
        r@ == join_path(base@, rel@),
{
    let n = base.unicode_len();
    if n == 0 {
        rel.to_owned()
    } else if base.get_char(n - 1) == '/' {
        let mut r = base.to_owned();
        r.append(rel);
        r
    } else {
        let mut r = base.to_owned();
        let sep = "/";
        proof {
            reveal_strlit("/");
        }
        r.append(sep);
        r.append(rel);
        r
    }
}

/// Whether `a` and `b` are equal up to ASCII case, as `str::eq_ignore_ascii_case`.
pub fn eq_ignore_ascii_case_str(a: &str, b: &str) -> (r: bool)
    ensures
        r == eq_ignore_ascii_case(a@, b@),
{
    let n = a.unicode_len();
    if n != b.unicode_len() {
        return false;
    }
    let mut i: usize = 0;
    while i < n
        invariant
            n == a@.len(),
            n == b@.len(),
            0 <= i <= n,
            forall|k: int| 0 <= k < i ==> ascii_upper(#[trigger] a@[k]) == ascii_upper(b@[k]),
        decreases n - i,
    {
        if ascii_upper_char(a.get_char(i)) != ascii_upper_char(b.get_char(i)) {
            return false;
        }
        i = i + 1;
    }
    true
}

/// ASCII upper-casing moves `a`..=`z` to `A`..=`Z` and leaves every other
/// character alone.
pub proof fn lemma_ascii_upper(c: char)
    ensures
        'a' <= c && c <= 'z' ==> 'A' <= ascii_upper(c) && ascii_upper(c) <= 'Z',
        !('a' <= c && c <= 'z') ==> ascii_upper(c) == c,
{
}

/// Every piece of `split_on(s, sep)` is free of `sep`, and every character of
/// a piece is a character of `s`.
pub proof fn lemma_split_on_pieces(s: Seq<char>, sep: char)
    ensures
        split_on(s, sep).len() >= 1,
        forall|i: int, k: int|
            0 <= i < split_on(s, sep).len() && 0 <= k < split_on(s, sep)[i].len() ==> {
                &&& #[trigger] split_on(s, sep)[i][k] != sep
                &&& s.contains(split_on(s, sep)[i][k])
            },
    decreases s.len(),
{
    if s.len() > 0 {
        let prev = split_on(s.drop_last(), sep);
        lemma_split_on_pieces(s.drop_last(), sep);
        let cur = split_on(s, sep);
        assert forall|i: int, k: int| 0 <= i < cur.len() && 0 <= k < cur[i].len() implies {
            &&& #[trigger] cur[i][k] != sep
            &&& s.contains(cur[i][k])
        } by {
            if i < prev.len() && k < prev[i].len() {
                assert(cur[i][k] == prev[i][k]);
                let w = choose|w: int| 0 <= w < s.drop_last().len() && s.drop_last()[w] == prev[i][k];
                assert(s[w] == cur[i][k]);
            } else {
                assert(cur[i][k] == s.last());
                assert(s[s.len() - 1] == s.last());
            }
        }
    }
}

/// Every character of `trim(s)` is a character of `s`.
pub proof fn lemma_trim_chars(s: Seq<char>)
    ensures
        forall|k: int| 0 <= k < trim(s).len() ==> s.contains(#[trigger] trim(s)[k]),
{
    lemma_trim_start_chars(s);
    lemma_trim_end_chars(trim_start(s));
}

proof fn lemma_trim_start_chars(s: Seq<char>)
    ensures
        forall|k: int| 0 <= k < trim_start(s).len() ==> s.contains(#[trigger] trim_start(s)[k]),
    decreases s.len(),
{
    if s.len() > 0 && is_white_space(s[0]) {
        let t = s.drop_first();
        lemma_trim_start_chars(t);
        assert(trim_start(s) == trim_start(t));
        assert forall|k: int| 0 <= k < trim_start(s).len() implies s.contains(#[trigger] trim_start(s)[k]) by {
            let w = choose|w: int| 0 <= w < t.len() && t[w] == trim_start(s)[k];
            assert(s[w + 1] == t[w]);
        }
    } else {
        assert forall|k: int| 0 <= k < trim_start(s).len() implies s.contains(#[trigger] trim_start(s)[k]) by {
            assert(s[k] == trim_start(s)[k]);
        }
    }
}

proof fn lemma_trim_end_chars(s: Seq<char>)
    ensures
        forall|k: int| 0 <= k < trim_end(s).len() ==> s.contains(#[trigger] trim_end(s)[k]),
    decreases s.len(),
{
    if s.len() > 0 && is_white_space(s.last()) {
        let t = s.drop_last();
        lemma_trim_end_chars(t);
        assert(trim_end(s) == trim_end(t));
        assert forall|k: int| 0 <= k < trim_end(s).len() implies s.contains(#[trigger] trim_end(s)[k]) by {
            let w = choose|w: int| 0 <= w < t.len() && t[w] == trim_end(s)[k];
            assert(s[w] == t[w]);
        }
    } else {
        assert forall|k: int| 0 <= k < trim_end(s).len() implies s.contains(#[trigger] trim_end(s)[k]) by {
            assert(s[k] == trim_end(s)[k]);
        }
    }
}

/// Whether `c` occurs in `s`.
pub fn contains_char(s: &str, c: char) -> (r: bool)
    ensures
        r == s@.contains(c),
{
    let n = s.unicode_len();
    let mut i: usize = 0;
    while i < n
        invariant
            n == s@.len(),
            0 <= i <= n,
            forall|k: int| 0 <= k < i ==> s@[k] != c,
        decreases n - i,
    {
        if s.get_char(i) == c {
            return true;
        }
        i = i + 1;
    }
    false
}

/// Lexicographic order on character sequences, comparing characters by code
/// point (for valid UTF-8 this is also the order of their bytes); a proper
/// prefix comes first.
pub open spec fn lex_lt(a: Seq<char>, b: Seq<char>) -> bool
    decreases a.len(),
{
    if a.len() == 0 {
        b.len() > 0
    } else if b.len() == 0 {
        false
    } else if a[0] < b[0] {
        true
    } else if a[0] == b[0] {
        lex_lt(a.drop_first(), b.drop_first())
    } else {
        false
    }
}

/// `lex_lt` is a strict total order: irreflexive, transitive, and any two
/// sequences are equal or ordered one way.
pub proof fn lemma_lex_order(a: Seq<char>, b: Seq<char>, c: Seq<char>)
    ensures
        !lex_lt(a, a),
        lex_lt(a, b) && lex_lt(b, c) ==> lex_lt(a, c),
        lex_lt(a, b) || a == b || lex_lt(b, a),
        !(lex_lt(a, b) && lex_lt(b, a)),
    decreases a.len(),
{
    if a.len() > 0 {
        lemma_lex_order(a.drop_first(), a.drop_first(), a.drop_first());
    }
    if a.len() > 0 && b.len() > 0 && c.len() > 0 {
        lemma_lex_order(a.drop_first(), b.drop_first(), c.drop_first());
    }
    if a.len() > 0 && b.len() > 0 {
        lemma_lex_order(a.drop_first(), b.drop_first(), b.drop_first());
        if a[0] == b[0] && a.drop_first() == b.drop_first() {
            assert(a =~= seq![a[0]] + a.drop_first());
            assert(b =~= seq![b[0]] + b.drop_first());
        }
    }
    if a.len() == 0 && b.len() == 0 {
        assert(a =~= b);
    }
}

/// Whether `a` comes strictly before `b` in [`lex_lt`] order.
pub fn lex_less(a: &str, b: &str) -> (r: bool)
    ensures
        r == lex_lt(a@, b@),
{
    let n = a.unicode_len();
    let m = b.unicode_len();
    let mut i: usize = 0;
    assert(a@.skip(0) =~= a@);
    assert(b@.skip(0) =~= b@);
    while i < n && i < m
        invariant
            n == a@.len(),
            m == b@.len(),
            0 <= i <= n,
            i <= m,
            lex_lt(a@, b@) == lex_lt(a@.skip(i as int), b@.skip(i as int)),
        decreases n - i,
    {
        let x = a.get_char(i);
        let y = b.get_char(i);
        assert(a@.skip(i as int)[0] == x);
        assert(b@.skip(i as int)[0] == y);
        if x < y {
            return true;
        }
        if x != y {
            return false;
        }
        assert(a@.skip(i as int).drop_first() =~= a@.skip(i + 1));
        assert(b@.skip(i as int).drop_first() =~= b@.skip(i + 1));
        i = i + 1;
    }
    i == n && i < m
}

/// Whether two strings hold the same characters.
pub fn str_eq(a: &str, b: &str) -> (r: bool)
    ensures
        r == (a@ == b@),
{
    let n = a.unicode_len();
    if n != b.unicode_len() {
        return false;
    }
    let mut i: usize = 0;
    while i < n
        invariant
            n == a@.len(),
            n == b@.len(),
            0 <= i <= n,
            forall|k: int| 0 <= k < i ==> a@[k] == b@[k],
        decreases n - i,
    {
        if a.get_char(i) != b.get_char(i) {
            return false;
        }
        i = i + 1;
    }
    assert(a@ =~= b@);
    true
}

/// The pieces joined back together with `sep` between them.
pub open spec fn join_with(pieces: Seq<Seq<char>>, sep: char) -> Seq<char>
    decreases pieces.len(),
{
    if pieces.len() == 0 {
        Seq::empty()
    } else if pieces.len() == 1 {
        pieces[0]
    } else {
        join_with(pieces.drop_last(), sep) + seq![sep] + pieces.last()
    }
}

/// Splitting loses nothing: the pieces of `split_on(s, sep)` joined back
/// with `sep` give `s` again, there is one piece more than `s` holds `sep`s
/// (each occurrence ends a piece), and no piece holds `sep`.
pub proof fn lemma_split_then_join(s: Seq<char>, sep: char)
    ensures
        join_with(split_on(s, sep), sep) == s,
        forall|i: int, k: int|
            0 <= i < split_on(s, sep).len() && 0 <= k < split_on(s, sep)[i].len()
                ==> #[trigger] split_on(s, sep)[i][k] != sep,
    decreases s.len(),
{
    lemma_split_on_pieces(s, sep);
    if s.len() > 0 {
        let t = s.drop_last();
        let c = s.last();
        lemma_split_then_join(t, sep);
        lemma_split_on_pieces(t, sep);
        let p = split_on(t, sep);
        if c == sep {
            assert(split_on(s, sep) == p.push(Seq::<char>::empty()));
            assert(p.push(Seq::<char>::empty()).drop_last() =~= p);
            assert(join_with(split_on(s, sep), sep) == t + seq![sep] + Seq::<char>::empty());
            assert(t + seq![sep] + Seq::<char>::empty() =~= s);
        } else {
            let q = p.update(p.len() - 1, p.last().push(c));
            assert(split_on(s, sep) == q);
            if p.len() == 1 {
                assert(p[0] == p.last());
                assert(t =~= p[0]);
                assert(q[0] =~= s);
            } else {
                assert(q.drop_last() =~= p.drop_last());
                assert(join_with(q, sep) == join_with(p.drop_last(), sep) + seq![sep] + p.last().push(c));
                assert(join_with(p, sep) == join_with(p.drop_last(), sep) + seq![sep] + p.last());
                assert(join_with(p.drop_last(), sep) + seq![sep] + p.last().push(c) =~= t.push(c));
                assert(t.push(c) =~= s);
            }
        }
    } else {
        assert(split_on(s, sep) == seq![Seq::<char>::empty()]);
        assert(s =~= Seq::<char>::empty());
    }
}

proof fn lemma_trim_start_shape(s: Seq<char>)
    ensures
        exists|lo: int|
            0 <= lo <= s.len() && trim_start(s) == s.skip(lo) && (forall|k: int|
                0 <= k < lo ==> is_white_space(#[trigger] s[k])) && (lo < s.len()
                ==> !is_white_space(s[lo])),
    decreases s.len(),
{
    if s.len() > 0 && is_white_space(s[0]) {
        let t = s.drop_first();
        lemma_trim_start_shape(t);
        let lo = choose|lo: int|
            0 <= lo <= t.len() && trim_start(t) == t.skip(lo) && (forall|k: int|
                0 <= k < lo ==> is_white_space(#[trigger] t[k])) && (lo < t.len()
                ==> !is_white_space(t[lo]));
        assert(t.skip(lo) =~= s.skip(lo + 1));
        assert forall|k: int| 0 <= k < lo + 1 implies is_white_space(#[trigger] s[k]) by {
            if k > 0 {
                assert(s[k] == t[k - 1]);
            }
        }
        if lo + 1 < s.len() {
            assert(s[lo + 1] == t[lo]);
        }
    } else {
        assert(s.skip(0) =~= s);
    }
}

proof fn lemma_trim_end_shape(s: Seq<char>)
    ensures
        exists|hi: int|
            0 <= hi <= s.len() && trim_end(s) == s.take(hi) && (forall|k: int|
                hi <= k < s.len() ==> is_white_space(#[trigger] s[k])) && (hi > 0 ==> !is_white_space(
                s[hi - 1],
            )),
    decreases s.len(),
{
    if s.len() > 0 && is_white_space(s.last()) {
        let t = s.drop_last();
        lemma_trim_end_shape(t);
        let hi = choose|hi: int|
            0 <= hi <= t.len() && trim_end(t) == t.take(hi) && (forall|k: int|
                hi <= k < t.len() ==> is_white_space(#[trigger] t[k])) && (hi > 0 ==> !is_white_space(
                t[hi - 1],
            ));
        assert(t.take(hi) =~= s.take(hi));
        assert forall|k: int| hi <= k < s.len() implies is_white_space(#[trigger] s[k]) by {
            if k < t.len() {
                assert(s[k] == t[k]);
            }
        }
        if hi > 0 {
            assert(s[hi - 1] == t[hi - 1]);
        }
    } else {
        assert(s.take(s.len() as int) =~= s);
    }
}

/// Trimming keeps the middle of `s`: `trim(s)` is `s[lo..hi]` where every
/// character before `lo` and from `hi` on is white space, and, unless the
/// result is empty, its first and last characters are not.
pub proof fn lemma_trim_is_the_middle(s: Seq<char>)
    ensures
        exists|lo: int, hi: int|
            0 <= lo <= hi <= s.len() && trim(s) == s.subrange(lo, hi) && (forall|k: int|
                0 <= k < lo ==> is_white_space(#[trigger] s[k])) && (forall|k: int|
                hi <= k < s.len() ==> is_white_space(#[trigger] s[k])) && (lo < hi ==> !is_white_space(
                s[lo],
            ) && !is_white_space(s[hi - 1])),
{
    lemma_trim_start_shape(s);
    let lo = choose|lo: int|
        0 <= lo <= s.len() && trim_start(s) == s.skip(lo) && (forall|k: int|
            0 <= k < lo ==> is_white_space(#[trigger] s[k])) && (lo < s.len() ==> !is_white_space(
            s[lo],
        ));
    let t = s.skip(lo);
    lemma_trim_end_shape(t);
    let h = choose|hi: int|
        0 <= hi <= t.len() && trim_end(t) == t.take(hi) && (forall|k: int|
            hi <= k < t.len() ==> is_white_space(#[trigger] t[k])) && (hi > 0 ==> !is_white_space(
            t[hi - 1],
        ));
    let hi = lo + h;
    assert(t.take(h) =~= s.subrange(lo, hi));
    assert forall|k: int| hi <= k < s.len() implies is_white_space(#[trigger] s[k]) by {
        assert(s[k] == t[k - lo]);
    }
    if lo < hi {
        assert(s[lo] == t[0]);
        assert(s[hi - 1] == t[h - 1]);
    }
}

/// [`lex_lt`] is the order of dictionaries: `a` comes before `b` exactly
/// when `a` is a proper prefix of `b`, or at the first index where they
/// differ `a` holds the smaller character.
pub proof fn lemma_lex_lt_is_dictionary_order(a: Seq<char>, b: Seq<char>)
    ensures
        lex_lt(a, b) <==> (a.len() < b.len() && a =~= b.take(a.len() as int)) || exists|k: int|
            0 <= k < a.len() && k < b.len() && a.take(k) =~= b.take(k) && #[trigger] a[k] < b[k],
    decreases a.len(),
{
    if a.len() > 0 && b.len() > 0 {
        let a1 = a.drop_first();
        let b1 = b.drop_first();
        lemma_lex_lt_is_dictionary_order(a1, b1);
        if a[0] == b[0] {
            if a1.len() < b1.len() && a1 =~= b1.take(a1.len() as int) {
                assert forall|i: int| 0 <= i < a.len() implies #[trigger] a[i] == b.take(a.len() as int)[i] by {
                    if i > 0 {
                        assert(a[i] == a1[i - 1]);
                        assert(a1[i - 1] == b1.take(a1.len() as int)[i - 1]);
                    }
                }
                assert(a =~= b.take(a.len() as int));
            }
            if a.len() < b.len() && a =~= b.take(a.len() as int) {
                assert(a1 =~= b1.take(a1.len() as int));
            }
            if exists|k: int|
                0 <= k < a1.len() && k < b1.len() && a1.take(k) =~= b1.take(k) && #[trigger] a1[k]
                    < b1[k] {
                let k = choose|k: int|
                    0 <= k < a1.len() && k < b1.len() && a1.take(k) =~= b1.take(k) && #[trigger] a1[k]
                        < b1[k];
                assert forall|i: int| 0 <= i < k + 1 implies #[trigger] a.take(k + 1)[i] == b.take(k + 1)[i] by {
                    if i > 0 {
                        assert(a[i] == a1[i - 1]);
                        assert(a1.take(k)[i - 1] == b1.take(k)[i - 1]);
                    }
                }
                assert(a.take(k + 1) =~= b.take(k + 1));
                assert(a[k + 1] == a1[k]);
            }
            if exists|k: int|
                0 <= k < a.len() && k < b.len() && a.take(k) =~= b.take(k) && #[trigger] a[k] < b[k] {
                let k = choose|k: int|
                    0 <= k < a.len() && k < b.len() && a.take(k) =~= b.take(k) && #[trigger] a[k] < b[k];
                assert(k > 0);
                assert forall|i: int| 0 <= i < k - 1 implies #[trigger] a1.take(k - 1)[i] == b1.take(
                    k - 1,
                )[i] by {
                    assert(a1[i] == a[i + 1]);
                    assert(a.take(k)[i + 1] == b.take(k)[i + 1]);
                }
                assert(a1.take(k - 1) =~= b1.take(k - 1));
                assert(a1[k - 1] == a[k]);
            }
        } else {
            if a[0] < b[0] {
                assert(a.take(0) =~= b.take(0));
            } else {
                if a.len() < b.len() && a =~= b.take(a.len() as int) {
                    assert(a[0] == b[0]);
                }
                if exists|k: int|
                    0 <= k < a.len() && k < b.len() && a.take(k) =~= b.take(k) && #[trigger] a[k] < b[k] {
                    let k = choose|k: int|
                        0 <= k < a.len() && k < b.len() && a.take(k) =~= b.take(k) && #[trigger] a[k]
                            < b[k];
                    if k > 0 {
                        assert(a.take(k)[0] == b.take(k)[0]);
                    }
                }
            }
        }
    } else if a.len() == 0 {
        assert(a =~= b.take(0));
    }
}

} // verus!
