//! Character-level helpers on strings, stated over `Seq<char>`.

use vstd::prelude::*;

verus! {

broadcast use vstd::string::group_string_axioms;

/// The string views of a sequence of strings.
pub open spec fn views(v: Seq<String>) -> Seq<Seq<char>> {
    v.map_values(|s: String| s@)
}

/// `c` is one of the characters that `char::is_ascii_whitespace` accepts:
/// space, tab, line feed, form feed and carriage return.
pub open spec fn is_ascii_ws(c: char) -> bool {
    c == ' ' || c == '\t' || c == '\n' || c == '\x0C' || c == '\r'
}

/// `c` has the Unicode `White_Space` property (what `char::is_whitespace` tests).
pub open spec fn is_unicode_ws(c: char) -> bool {
    ||| ('\u{9}' <= c && c <= '\u{D}')
    ||| c == ' '
    ||| c == '\u{85}'
    ||| c == '\u{A0}'
    ||| c == '\u{1680}'
    ||| ('\u{2000}' <= c && c <= '\u{200A}')
    ||| c == '\u{2028}'
    ||| c == '\u{2029}'
    ||| c == '\u{202F}'
    ||| c == '\u{205F}'
    ||| c == '\u{3000}'
}

/// `s` without its leading Unicode whitespace.
pub open spec fn trim_start(s: Seq<char>) -> Seq<char>
    decreases s.len(),
{
    if s.len() > 0 && is_unicode_ws(s[0]) {
        trim_start(s.drop_first())
    } else {
        s
    }
}

/// `s` without its trailing Unicode whitespace.
pub open spec fn trim_end(s: Seq<char>) -> Seq<char>
    decreases s.len(),
{
    if s.len() > 0 && is_unicode_ws(s.last()) {
        trim_end(s.drop_last())
    } else {
        s
    }
}

/// `s` without leading and trailing Unicode whitespace (what `str::trim` returns).
pub open spec fn trim(s: Seq<char>) -> Seq<char> {
    trim_end(trim_start(s))
}

/// `p` is a prefix of `s`.
pub open spec fn is_prefix(p: Seq<char>, s: Seq<char>) -> bool {
    p.len() <= s.len() && s.subrange(0, p.len() as int) == p
}

/// Trimming keeps a contiguous part of the text.
pub proof fn lemma_trim_is_subrange(s: Seq<char>) -> (k: int)
    ensures
        0 <= k,
        k + trim(s).len() <= s.len(),
        trim(s) == s.subrange(k, k + trim(s).len()),
{
    lemma_trim_start_is_suffix(s);
    let u = trim_start(s);
    lemma_trim_end_is_prefix(u);
    let k = s.len() - u.len();
    assert(trim(s) == s.subrange(k, k + trim(s).len())) by {
        assert(u == s.subrange(k, s.len() as int));
        assert(trim(s) == u.subrange(0, trim(s).len() as int));
    }
    k
}

pub proof fn lemma_trim_start_is_suffix(s: Seq<char>)
    ensures
        trim_start(s).len() <= s.len(),
        trim_start(s) == s.subrange(s.len() - trim_start(s).len(), s.len() as int),
    decreases s.len(),
{
    if s.len() > 0 && is_unicode_ws(s[0]) {
        lemma_trim_start_is_suffix(s.drop_first());
    } else {
        assert(s == s.subrange(0, s.len() as int));
    }
}

proof fn lemma_trim_end_is_prefix(s: Seq<char>)
    ensures
        trim_end(s).len() <= s.len(),
        trim_end(s) == s.subrange(0, trim_end(s).len() as int),
    decreases s.len(),
{
    if s.len() > 0 && is_unicode_ws(s.last()) {
        lemma_trim_end_is_prefix(s.drop_last());
    } else {
        assert(s == s.subrange(0, s.len() as int));
    }
}

/// A text that starts and ends with a quote is its own trim.
pub proof fn lemma_trim_keeps(s: Seq<char>)
    requires
        s.len() > 0,
        !is_unicode_ws(s[0]),
        !is_unicode_ws(s.last()),
    ensures
        trim(s) == s,
{
}

/// The characters of `s`, in order.
pub fn chars_of(s: &str) -> (r: Vec<char>)
    ensures
        r@ == s@,
{
    let mut r: Vec<char> = Vec::new();
    for c in it: s.chars()
        invariant
            it.seq() == s@,
            r@ == it.seq().take(it.index() as int),
    {
        r.push(c);
    }
    r
}

/// `String::push`: appends one character at the end of `s`.
#[verifier::external_body]
pub(crate) fn push_char(s: &mut String, c: char)
    ensures
        final(s)@ == old(s)@.push(c),
{
    s.push(c);
}

/// The string made of the characters `cs[lo..hi]`.
pub fn string_of_range(cs: &Vec<char>, lo: usize, hi: usize) -> (r: String)
    requires
        lo <= hi <= cs@.len(),
    ensures
        r@ == cs@.subrange(lo as int, hi as int),
{
    let mut r = String::new();
    let mut i = lo;
    while i < hi
        invariant
            lo <= i <= hi <= cs@.len(),
            r@ == cs@.subrange(lo as int, i as int),
        decreases hi - i,
    {
        push_char(&mut r, cs[i]);
        assert(cs@.subrange(lo as int, i + 1) == cs@.subrange(lo as int, i as int).push(cs@[i as int]));
        i += 1;
    }
    r
}

/// The string made of the characters of `cs`.
pub fn string_of(cs: &Vec<char>) -> (r: String)
    ensures
        r@ == cs@,
{
    let r = string_of_range(cs, 0, cs.len());
    assert(cs@.subrange(0, cs@.len() as int) == cs@);
    r
}

/// `char::is_ascii_whitespace`.
pub fn char_is_ascii_ws(c: char) -> (b: bool)
    ensures
        b == is_ascii_ws(c),
{
    c == ' ' || c == '\t' || c == '\n' || c == '\x0C' || c == '\r'
}

/// `char::is_whitespace`.
pub fn char_is_unicode_ws(c: char) -> (b: bool)
    ensures
        b == is_unicode_ws(c),
{
    ('\u{9}' <= c && c <= '\u{D}') || c == ' ' || c == '\u{85}' || c == '\u{A0}' || c == '\u{1680}'
        || ('\u{2000}' <= c && c <= '\u{200A}') || c == '\u{2028}' || c == '\u{2029}'
        || c == '\u{202F}' || c == '\u{205F}' || c == '\u{3000}'
}

proof fn lemma_trim_start_skip(s: Seq<char>, i: int)
    requires
        0 <= i <= s.len(),
        forall|k: int| 0 <= k < i ==> is_unicode_ws(#[trigger] s[k]),
    ensures
        trim_start(s) == trim_start(s.skip(i)),
    decreases i,
{
    if i > 0 {
        assert(s.skip(1).skip(i - 1) == s.skip(i));
        lemma_trim_start_skip(s.skip(1), i - 1);
        assert(s.drop_first() == s.skip(1));
    } else {
        assert(s.skip(0) == s);
    }
}

proof fn lemma_trim_end_take(s: Seq<char>, j: int)
    requires
        0 <= j <= s.len(),
        forall|k: int| j <= k < s.len() ==> is_unicode_ws(#[trigger] s[k]),
    ensures
        trim_end(s) == trim_end(s.take(j)),
    decreases s.len() - j,
{
    if j < s.len() {
        assert(s.drop_last().take(j) == s.take(j));
        lemma_trim_end_take(s.drop_last(), j);
    } else {
        assert(s.take(j) == s);
    }
}

/// The characters of `str::trim(s)`: `s` without leading and trailing Unicode whitespace.
pub fn trimmed_chars(s: &str) -> (r: Vec<char>)
    ensures
        r@ == trim(s@),
{
    let cs = chars_of(s);
    let n = cs.len();
    let mut i: usize = 0;
    while i < n && char_is_unicode_ws(cs[i])
        invariant
            n == cs@.len(),
            i <= n,
            forall|k: int| 0 <= k < i ==> is_unicode_ws(#[trigger] cs@[k]),
        decreases n - i,
    {
        i += 1;
    }
    proof {
        lemma_trim_start_skip(cs@, i as int);
    }
    let mut j: usize = n;
    while j > i && char_is_unicode_ws(cs[j - 1])
        invariant
            n == cs@.len(),
            i <= j <= n,
            forall|k: int| j <= k < n ==> is_unicode_ws(#[trigger] cs@[k]),
        decreases j,
    {
        j -= 1;
    }
    let ghost rest = cs@.skip(i as int);
    proof {
        assert(i < n ==> !is_unicode_ws(cs@[i as int]));
        assert(trim_start(rest) == rest);
        assert forall|k: int| j - i <= k < rest.len() implies is_unicode_ws(#[trigger] rest[k]) by {
            assert(rest[k] == cs@[k + i]);
        }
        lemma_trim_end_take(rest, j - i);
        let t = rest.take(j - i);
        if t.len() > 0 {
            assert(t.last() == cs@[j - 1]);
        }
        assert(trim_end(t) == t);
        assert(t == cs@.subrange(i as int, j as int));
    }
    let mut r: Vec<char> = Vec::new();
    let mut k = i;
    while k < j
        invariant
            i <= k <= j <= n == cs@.len(),
            r@ == cs@.subrange(i as int, k as int),
        decreases j - k,
    {
        r.push(cs[k]);
        assert(cs@.subrange(i as int, k + 1) == cs@.subrange(i as int, k as int).push(cs@[k as int]));
        k += 1;
    }
    r
}


/// The strings of `parts` in order, with `sep` between each two neighbours.
pub open spec fn join(parts: Seq<Seq<char>>, sep: Seq<char>) -> Seq<char>
    decreases parts.len(),
{
    if parts.len() == 0 {
        Seq::empty()
    } else if parts.len() == 1 {
        parts[0]
    } else {
        join(parts.drop_last(), sep) + sep + parts.last()
    }
}

/// `v[lo..hi].join(sep)`.
pub fn join_range(v: &Vec<String>, lo: usize, hi: usize, sep: &str) -> (r: String)
    requires
        lo <= hi <= v@.len(),
    ensures
        r@ == join(views(v@.subrange(lo as int, hi as int)), sep@),
{
    let mut r = String::new();
    let mut i = lo;
    while i < hi
        invariant
            lo <= i <= hi <= v@.len(),
            r@ == join(views(v@.subrange(lo as int, i as int)), sep@),
        decreases hi - i,
    {
        let ghost prev = views(v@.subrange(lo as int, i as int));
        if i > lo {
            r.append(sep);
        }
        r.append(v[i].as_str());
        proof {
            let next = views(v@.subrange(lo as int, i + 1));
            assert(next.drop_last() == prev);
            assert(next.last() == v@[i as int]@);
            if i == lo {
                assert(next.len() == 1);
            }
        }
        i += 1;
    }
    r
}

/// `v.join(sep)`.
pub fn join_all(v: &Vec<String>, sep: &str) -> (r: String)
    ensures
        r@ == join(views(v@), sep@),
{
    let r = join_range(v, 0, v.len(), sep);
    assert(v@.subrange(0, v@.len() as int) == v@);
    r
}

/// `a == b` on string slices.
pub fn str_eq(a: &str, b: &str) -> (r: bool)
    ensures
        r == (a@ == b@),
{
    let x = chars_of(a);
    let y = chars_of(b);
    if x.len() != y.len() {
        return false;
    }
    let mut i: usize = 0;
    while i < x.len()
        invariant
            x@ == a@,
            y@ == b@,
            x@.len() == y@.len(),
            i <= x@.len(),
            forall|k: int| 0 <= k < i ==> x@[k] == y@[k],
        decreases x@.len() - i,
    {
        if x[i] != y[i] {
            assert(x@[i as int] != y@[i as int]);
            return false;
        }
        i += 1;
    }
    assert(x@ == y@);
    true
}


/// Lexicographic order on character sequences, comparing characters by code point
/// (the order of `String`'s `Ord`).
pub open spec fn lex_le(a: Seq<char>, b: Seq<char>) -> bool
    decreases a.len(),
{
    if a.len() == 0 {
        true
    } else if b.len() == 0 {
        false
    } else if a[0] != b[0] {
        (a[0] as int) < (b[0] as int)
    } else {
        lex_le(a.drop_first(), b.drop_first())
    }
}

/// The order `lex_le` as a relation.
pub open spec fn lex_order() -> spec_fn(Seq<char>, Seq<char>) -> bool {
    |a: Seq<char>, b: Seq<char>| lex_le(a, b)
}

proof fn lemma_lex_reflexive(a: Seq<char>)
    ensures
        lex_le(a, a),
    decreases a.len(),
{
    if a.len() > 0 {
        lemma_lex_reflexive(a.drop_first());
    }
}

proof fn lemma_lex_antisymmetric(a: Seq<char>, b: Seq<char>)
    requires
        lex_le(a, b),
        lex_le(b, a),
    ensures
        a == b,
    decreases a.len(),
{
    if a.len() > 0 && b.len() > 0 {
        lemma_lex_antisymmetric(a.drop_first(), b.drop_first());
        assert(a == seq![a[0]] + a.drop_first());
        assert(b == seq![b[0]] + b.drop_first());
    }
}

proof fn lemma_lex_transitive(a: Seq<char>, b: Seq<char>, c: Seq<char>)
    requires
        lex_le(a, b),
        lex_le(b, c),
    ensures
        lex_le(a, c),
    decreases a.len(),
{
    if a.len() > 0 && b.len() > 0 && c.len() > 0 {
        if a[0] == b[0] && b[0] == c[0] {
            lemma_lex_transitive(a.drop_first(), b.drop_first(), c.drop_first());
        }
    }
}

proof fn lemma_lex_connected(a: Seq<char>, b: Seq<char>)
    ensures
        lex_le(a, b) || lex_le(b, a),
    decreases a.len(),
{
    if a.len() > 0 && b.len() > 0 && a[0] == b[0] {
        lemma_lex_connected(a.drop_first(), b.drop_first());
    }
}

/// `lex_le` is a total order.
pub proof fn lemma_lex_total()
    ensures
        vstd::relations::total_ordering(lex_order()),
{
    assert forall|a: Seq<char>| #[trigger] lex_order()(a, a) by {
        lemma_lex_reflexive(a);
    }
    assert forall|a: Seq<char>, b: Seq<char>|
        #[trigger] lex_order()(a, b) && #[trigger] lex_order()(b, a) implies a == b by {
        lemma_lex_antisymmetric(a, b);
    }
    assert forall|a: Seq<char>, b: Seq<char>, c: Seq<char>|
        #[trigger] lex_order()(a, b) && #[trigger] lex_order()(b, c) implies lex_order()(a, c) by {
        lemma_lex_transitive(a, b, c);
    }
    assert forall|a: Seq<char>, b: Seq<char>|
        #[trigger] lex_order()(a, b) || #[trigger] lex_order()(b, a) by {
        lemma_lex_connected(a, b);
    }
}

/// `a <= b` in the order of `String`.
pub fn lex_le_str(a: &str, b: &str) -> (r: bool)
    ensures
        r == lex_le(a@, b@),
{
    let x = chars_of(a);
    let y = chars_of(b);
    let mut i: usize = 0;
    proof {
        assert(x@.skip(0) == x@);
        assert(y@.skip(0) == y@);
    }
    while i < x.len() && i < y.len() && x[i] == y[i]
        invariant
            x@ == a@,
            y@ == b@,
            i <= x@.len(),
            i <= y@.len(),
            lex_le(x@, y@) == lex_le(x@.skip(i as int), y@.skip(i as int)),
        decreases x@.len() - i,
    {
        proof {
            assert(x@.skip(i as int).drop_first() == x@.skip(i + 1));
            assert(y@.skip(i as int).drop_first() == y@.skip(i + 1));
        }
        i += 1;
    }
    if i == x.len() {
        true
    } else if i == y.len() {
        false
    } else {
        x[i] < y[i]
    }
}

/// `p` is a prefix of `s`, as `str::starts_with` tests it.
pub fn starts_with(s: &str, p: &str) -> (r: bool)
    ensures
        r == is_prefix(p@, s@),
{
    let x = chars_of(s);
    let y = chars_of(p);
    if y.len() > x.len() {
        return false;
    }
    let mut i: usize = 0;
    while i < y.len()
        invariant
            x@ == s@,
            y@ == p@,
            y@.len() <= x@.len(),
            i <= y@.len(),
            forall|k: int| 0 <= k < i ==> x@[k] == y@[k],
        decreases y@.len() - i,
    {
        if x[i] != y[i] {
            assert(x@.subrange(0, y@.len() as int)[i as int] != y@[i as int]);
            return false;
        }
        i += 1;
    }
    assert(x@.subrange(0, y@.len() as int) == y@);
    true
}


/// The number of bytes in the UTF-8 encoding of `s`.
pub open spec fn byte_len(s: Seq<char>) -> nat {
    vstd::utf8::encode_utf8(s).len()
}

/// The UTF-8 encoding of a concatenation is the concatenation of the encodings.
pub proof fn lemma_byte_len_concat(a: Seq<char>, b: Seq<char>)
    ensures
        byte_len(a + b) == byte_len(a) + byte_len(b),
    decreases a.len(),
{
    if a.len() > 0 {
        lemma_byte_len_concat(a.drop_first(), b);
        assert((a + b).drop_first() == a.drop_first() + b);
        assert((a + b)[0] == a[0]);
    } else {
        assert(a + b == b);
    }
}

/// A space takes one byte in UTF-8.
pub proof fn lemma_byte_len_space()
    ensures
        byte_len(seq![' ']) == 1,
{
    let s = seq![' '];
    assert(s.drop_first() == Seq::<char>::empty());
    assert(vstd::utf8::encode_utf8(s.drop_first()) == Seq::<u8>::empty());
    assert((s[0] as u32) == 32u32);
    assert(vstd::utf8::has_width_1_encoding(32u32));
    assert(vstd::utf8::encode_scalar(32u32).len() == 1);
}

/// `str::len`: the length of `s` in bytes, which is the length of its UTF-8 encoding.
#[verifier::external_body]
pub(crate) fn utf8_len(s: &str) -> (n: usize)
    ensures
        n == byte_len(s@),
{
    s.len()
}

/// The pieces of `s` between the occurrences of `sep`, as `str::split(sep)` gives them
/// (there is always at least one piece).
pub open spec fn split_char(s: Seq<char>, sep: char) -> Seq<Seq<char>>
    decreases s.len(),
{
    if s.len() == 0 {
        seq![Seq::empty()]
    } else {
        let p = split_char(s.drop_last(), sep);
        if s.last() == sep {
            p.push(Seq::empty())
        } else {
            p.update(p.len() - 1, p.last().push(s.last()))
        }
    }
}

/// The pieces of `split_char` hold no separator; there are two or more exactly when
/// `s` holds the separator, and then the last piece follows the last separator of `s`
/// and the other pieces are the pieces of the text before it.
pub proof fn lemma_split_char_pieces(s: Seq<char>, sep: char)
    ensures
        split_char(s, sep).len() >= 1,
        forall|i: int| 0 <= i < split_char(s, sep).len() ==> !(#[trigger] split_char(s, sep)[i]).contains(sep),
        (split_char(s, sep).len() >= 2) == s.contains(sep),
        split_char(s, sep).len() >= 2 ==> ({
            let p = split_char(s, sep);
            let k = s.len() - p.last().len() - 1;
            &&& 0 <= k
            &&& s[k] == sep
            &&& s.skip(k + 1) == p.last()
            &&& split_char(s.take(k), sep) == p.drop_last()
        }),
    decreases s.len(),
{
    let p = split_char(s, sep);
    if s.len() == 0 {
        assert(p == seq![Seq::<char>::empty()]);
        assert(!p[0].contains(sep));
    } else {
        let t = s.drop_last();
        let c = s.last();
        let q = split_char(t, sep);
        lemma_split_char_pieces(t, sep);
        if c == sep {
            assert(p == q.push(Seq::<char>::empty()));
            assert forall|i: int| 0 <= i < p.len() implies !(#[trigger] p[i]).contains(sep) by {
                if i < q.len() {
                    assert(p[i] == q[i]);
                }
            }
            assert(s[s.len() - 1] == sep);
            assert(s.skip(s.len() as int) == Seq::<char>::empty());
            assert(s.take(s.len() - 1) == t);
            assert(p.drop_last() == q);
        } else {
            let last = q.last().push(c);
            assert(p == q.update(q.len() - 1, last));
            assert(!last.contains(sep)) by {
                if last.contains(sep) {
                    let j = choose|j: int| 0 <= j < last.len() && last[j] == sep;
                    assert(j < q.last().len());
                    assert(q.last()[j] == sep);
                    assert(!q[q.len() - 1].contains(sep));
                }
            }
            assert forall|i: int| 0 <= i < p.len() implies !(#[trigger] p[i]).contains(sep) by {
                if i < q.len() - 1 {
                    assert(p[i] == q[i]);
                }
            }
            assert(s.contains(sep) == t.contains(sep)) by {
                if s.contains(sep) {
                    let j = choose|j: int| 0 <= j < s.len() && s[j] == sep;
                    assert(j < t.len());
                    assert(t[j] == sep);
                }
                if t.contains(sep) {
                    let j = choose|j: int| 0 <= j < t.len() && t[j] == sep;
                    assert(s[j] == sep);
                }
            }
            if q.len() >= 2 {
                let k = t.len() - q.last().len() - 1;
                assert(s.len() - p.last().len() - 1 == k);
                assert(s[k] == t[k]);
                assert(s.skip(k + 1) == t.skip(k + 1).push(c));
                assert(s.take(k) == t.take(k));
                assert(p.drop_last() == q.drop_last());
            }
        }
    }
}

/// For a text holding the separator: the last piece follows the last separator, and
/// the piece before it lies between the last two separators (when there are two).
pub proof fn lemma_split_char_last_two(s: Seq<char>, sep: char)
    requires
        s.contains(sep),
    ensures
        ({
            let p = split_char(s, sep);
            let k = s.len() - p.last().len() - 1;
            &&& p.len() >= 2
            &&& 0 <= k
            &&& s[k] == sep
            &&& s.skip(k + 1) == p.last()
            &&& !p.last().contains(sep)
            &&& !s.take(k).contains(sep) ==> p.len() == 2
            &&& s.take(k).contains(sep) ==> {
                let m = p[p.len() - 2];
                &&& p.len() > 2
                &&& !m.contains(sep)
                &&& 0 <= k - m.len() - 1
                &&& s[k - m.len() - 1] == sep
                &&& s.subrange(k - m.len(), k) == m
            }
        }),
{
    let p = split_char(s, sep);
    lemma_split_char_pieces(s, sep);
    assert(!p[p.len() - 1].contains(sep));
    let k = s.len() - p.last().len() - 1;
    let t = s.take(k);
    let q = split_char(t, sep);
    lemma_split_char_pieces(t, sep);
    assert(q == p.drop_last());
    if t.contains(sep) {
        assert(q.last() == p[p.len() - 2]);
        assert(!q[q.len() - 1].contains(sep));
        let j = t.len() - q.last().len() - 1;
        assert(t[j] == sep);
        assert(s[j] == t[j]);
        assert(t.skip(j + 1) == q.last());
        assert(s.subrange(j + 1, k) == t.skip(j + 1));
    }
}

/// `split_char` gives at least one piece, and its last piece is a suffix of `s`.
pub proof fn lemma_split_char_last(s: Seq<char>, sep: char)
    ensures
        split_char(s, sep).len() >= 1,
        split_char(s, sep).last().len() <= s.len(),
        s.skip(s.len() - split_char(s, sep).last().len()) == split_char(s, sep).last(),
    decreases s.len(),
{
    if s.len() > 0 {
        lemma_split_char_last(s.drop_last(), sep);
        let p = split_char(s.drop_last(), sep);
        let t = s.drop_last();
        if s.last() != sep {
            assert(s.skip(s.len() - (p.last().len() + 1)) == t.skip(t.len() - p.last().len()).push(s.last()));
        } else {
            assert(s.skip(s.len() as int) == Seq::<char>::empty());
        }
    } else {
        assert(s.skip(0) == s);
    }
}

/// A text holding `sep` has at least two pieces, and the first piece is followed by `sep`.
pub proof fn lemma_split_char_first(s: Seq<char>, sep: char)
    requires
        s.contains(sep),
    ensures
        split_char(s, sep).len() >= 2,
        split_char(s, sep)[0].len() < s.len(),
        s.take(split_char(s, sep)[0].len() as int) == split_char(s, sep)[0],
        s[split_char(s, sep)[0].len() as int] == sep,
    decreases s.len(),
{
    let t = s.drop_last();
    lemma_split_char_last(t, sep);
    let p = split_char(t, sep);
    if t.contains(sep) {
        lemma_split_char_first(t, sep);
        assert(s.take(p[0].len() as int) == t.take(p[0].len() as int));
    } else {
        lemma_split_char_single(t, sep);
        let i = choose|i: int| 0 <= i < s.len() && s[i] == sep;
        if i < t.len() {
            assert(t[i] == sep);
        }
        assert(s.take(t.len() as int) == t);
    }
}

/// A text without `sep` is one piece: itself.
pub proof fn lemma_split_char_single(s: Seq<char>, sep: char)
    requires
        !s.contains(sep),
    ensures
        split_char(s, sep) == seq![s],
    decreases s.len(),
{
    if s.len() > 0 {
        let t = s.drop_last();
        assert(!t.contains(sep)) by {
            if t.contains(sep) {
                let i = choose|i: int| 0 <= i < t.len() && t[i] == sep;
                assert(s[i] == sep);
            }
        }
        lemma_split_char_single(t, sep);
        assert(s.last() != sep) by {
            assert(s[s.len() - 1] == s.last());
        }
        assert(t.push(s.last()) == s);
    } else {
        assert(s == Seq::<char>::empty());
    }
}

/// The pieces of `s` between the occurrences of `sep`: `s.split(sep)`.
pub fn split_on(s: &str, sep: char) -> (r: Vec<String>)
    ensures
        views(r@) == split_char(s@, sep),
        r@.len() >= 1,
{
    let cs = chars_of(s);
    let mut pieces: Vec<String> = Vec::new();
    let mut start: usize = 0;
    let mut i: usize = 0;
    proof {
        assert(cs@.take(0) == Seq::<char>::empty());
        assert(views(pieces@) == Seq::<Seq<char>>::empty());
        assert(cs@.subrange(0, 0) == Seq::<char>::empty());
    }
    while i < cs.len()
        invariant
            cs@ == s@,
            start <= i <= cs@.len(),
            views(pieces@).push(cs@.subrange(start as int, i as int)) == split_char(cs@.take(i as int), sep),
        decreases cs@.len() - i,
    {
        let ghost prev = views(pieces@);
        proof {
            assert(cs@.take(i + 1).drop_last() == cs@.take(i as int));
            assert(cs@.take(i + 1).last() == cs@[i as int]);
            lemma_split_char_last(cs@.take(i as int), sep);
        }
        if cs[i] == sep {
            let piece = string_of_range(&cs, start, i);
            pieces.push(piece);
            assert(views(pieces@) == prev.push(cs@.subrange(start as int, i as int)));
            start = i + 1;
            assert(cs@.subrange(start as int, i + 1) == Seq::<char>::empty());
        } else {
            assert(cs@.subrange(start as int, i + 1) == cs@.subrange(start as int, i as int).push(cs@[i as int]));
        }
        i += 1;
    }
    let last = string_of_range(&cs, start, cs.len());
    let ghost prev = views(pieces@);
    pieces.push(last);
    assert(views(pieces@) == prev.push(cs@.subrange(start as int, cs@.len() as int)));
    assert(cs@.take(cs@.len() as int) == cs@);
    pieces
}

/// `str::trim(s)` as an owned string.
pub fn trimmed_string(s: &str) -> (r: String)
    ensures
        r@ == trim(s@),
{
    let cs = trimmed_chars(s);
    string_of(&cs)
}

/// `s` contains the character `c`.
pub fn contains_char(s: &str, c: char) -> (r: bool)
    ensures
        r == s@.contains(c),
{
    let cs = chars_of(s);
    let mut i: usize = 0;
    while i < cs.len()
        invariant
            cs@ == s@,
            i <= cs@.len(),
            forall|k: int| 0 <= k < i ==> cs@[k] != c,
        decreases cs@.len() - i,
    {
        if cs[i] == c {
            assert(s@[i as int] == c);
            return true;
        }
        i += 1;
    }
    false
}


/// `p` occurs in `s` at position `i`.
pub open spec fn occurs_at(s: Seq<char>, p: Seq<char>, i: int) -> bool {
    0 <= i && i + p.len() <= s.len() && s.subrange(i, i + p.len()) == p
}

/// `p` occurs somewhere in `s` (what `str::contains` tests).
pub open spec fn occurs(s: Seq<char>, p: Seq<char>) -> bool {
    exists|i: int| occurs_at(s, p, i)
}

/// `s` with every occurrence of the non-empty `p`, found from left to right without
/// overlap, replaced by `r` (what `str::replace` returns).
pub open spec fn replace_all(s: Seq<char>, p: Seq<char>, r: Seq<char>) -> Seq<char>
    decreases s.len(),
{
    if p.len() == 0 || s.len() < p.len() {
        s
    } else if s.take(p.len() as int) == p {
        r + replace_all(s.skip(p.len() as int), p, r)
    } else {
        seq![s[0]] + replace_all(s.skip(1), p, r)
    }
}

/// Whether `p` occurs in `cs` at position `i`.
fn occurs_at_exec(cs: &Vec<char>, p: &Vec<char>, i: usize) -> (b: bool)
    ensures
        b == occurs_at(cs@, p@, i as int),
{
    if i > cs.len() || p.len() > cs.len() - i {
        return false;
    }
    let mut k: usize = 0;
    while k < p.len()
        invariant
            i + p@.len() <= cs@.len(),
            cs@.len() == cs.len(),
            k <= p@.len(),
            forall|m: int| 0 <= m < k ==> cs@[i + m] == p@[m],
        decreases p@.len() - k,
    {
        if cs[i + k] != p[k] {
            assert(cs@.subrange(i as int, i + p@.len())[k as int] != p@[k as int]);
            return false;
        }
        k += 1;
    }
    assert(cs@.subrange(i as int, i + p@.len()) == p@);
    true
}

/// `str::contains`: whether `p` occurs in `s`.
pub fn contains_text(s: &str, p: &str) -> (b: bool)
    ensures
        b == occurs(s@, p@),
{
    let cs = chars_of(s);
    let ps = chars_of(p);
    let mut i: usize = 0;
    loop
        invariant
            cs@ == s@,
            ps@ == p@,
            i <= cs@.len(),
            forall|k: int| 0 <= k < i ==> !occurs_at(s@, p@, k),
        ensures
            forall|k: int| 0 <= k <= s@.len() ==> !occurs_at(s@, p@, k),
        decreases cs@.len() - i,
    {
        if occurs_at_exec(&cs, &ps, i) {
            return true;
        }
        if i == cs.len() {
            break;
        }
        i += 1;
    }
    assert forall|k: int| !occurs_at(s@, p@, k) by {
        if 0 <= k <= s@.len() {
        }
    }
    false
}

/// `str::replace` for a non-empty pattern: every occurrence of `p` in `s`, found
/// from left to right without overlap, replaced by `r`.
pub fn replace_text(s: &str, p: &str, r: &str) -> (out: String)
    requires
        p@.len() > 0,
    ensures
        out@ == replace_all(s@, p@, r@),
{
    let cs = chars_of(s);
    let ps = chars_of(p);
    let mut out = String::new();
    let mut i: usize = 0;
    proof {
        assert(cs@.skip(0) == cs@);
    }
    while i < cs.len()
        invariant
            cs@ == s@,
            ps@ == p@,
            p@.len() > 0,
            i <= cs@.len(),
            replace_all(s@, p@, r@) == out@ + replace_all(cs@.skip(i as int), p@, r@),
        decreases cs@.len() - i,
    {
        let ghost rest = cs@.skip(i as int);
        if occurs_at_exec(&cs, &ps, i) {
            proof {
                assert(rest.take(p@.len() as int) == cs@.subrange(i as int, i + p@.len()));
                assert(rest.skip(p@.len() as int) == cs@.skip(i + p@.len()));
            }
            out.append(r);
            i += ps.len();
        } else {
            proof {
                if rest.len() >= p@.len() {
                    assert(rest.take(p@.len() as int) == cs@.subrange(i as int, i + p@.len()));
                }
                assert(rest.skip(1) == cs@.skip(i + 1));
                if rest.len() < p@.len() {
                    assert(rest.len() >= 1);
                }
            }
            let ghost before = out@;
            push_char(&mut out, cs[i]);
            proof {
                if rest.len() < p@.len() {
                    // the rest is copied unchanged, one character at a time
                    lemma_replace_all_short(rest.skip(1), p@, r@);
                    lemma_replace_all_short(rest, p@, r@);
                    assert(rest == seq![rest[0]] + rest.skip(1));
                }
                assert(before + seq![cs@[i as int]] + replace_all(rest.skip(1), p@, r@) == out@ + replace_all(cs@.skip(i + 1), p@, r@));
            }
            i += 1;
        }
    }
    proof {
        assert(cs@.skip(cs@.len() as int) == Seq::<char>::empty());
    }
    out
}

/// A text shorter than the pattern is left as it is.
proof fn lemma_replace_all_short(s: Seq<char>, p: Seq<char>, r: Seq<char>)
    requires
        s.len() < p.len(),
    ensures
        replace_all(s, p, r) == s,
{
}


/// The decimal digit character for `d < 10`.
pub open spec fn digit(d: nat) -> char {
    ((48 + d) as u32) as char
}

/// The decimal notation of `n`, without leading zeros.
pub open spec fn decimal(n: nat) -> Seq<char>
    decreases n,
{
    if n < 10 {
        seq![digit(n)]
    } else {
        decimal(n / 10).push(digit(n % 10))
    }
}

/// The digit character of `d`.
fn digit_char(d: usize) -> (c: char)
    requires
        d < 10,
    ensures
        c == digit(d as nat),
{
    if d == 0 { '0' } else if d == 1 { '1' } else if d == 2 { '2' } else if d == 3 { '3' }
    else if d == 4 { '4' } else if d == 5 { '5' } else if d == 6 { '6' } else if d == 7 { '7' }
    else if d == 8 { '8' } else { '9' }
}

/// The decimal notation of `n` (what `n.to_string()` gives).
pub fn decimal_string(n: usize) -> (r: String)
    ensures
        r@ == decimal(n as nat),
    decreases n,
{
    if n < 10 {
        let mut r = String::new();
        push_char(&mut r, digit_char(n));
        r
    } else {
        let mut r = decimal_string(n / 10);
        push_char(&mut r, digit_char(n % 10));
        r
    }
}

/// `c` is an ASCII decimal digit.
pub open spec fn is_digit(c: char) -> bool {
    '0' <= c && c <= '9'
}

/// The number that the decimal digits `s` stand for.
pub open spec fn digits_value(s: Seq<char>) -> nat
    decreases s.len(),
{
    if s.len() == 0 {
        0
    } else {
        digits_value(s.drop_last()) * 10 + ((s.last() as int - 48) as nat)
    }
}

/// The `usize` that `s` denotes as `str::parse::<usize>` reads it: an optional `+`,
/// then one or more ASCII digits, with a value that fits in a `usize`.
pub open spec fn parsed_usize(s: Seq<char>) -> Option<nat> {
    let d = unsigned_digits(s);
    if d.len() > 0 && (forall|i: int| 0 <= i < d.len() ==> is_digit(#[trigger] d[i])) && digits_value(d)
        <= usize::MAX {
        Some(digits_value(d))
    } else {
        None
    }
}

proof fn lemma_digits_value_grows(s: Seq<char>, j: int)
    requires
        0 <= j <= s.len(),
        forall|i: int| 0 <= i < s.len() ==> is_digit(#[trigger] s[i]),
    ensures
        digits_value(s.take(j)) <= digits_value(s),
    decreases s.len() - j,
{
    if j < s.len() {
        assert(s.drop_last().take(j) == s.take(j));
        lemma_digits_value_grows(s.drop_last(), j);
    } else {
        assert(s.take(j) == s);
    }
}

/// `str::parse::<usize>`: the number `s` denotes, or `None` when it is no decimal
/// number or does not fit (see `parsed_usize`).
pub fn parse_usize(s: &str) -> (r: Option<usize>)
    ensures
        match r {
            Some(v) => parsed_usize(s@) == Some(v as nat),
            None => parsed_usize(s@) is None,
        },
{
    let cs = chars_of(s);
    let start: usize = if cs.len() > 0 && cs[0] == '+' { 1 } else { 0 };
    let ghost d = unsigned_digits(s@);
    assert(d == cs@.skip(start as int));
    if start >= cs.len() {
        return None;
    }
    let mut value: usize = 0;
    let mut i: usize = start;
    while i < cs.len()
        invariant
            cs@ == s@,
            d == cs@.skip(start as int),
            d == unsigned_digits(s@),
            start <= i <= cs@.len(),
            forall|k: int| 0 <= k < i - start ==> is_digit(#[trigger] d[k]),
            value as nat == digits_value(d.take(i - start)),
        decreases cs@.len() - i,
    {
        let c = cs[i];
        if !('0' <= c && c <= '9') {
            assert(!is_digit(d[i - start]));
            assert(!(forall|k: int| 0 <= k < d.len() ==> is_digit(#[trigger] d[k])));
            assert(parsed_usize(s@) is None);
            return None;
        }
        let dv: usize = if c == '0' { 0 } else if c == '1' { 1 } else if c == '2' { 2 } else if c == '3' { 3 }
            else if c == '4' { 4 } else if c == '5' { 5 } else if c == '6' { 6 } else if c == '7' { 7 }
            else if c == '8' { 8 } else { 9 };
        proof {
            assert(d.take(i - start + 1).drop_last() == d.take(i - start));
            assert(d.take(i - start + 1).last() == c);
            assert(dv as int == c as int - 48);
        }
        match value.checked_mul(10) {
            Some(m) => match m.checked_add(dv) {
                Some(v) => {
                    value = v;
                },
                None => {
                    proof {
                        assert(digits_value(d.take(i - start + 1)) == digits_value(d.take(i - start)) * 10 + dv);
                        lemma_all_digits(d, i - start, c);
                    }
                    assert(parsed_usize(s@) is None);
                    return None;
                },
            },
            None => {
                proof {
                    lemma_all_digits(d, i - start, c);
                }
                return None;
            },
        }
        i += 1;
    }
    assert(d.take(d.len() as int) == d);
    Some(value)
}

/// The digits after an optional `+`.
pub open spec fn unsigned_digits(s: Seq<char>) -> Seq<char> {
    if s.len() > 0 && s[0] == '+' { s.drop_first() } else { s }
}

/// When a prefix of the digits already exceeds the bound, so does the whole number
/// (if all characters are digits at all).
proof fn lemma_all_digits(d: Seq<char>, j: int, c: char)
    requires
        0 <= j < d.len(),
        d[j] == c,
        is_digit(c),
        digits_value(d.take(j + 1)) > usize::MAX,
        forall|k: int| 0 <= k < j ==> is_digit(#[trigger] d[k]),
    ensures
        (forall|i: int| 0 <= i < d.len() ==> is_digit(#[trigger] d[i])) ==> digits_value(d) > usize::MAX,
{
    if forall|i: int| 0 <= i < d.len() ==> is_digit(#[trigger] d[i]) {
        lemma_digits_value_grows(d, j + 1);
    }
}

} // verus!
