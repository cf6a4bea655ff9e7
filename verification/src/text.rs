//! Text as sequences of characters: the primitives that the log parsers
//! are built from, each with its meaning as a spec function on `Seq<char>`.

use vstd::prelude::*;

verus! {

/// `String::push` of std appends the character to the end of the
/// string: the view grows by that character.
pub assume_specification[ String::push ](s: &mut String, c: char)
    ensures
        final(s)@ == old(s)@.push(c),
;

/// The characters of `s`, in order.
pub fn to_chars(s: &str) -> (v: Vec<char>)
    ensures
        v@ == s@,
{
    let mut v: Vec<char> = Vec::new();
    for c in it: s.chars()
        invariant
            v@ == it.seq().take(it.index() as int),
            it.seq() == s@,
    {
        v.push(c);
    }
    v
}

/// The string made of the characters of `v`, in order.
pub fn from_chars(v: &[char]) -> (s: String)
    ensures
        s@ == v@,
{
    let mut s = String::new();
    let mut i: usize = 0;
    while i < v.len()
        invariant
            i <= v.len(),
            s@ == v@.take(i as int),
        decreases v.len() - i,
    {
        s.push(v[i]);
        i += 1;
    }
    s
}

/// Whether `c` has the Unicode property `White_Space`.
pub open spec fn is_space(c: char) -> bool {
    let u = c as u32;
    ||| 0x09 <= u <= 0x0D
    ||| u == 0x20
    ||| u == 0x85
    ||| u == 0xA0
    ||| u == 0x1680
    ||| 0x2000 <= u <= 0x200A
    ||| u == 0x2028
    ||| u == 0x2029
    ||| u == 0x202F
    ||| u == 0x205F
    ||| u == 0x3000
}

/// Whether `c` is white space.
pub fn is_whitespace(c: char) -> (b: bool)
    ensures
        b == is_space(c),
{
    let u: u32 = c as u32;
    (0x09 <= u && u <= 0x0D) || u == 0x20 || u == 0x85 || u == 0xA0 || u == 0x1680 || (0x2000 <= u
        && u <= 0x200A) || u == 0x2028 || u == 0x2029 || u == 0x202F || u == 0x205F || u == 0x3000
}

/// `s` without its leading white space.
pub open spec fn trim_start(s: Seq<char>) -> Seq<char>
    decreases s.len(),
{
    if s.len() > 0 && is_space(s[0]) {
        trim_start(s.drop_first())
    } else {
        s
    }
}

/// `s` without its trailing white space.
pub open spec fn trim_end(s: Seq<char>) -> Seq<char>
    decreases s.len(),
{
    if s.len() > 0 && is_space(s.last()) {
        trim_end(s.drop_last())
    } else {
        s
    }
}

/// `s` without leading and trailing white space.
pub open spec fn trimmed(s: Seq<char>) -> Seq<char> {
    trim_end(trim_start(s))
}

/// The part of `s` between its leading and its trailing white space.
pub fn trim<'a>(s: &'a [char]) -> (out: &'a [char])
    ensures
        out@ == trimmed(s@),
{
    let n = s.len();
    let mut a: usize = 0;
    assert(s@.skip(0) =~= s@);
    while a < n && is_whitespace(s[a])
        invariant
            a <= n,
            n == s@.len(),
            trim_start(s@) == trim_start(s@.skip(a as int)),
        decreases n - a,
    {
        assert(s@.skip(a as int).drop_first() =~= s@.skip(a as int + 1));
        a += 1;
    }
    let mut b: usize = n;
    assert(s@.subrange(a as int, n as int) =~= s@.skip(a as int));
    while b > a && is_whitespace(s[b - 1])
        invariant
            a <= b <= n,
            n == s@.len(),
            trim_end(s@.subrange(a as int, n as int)) == trim_end(s@.subrange(a as int, b as int)),
        decreases b,
    {
        assert(s@.subrange(a as int, b as int).drop_last() =~= s@.subrange(a as int, b - 1));
        b -= 1;
    }
    vstd::slice::slice_subrange(s, a, b)
}

/// The view of an optional index.
pub open spec fn index_view(r: Option<usize>) -> Option<int> {
    match r {
        Some(i) => Some(i as int),
        None => None,
    }
}

/// The view of an optional slice.
pub open spec fn slice_view(r: Option<&[char]>) -> Option<Seq<char>> {
    match r {
        Some(s) => Some(s@),
        None => None,
    }
}

/// The view of an optional string.
pub open spec fn string_view(s: Option<String>) -> Option<Seq<char>> {
    match s {
        Some(s) => Some(s@),
        None => None,
    }
}

/// The views of a sequence of slices.
pub open spec fn slice_views(v: Seq<&[char]>) -> Seq<Seq<char>> {
    v.map_values(|l: &[char]| l@)
}

/// Whether `a` and `b` hold the same characters.
pub fn chars_eq(a: &[char], b: &[char]) -> (r: bool)
    ensures
        r == (a@ == b@),
{
    if a.len() != b.len() {
        return false;
    }
    let mut i: usize = 0;
    while i < a.len()
        invariant
            i <= a.len(),
            a.len() == b.len(),
            a@.take(i as int) == b@.take(i as int),
        decreases a.len() - i,
    {
        if a[i] != b[i] {
            return false;
        }
        assert(a@.take(i + 1) =~= a@.take(i as int).push(a@[i as int]));
        assert(b@.take(i + 1) =~= b@.take(i as int).push(b@[i as int]));
        i += 1;
    }
    assert(a@.take(i as int) =~= a@);
    assert(b@.take(i as int) =~= b@);
    true
}

/// Whether `needle` stands in `s` at index `i`.
pub open spec fn occurs_at(s: Seq<char>, needle: Seq<char>, i: int) -> bool {
    0 <= i && i + needle.len() <= s.len() && s.subrange(i, i + needle.len()) =~= needle
}

/// The least index at or after `from` at which `needle` stands in `s`.
pub open spec fn find_from(s: Seq<char>, needle: Seq<char>, from: int) -> Option<int>
    decreases s.len() - from,
{
    if from < 0 || from + needle.len() > s.len() {
        None
    } else if occurs_at(s, needle, from) {
        Some(from)
    } else {
        find_from(s, needle, from + 1)
    }
}

/// The least index at which `needle` stands in `s`.
pub open spec fn find(s: Seq<char>, needle: Seq<char>) -> Option<int> {
    find_from(s, needle, 0)
}

/// `find_from` gives the first occurrence at or after `from`, and `None`
/// exactly when there is none.
pub proof fn lemma_find_from(s: Seq<char>, needle: Seq<char>, from: int)
    requires
        0 <= from,
    ensures
        match find_from(s, needle, from) {
            Some(i) => from <= i && occurs_at(s, needle, i) && forall|j: int|
                from <= j < i ==> !occurs_at(s, needle, j),
            None => forall|j: int| from <= j ==> !occurs_at(s, needle, j),
        },
    decreases s.len() - from,
{
    if from + needle.len() <= s.len() && !occurs_at(s, needle, from) {
        lemma_find_from(s, needle, from + 1);
    }
}

/// Whether `needle` stands somewhere in `s`.
pub open spec fn contains(s: Seq<char>, needle: Seq<char>) -> bool {
    find(s, needle) is Some
}

/// What follows the first occurrence of `needle` in `s`.
pub open spec fn after(s: Seq<char>, needle: Seq<char>) -> Option<Seq<char>> {
    match find(s, needle) {
        Some(i) => Some(s.skip(i + needle.len())),
        None => None,
    }
}

/// Whether `needle` stands in `s` at index `i`.
pub fn starts_at(s: &[char], needle: &[char], i: usize) -> (b: bool)
    ensures
        b == occurs_at(s@, needle@, i as int),
{
    let m = needle.len();
    if i > s.len() || m > s.len() - i {
        return false;
    }
    chars_eq(vstd::slice::slice_subrange(s, i, i + m), needle)
}

/// The least index at which `needle` stands in `s`.
pub fn find_in(s: &[char], needle: &[char]) -> (r: Option<usize>)
    ensures
        index_view(r) == find(s@, needle@),
{
    let n = s.len();
    let m = needle.len();
    if m > n {
        return None;
    }
    let mut i: usize = 0;
    loop
        invariant
            m <= n,
            n == s@.len(),
            m == needle@.len(),
            i <= n - m,
            find(s@, needle@) == find_from(s@, needle@, i as int),
        decreases n - m - i,
    {
        if starts_at(s, needle, i) {
            return Some(i);
        }
        if i == n - m {
            assert(find_from(s@, needle@, i + 1) is None);
            return None;
        }
        i += 1;
    }
}

/// What follows the first occurrence of `needle` in `content`.
pub fn find_get_after<'a>(content: &'a [char], needle: &[char]) -> (r: Option<&'a [char]>)
    ensures
        slice_view(r) == after(content@, needle@),
{
    match find_in(content, needle) {
        Some(pos) => {
            let n = content.len();
            proof {
                lemma_find_from(content@, needle@, 0);
            }
            let rest = vstd::slice::slice_subrange(content, pos + needle.len(), n);
            assert(rest@ =~= content@.skip(pos + needle@.len()));
            Some(rest)
        },
        None => None,
    }
}

/// How many characters stand before the first `c` in `s`; the length of
/// `s` where it holds none.
pub open spec fn span_until(s: Seq<char>, c: char) -> nat
    decreases s.len(),
{
    if s.len() == 0 || s[0] == c {
        0
    } else {
        1 + span_until(s.drop_first(), c)
    }
}

/// `span_until` stops at the first `c`, or at the end.
pub proof fn lemma_span_until(s: Seq<char>, c: char)
    ensures
        span_until(s, c) <= s.len(),
        forall|j: int| 0 <= j < span_until(s, c) ==> s[j] != c,
        span_until(s, c) < s.len() ==> s[span_until(s, c) as int] == c,
    decreases s.len(),
{
    if s.len() > 0 && s[0] != c {
        let t = s.drop_first();
        lemma_span_until(t, c);
        assert forall|j: int| 0 <= j < span_until(s, c) implies s[j] != c by {
            if j > 0 {
                assert(s[j] == t[j - 1]);
            }
        }
        if span_until(s, c) < s.len() {
            assert(s[span_until(s, c) as int] == t[span_until(t, c) as int]);
        }
    }
}

/// How many characters stand before the first `c` in `s`.
pub fn count_until(s: &[char], c: char) -> (n: usize)
    ensures
        n == span_until(s@, c),
{
    let mut i: usize = 0;
    assert(s@.skip(0) =~= s@);
    while i < s.len() && s[i] != c
        invariant
            i <= s.len(),
            span_until(s@, c) == i + span_until(s@.skip(i as int), c),
        decreases s.len() - i,
    {
        assert(s@.skip(i as int).drop_first() =~= s@.skip(i + 1));
        i += 1;
    }
    i
}

/// The index of the last `c` in `s`.
pub open spec fn last_index_of(s: Seq<char>, c: char) -> Option<int>
    decreases s.len(),
{
    if s.len() == 0 {
        None
    } else if s.last() == c {
        Some(s.len() - 1)
    } else {
        last_index_of(s.drop_last(), c)
    }
}

/// `last_index_of` gives an index of `c` after which no `c` stands, and
/// `None` exactly when `s` holds no `c`.
pub proof fn lemma_last_index_of(s: Seq<char>, c: char)
    ensures
        match last_index_of(s, c) {
            Some(i) => 0 <= i < s.len() && s[i] == c && forall|j: int|
                i < j < s.len() ==> s[j] != c,
            None => forall|j: int| 0 <= j < s.len() ==> s[j] != c,
        },
    decreases s.len(),
{
    if s.len() > 0 && s.last() != c {
        let t = s.drop_last();
        lemma_last_index_of(t, c);
        assert forall|j: int| 0 <= j < t.len() implies s[j] == t[j] by {}
    }
}

/// The index of the last `c` in `s`.
pub fn rfind_char(s: &[char], c: char) -> (r: Option<usize>)
    ensures
        index_view(r) == last_index_of(s@, c),
{
    let mut i: usize = s.len();
    assert(s@.take(i as int) =~= s@);
    while i > 0
        invariant
            i <= s.len(),
            last_index_of(s@, c) == last_index_of(s@.take(i as int), c),
        decreases i,
    {
        if s[i - 1] == c {
            return Some(i - 1);
        }
        assert(s@.take(i as int).drop_last() =~= s@.take(i - 1));
        i -= 1;
    }
    None
}

/// The lines of `s`: it is cut after each line feed, the line feed is
/// dropped, and so is one carriage return just before it. A carriage
/// return at the very end, with no line feed after it, stays.
pub open spec fn lines(s: Seq<char>) -> Seq<Seq<char>>
    decreases s.len(),
{
    let n = span_until(s, '\n') as int;
    if s.len() == 0 {
        Seq::empty()
    } else if n >= s.len() {
        seq![s]
    } else {
        seq![strip_cr(s.take(n))] + lines(s.skip(n + 1))
    }
}

/// `s` without one trailing carriage return.
pub open spec fn strip_cr(s: Seq<char>) -> Seq<char> {
    if s.len() > 0 && s.last() == '\r' {
        s.drop_last()
    } else {
        s
    }
}

/// Up to its first `c`, a sequence that holds `c` is read the same
/// whatever follows it.
pub proof fn lemma_span_until_append(a: Seq<char>, b: Seq<char>, c: char)
    requires
        span_until(a, c) < a.len(),
    ensures
        span_until(a + b, c) == span_until(a, c),
    decreases a.len(),
{
    if a.len() > 0 && a[0] != c {
        assert((a + b).drop_first() =~= a.drop_first() + b);
        lemma_span_until_append(a.drop_first(), b, c);
    }
}

/// The lines of a text that ends with a line feed, followed by another
/// text, are the lines of the one and then the lines of the other.
pub proof fn lemma_lines_append(a: Seq<char>, b: Seq<char>)
    requires
        a.len() > 0 ==> a.last() == '\n',
    ensures
        lines(a + b) == lines(a) + lines(b),
    decreases a.len(),
{
    if a.len() == 0 {
        assert(a + b =~= b);
        assert(lines(a) + lines(b) =~= lines(b));
    } else {
        lemma_span_until(a, '\n');
        let n = span_until(a, '\n') as int;
        assert(n < a.len()) by {
            if n >= a.len() {
                assert(a[a.len() - 1] != '\n');
            }
        }
        lemma_span_until_append(a, b, '\n');
        let rest = a.skip(n + 1);
        assert((a + b).take(n) =~= a.take(n));
        assert((a + b).skip(n + 1) =~= rest + b);
        if rest.len() > 0 {
            assert(rest.last() == a.last());
        }
        lemma_lines_append(rest, b);
        assert(lines(a + b) =~= lines(a) + lines(b));
    }
}

/// The lines of `s`, in order.
pub fn split_lines<'a>(s: &'a [char]) -> (out: Vec<&'a [char]>)
    ensures
        slice_views(out@) == lines(s@),
{
    let mut out: Vec<&'a [char]> = Vec::new();
    let mut pos: usize = 0;
    assert(s@.skip(0) =~= s@);
    assert(slice_views(out@) + lines(s@) =~= lines(s@));
    while pos < s.len()
        invariant
            pos <= s.len(),
            lines(s@) == slice_views(out@) + lines(s@.skip(pos as int)),
        decreases s.len() - pos,
    {
        let rest = vstd::slice::slice_subrange(s, pos, s.len());
        assert(rest@ =~= s@.skip(pos as int));
        let n = count_until(rest, '\n');
        proof {
            lemma_span_until(rest@, '\n');
        }
        let ghost before = slice_views(out@);
        if n >= rest.len() {
            out.push(rest);
            assert(slice_views(out@) =~= before + seq![rest@]);
            pos = s.len();
            assert(lines(s@.skip(pos as int)) =~= Seq::<Seq<char>>::empty());
        } else {
            let mut end: usize = pos + n;
            if n > 0 && s[end - 1] == '\r' {
                end -= 1;
            }
            let line = vstd::slice::slice_subrange(s, pos, end);
            assert(line@ =~= strip_cr(rest@.take(n as int))) by {
                assert(rest@.take(n as int) =~= s@.subrange(pos as int, pos + n));
                if n > 0 {
                    assert(rest@.take(n as int).last() == s@[pos + n - 1]);
                    assert(rest@.take(n as int).drop_last() =~= s@.subrange(pos as int, pos + n - 1));
                }
            }
            out.push(line);
            assert(slice_views(out@) =~= before + seq![line@]);
            assert(rest@.skip(n + 1) =~= s@.skip(pos + n + 1));
            pos = pos + n + 1;
        }
    }
    assert(lines(s@.skip(pos as int)) =~= Seq::<Seq<char>>::empty());
    out
}

/// How many characters of `s` stand before its first white space; the
/// length of `s` where it holds none.
pub open spec fn word_len(s: Seq<char>) -> nat
    decreases s.len(),
{
    if s.len() == 0 || is_space(s[0]) {
        0
    } else {
        1 + word_len(s.drop_first())
    }
}

/// `word_len` stops at the first white space, or at the end.
pub proof fn lemma_word_len(s: Seq<char>)
    ensures
        word_len(s) <= s.len(),
        forall|j: int| 0 <= j < word_len(s) ==> !is_space(s[j]),
        word_len(s) < s.len() ==> is_space(s[word_len(s) as int]),
    decreases s.len(),
{
    if s.len() > 0 && !is_space(s[0]) {
        let t = s.drop_first();
        lemma_word_len(t);
        assert forall|j: int| 0 <= j < word_len(s) implies !is_space(s[j]) by {
            if j > 0 {
                assert(s[j] == t[j - 1]);
            }
        }
        if word_len(s) < s.len() {
            assert(s[word_len(s) as int] == t[word_len(t) as int]);
        }
    }
}

/// The words of `s`: its longest runs of characters that are not white
/// space, in order.
pub open spec fn tokens(s: Seq<char>) -> Seq<Seq<char>>
    decreases s.len(),
{
    if s.len() == 0 {
        Seq::empty()
    } else if is_space(s[0]) {
        tokens(s.drop_first())
    } else {
        let n = word_len(s) as int;
        proof {
            lemma_word_len(s);
        }
        seq![s.take(n)] + tokens(s.skip(n))
    }
}

/// The words of `s`, in order.
pub fn split_whitespace<'a>(s: &'a [char]) -> (out: Vec<&'a [char]>)
    ensures
        slice_views(out@) == tokens(s@),
{
    let mut out: Vec<&'a [char]> = Vec::new();
    let mut pos: usize = 0;
    assert(s@.skip(0) =~= s@);
    assert(slice_views(out@) + tokens(s@) =~= tokens(s@));
    while pos < s.len()
        invariant
            pos <= s.len(),
            tokens(s@) == slice_views(out@) + tokens(s@.skip(pos as int)),
        decreases s.len() - pos,
    {
        if is_whitespace(s[pos]) {
            assert(s@.skip(pos as int).drop_first() =~= s@.skip(pos + 1));
            pos += 1;
        } else {
            let ghost rest = s@.skip(pos as int);
            let mut end: usize = pos;
            assert(rest.skip(0) =~= rest);
            while end < s.len() && !is_whitespace(s[end])
                invariant
                    pos <= end <= s.len(),
                    rest == s@.skip(pos as int),
                    word_len(rest) == (end - pos) + word_len(rest.skip(end - pos)),
                decreases s.len() - end,
            {
                assert(rest.skip(end - pos).drop_first() =~= rest.skip(end - pos + 1));
                end += 1;
            }
            let word = vstd::slice::slice_subrange(s, pos, end);
            assert(word@ =~= rest.take(end - pos));
            assert(rest.skip(end - pos) =~= s@.skip(end as int));
            let ghost before = slice_views(out@);
            out.push(word);
            assert(slice_views(out@) =~= before + seq![word@]);
            pos = end;
        }
    }
    assert(tokens(s@.skip(pos as int)) =~= Seq::<Seq<char>>::empty());
    out
}

/// Whether `a` comes before `b` in dictionary order, characters compared
/// by their code points.
pub open spec fn lex_lt(a: Seq<char>, b: Seq<char>) -> bool
    decreases a.len(),
{
    if b.len() == 0 {
        false
    } else if a.len() == 0 {
        true
    } else if a[0] != b[0] {
        (a[0] as u32) < (b[0] as u32)
    } else {
        lex_lt(a.drop_first(), b.drop_first())
    }
}

/// No sequence comes before itself.
pub proof fn lemma_lex_irreflexive(a: Seq<char>)
    ensures
        !lex_lt(a, a),
    decreases a.len(),
{
    if a.len() > 0 {
        lemma_lex_irreflexive(a.drop_first());
    }
}

/// Of two different sequences exactly one comes before the other.
pub proof fn lemma_lex_total(a: Seq<char>, b: Seq<char>)
    ensures
        a == b || lex_lt(a, b) || lex_lt(b, a),
        !(lex_lt(a, b) && lex_lt(b, a)),
    decreases a.len(),
{
    if a.len() > 0 && b.len() > 0 {
        if a[0] == b[0] {
            lemma_lex_total(a.drop_first(), b.drop_first());
            if a.drop_first() == b.drop_first() {
                assert(a =~= seq![a[0]] + a.drop_first());
                assert(b =~= seq![b[0]] + b.drop_first());
            }
        } else {
            vstd::utf8::char_u32_cast(a[0], a[0] as u32);
            vstd::utf8::char_u32_cast(b[0], b[0] as u32);
        }
    } else if a.len() == 0 && b.len() == 0 {
        assert(a =~= b);
    }
}

/// Dictionary order is transitive.
pub proof fn lemma_lex_transitive(a: Seq<char>, b: Seq<char>, c: Seq<char>)
    requires
        lex_lt(a, b),
        lex_lt(b, c),
    ensures
        lex_lt(a, c),
    decreases a.len(),
{
    if a.len() > 0 && a[0] == b[0] && b[0] == c[0] {
        lemma_lex_transitive(a.drop_first(), b.drop_first(), c.drop_first());
    }
}

/// Whether `a` comes before `b` in dictionary order.
pub fn chars_lt(a: &[char], b: &[char]) -> (r: bool)
    ensures
        r == lex_lt(a@, b@),
{
    let mut i: usize = 0;
    assert(a@.skip(0) =~= a@);
    assert(b@.skip(0) =~= b@);
    while i < a.len() && i < b.len()
        invariant
            i <= a.len(),
            i <= b.len(),
            lex_lt(a@, b@) == lex_lt(a@.skip(i as int), b@.skip(i as int)),
        decreases a.len() - i,
    {
        if a[i] != b[i] {
            return (a[i] as u32) < (b[i] as u32);
        }
        assert(a@.skip(i as int).drop_first() =~= a@.skip(i + 1));
        assert(b@.skip(i as int).drop_first() =~= b@.skip(i + 1));
        i += 1;
    }
    i < b.len()
}

/// Whether `a` comes before `b` in dictionary order.
pub fn str_lt(a: &str, b: &str) -> (r: bool)
    ensures
        r == lex_lt(a@, b@),
{
    let x = to_chars(a);
    let y = to_chars(b);
    chars_lt(x.as_slice(), y.as_slice())
}

/// The index of the first line, at or after `from`, in which `needle`
/// stands.
pub open spec fn first_line_with(ls: Seq<Seq<char>>, needle: Seq<char>, from: int) -> Option<int>
    decreases ls.len() - from,
{
    if from < 0 || from >= ls.len() {
        None
    } else if contains(ls[from], needle) {
        Some(from)
    } else {
        first_line_with(ls, needle, from + 1)
    }
}

/// `first_line_with` gives the first line at or after `from` that holds
/// the needle, and `None` exactly when there is none.
pub proof fn lemma_first_line_with(ls: Seq<Seq<char>>, needle: Seq<char>, from: int)
    requires
        0 <= from,
    ensures
        match first_line_with(ls, needle, from) {
            Some(i) => from <= i < ls.len() && contains(ls[i], needle) && forall|j: int|
                from <= j < i ==> !contains(#[trigger] ls[j], needle),
            None => forall|j: int| from <= j < ls.len() ==> !contains(#[trigger] ls[j], needle),
        },
    decreases ls.len() - from,
{
    if from < ls.len() && !contains(ls[from], needle) {
        lemma_first_line_with(ls, needle, from + 1);
    }
}

/// The first line at or after `from` in which `needle` stands: its
/// index, and what follows the needle in it.
pub fn find_line<'a>(ls: &Vec<&'a [char]>, needle: &[char], from: usize) -> (r: Option<
    (usize, &'a [char]),
>)
    ensures
        match r {
            Some((i, rest)) => first_line_with(slice_views(ls@), needle@, from as int) == Some(
                i as int,
            ) && i < ls.len() && after(ls@[i as int]@, needle@) == Some(rest@),
            None => first_line_with(slice_views(ls@), needle@, from as int) is None,
        },
{
    let mut i: usize = from;
    while i < ls.len()
        invariant
            from <= i,
            first_line_with(slice_views(ls@), needle@, from as int) == first_line_with(
                slice_views(ls@),
                needle@,
                i as int,
            ),
        decreases ls.len() - i,
    {
        assert(slice_views(ls@)[i as int] == ls@[i as int]@);
        match find_get_after(ls[i], needle) {
            Some(rest) => {
                return Some((i, rest));
            },
            None => {},
        }
        i += 1;
    }
    None
}

} // verus!
