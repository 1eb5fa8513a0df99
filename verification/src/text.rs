//! Character-level helpers over `Seq<char>` views of strings.

use vstd::prelude::*;
use vstd::std_specs::iter::IteratorSpec;

verus! {

/// Unicode `White_Space`: the set that `char::is_whitespace`, `str::trim`,
/// `str::split_whitespace` and the `\s` class of a Unicode regex share.
pub open spec fn is_space(c: char) -> bool {
    ||| ('\u{9}' <= c && c <= '\u{d}')
    ||| c == ' '
    ||| c == '\u{85}'
    ||| c == '\u{a0}'
    ||| c == '\u{1680}'
    ||| ('\u{2000}' <= c && c <= '\u{200a}')
    ||| c == '\u{2028}'
    ||| c == '\u{2029}'
    ||| c == '\u{202f}'
    ||| c == '\u{205f}'
    ||| c == '\u{3000}'
}

pub fn space(c: char) -> (r: bool)
    ensures
        r == is_space(c),
{
    ('\u{9}' <= c && c <= '\u{d}') || c == ' ' || c == '\u{85}' || c == '\u{a0}' || c == '\u{1680}'
        || ('\u{2000}' <= c && c <= '\u{200a}') || c == '\u{2028}' || c == '\u{2029}' || c
        == '\u{202f}' || c == '\u{205f}' || c == '\u{3000}'
}

/// The characters of a string slice, in order.
pub fn chars_of(s: &str) -> (v: Vec<char>)
    ensures
        v@ == s@,
{
    broadcast use vstd::string::group_string_axioms;
    let mut v: Vec<char> = Vec::new();
    for c in it: s.chars()
        invariant
            v@ == it.seq().take(it.index() as int),
    {
        v.push(c);
    }
    assert(v@ == s@);
    v
}

/// `String::from_iter` over characters.
#[verifier::external_body]
pub(crate) fn string_of(v: &[char]) -> (s: String)
    ensures
        s@ == v@,
{
    String::from_iter(v.iter())
}

/// Whether `\d` of the `regex` crate matches a character outside ASCII: the
/// decimal digits of Unicode (general category `Nd`) in the tables of the
/// `regex` version in use.
pub uninterp spec fn regex_decimal_digit(c: char) -> bool;

/// `regex::Regex::is_match` of the pattern `^\d$` on a character outside
/// ASCII. The contract names the answer `regex_decimal_digit(c)` and claims
/// nothing more of it.
#[verifier::external_body]
fn unicode_digit(c: char) -> (r: bool)
    requires
        c as u32 >= 128,
    ensures
        r == regex_decimal_digit(c),
{
    regex::Regex::new(r"^\d$").unwrap().is_match(&c.to_string())
}

/// A character that the `\d` class of a Unicode regex matches: `0` to `9`,
/// and outside ASCII the decimal digits of other scripts.
pub open spec fn regex_digit(c: char) -> bool {
    if (c as u32) < 128 {
        '0' <= c && c <= '9'
    } else {
        regex_decimal_digit(c)
    }
}

pub fn is_regex_digit(c: char) -> (r: bool)
    ensures
        r == regex_digit(c),
{
    if (c as u32) < 128 {
        '0' <= c && c <= '9'
    } else {
        unicode_digit(c)
    }
}

pub proof fn lemma_utf8_len(s: Seq<char>)
    ensures
        vstd::utf8::encode_utf8(s).len() >= s.len(),
        vstd::utf8::encode_utf8(s).len() <= 4 * s.len(),
    decreases s.len(),
{
    if s.len() > 0 {
        lemma_utf8_len(s.drop_first());
    }
}

/// Character classes that the line format splits on.
pub enum Class {
    Newline,
    Hash,
    Space,
    Semicolon,
}

pub open spec fn in_class(c: char, k: Class) -> bool {
    match k {
        Class::Newline => c == '\n',
        Class::Hash => c == '#',
        Class::Space => is_space(c),
        Class::Semicolon => c == ';',
    }
}

/// Index of the first character of class `k`, or the length.
pub open spec fn find(s: Seq<char>, k: Class) -> int
    decreases s.len(),
{
    if s.len() == 0 {
        0
    } else if in_class(s[0], k) {
        0
    } else {
        1 + find(s.drop_first(), k)
    }
}

pub proof fn lemma_find_bounds(s: Seq<char>, k: Class)
    ensures
        0 <= find(s, k) <= s.len(),
        find(s, k) < s.len() ==> in_class(s[find(s, k)], k),
        forall|j: int| 0 <= j < find(s, k) ==> !in_class(#[trigger] s[j], k),
    decreases s.len(),
{
    if s.len() > 0 && !in_class(s[0], k) {
        let d = s.drop_first();
        lemma_find_bounds(d, k);
        assert forall|j: int| 0 <= j < find(s, k) implies !in_class(#[trigger] s[j], k) by {
            if j > 0 {
                assert(s[j] == d[j - 1]);
            }
        }
    }
}

pub proof fn lemma_find_skip(s: Seq<char>, i: int, k: Class)
    requires
        0 <= i <= s.len(),
        forall|j: int| 0 <= j < i ==> !in_class(#[trigger] s[j], k),
    ensures
        find(s, k) == i + find(s.skip(i), k),
    decreases i,
{
    if i > 0 {
        let d = s.drop_first();
        assert forall|j: int| 0 <= j < i - 1 implies !in_class(#[trigger] d[j], k) by {
            assert(d[j] == s[j + 1]);
        }
        assert(!in_class(s[0], k));
        lemma_find_skip(d, i - 1, k);
        assert(d.skip(i - 1) =~= s.skip(i));
    } else {
        assert(s.skip(0) =~= s);
    }
}

pub fn class_of(c: char, k: &Class) -> (r: bool)
    ensures
        r == in_class(c, *k),
{
    match k {
        Class::Newline => c == '\n',
        Class::Hash => c == '#',
        Class::Space => space(c),
        Class::Semicolon => c == ';',
    }
}

/// Index of the first character of class `k` in `v[from..to]`, or `to`.
pub fn find_in(v: &Vec<char>, from: usize, to: usize, k: &Class) -> (r: usize)
    requires
        from <= to <= v.len(),
    ensures
        from <= r <= to,
        r - from == find(v@.subrange(from as int, to as int), *k),
{
    let mut i = from;
    while i < to && !class_of(v[i], k)
        invariant
            from <= i <= to <= v.len(),
            forall|j: int| from <= j < i ==> !in_class(#[trigger] v@[j], *k),
        decreases to - i,
    {
        i += 1;
    }
    proof {
        let b = v@.subrange(from as int, to as int);
        assert forall|j: int| 0 <= j < i - from implies !in_class(#[trigger] b[j], *k) by {
            assert(b[j] == v@[from + j]);
        }
        lemma_find_skip(b, i - from, *k);
        if i < to {
            assert(b.skip(i - from)[0] == v@[i as int]);
        }
    }
    i
}

/// A copy of `v[from..to]`.
pub fn slice_of(v: &Vec<char>, from: usize, to: usize) -> (r: Vec<char>)
    requires
        from <= to <= v.len(),
    ensures
        r@ == v@.subrange(from as int, to as int),
{
    let mut r: Vec<char> = Vec::new();
    let mut i = from;
    while i < to
        invariant
            from <= i <= to <= v.len(),
            r@ == v@.subrange(from as int, i as int),
        decreases to - i,
    {
        r.push(v[i]);
        i += 1;
        assert(r@ =~= v@.subrange(from as int, i as int));
    }
    r
}

/// Leading byte-order marks removed, as `trim_start_matches('\u{feff}')`.
pub open spec fn strip_bom(s: Seq<char>) -> Seq<char>
    decreases s.len(),
{
    if s.len() > 0 && s[0] == '\u{feff}' {
        strip_bom(s.drop_first())
    } else {
        s
    }
}

pub open spec fn drop_cr(s: Seq<char>) -> Seq<char> {
    if s.len() > 0 && s.last() == '\r' {
        s.drop_last()
    } else {
        s
    }
}

/// The lines of a text as `str::lines` yields them: split after each `\n`,
/// the `\n` and one `\r` before it removed, no line after a final `\n`; a
/// last line without `\n` is kept whole, a final `\r` included.
pub open spec fn lines_of(s: Seq<char>) -> Seq<Seq<char>>
    decreases s.len(),
{
    if s.len() == 0 {
        Seq::empty()
    } else {
        let e = find(s, Class::Newline);
        proof {
            lemma_find_bounds(s, Class::Newline);
        }
        if e < s.len() {
            seq![drop_cr(s.take(e))] + lines_of(s.skip(e + 1))
        } else {
            seq![s]
        }
    }
}

pub open spec fn trim_start(s: Seq<char>) -> Seq<char>
    decreases s.len(),
{
    if s.len() > 0 && is_space(s[0]) {
        trim_start(s.drop_first())
    } else {
        s
    }
}

pub open spec fn trim_end(s: Seq<char>) -> Seq<char>
    decreases s.len(),
{
    if s.len() > 0 && is_space(s.last()) {
        trim_end(s.drop_last())
    } else {
        s
    }
}

/// Whitespace removed at both ends, as `str::trim`.
pub open spec fn trim(s: Seq<char>) -> Seq<char> {
    trim_end(trim_start(s))
}

/// Whitespace-separated words, as `str::split_whitespace`.
pub open spec fn words(s: Seq<char>) -> Seq<Seq<char>>
    decreases s.len(),
{
    let t = trim_start(s);
    if t.len() == 0 {
        Seq::empty()
    } else {
        let w = t.take(find(t, Class::Space));
        proof {
            lemma_trim_start_len(s);
            lemma_find_bounds(t, Class::Space);
        }
        seq![w] + words(t.skip(w.len() as int))
    }
}

pub proof fn lemma_trim_start_len(s: Seq<char>)
    ensures
        trim_start(s).len() <= s.len(),
        trim_start(s) == s.skip(s.len() - trim_start(s).len()),
        trim_start(s).len() > 0 ==> !is_space(trim_start(s)[0]),
        forall|j: int| 0 <= j < s.len() - trim_start(s).len() ==> is_space(#[trigger] s[j]),
    decreases s.len(),
{
    if s.len() > 0 && is_space(s[0]) {
        let d = s.drop_first();
        lemma_trim_start_len(d);
        assert(d.skip(d.len() - trim_start(d).len()) =~= s.skip(s.len() - trim_start(d).len()));
        assert forall|j: int| 0 <= j < s.len() - trim_start(s).len() implies is_space(
            #[trigger] s[j],
        ) by {
            if j > 0 {
                assert(s[j] == d[j - 1]);
            }
        }
    } else {
        assert(s.skip(0) =~= s);
    }
}

pub proof fn lemma_trim_end_len(s: Seq<char>)
    ensures
        trim_end(s).len() <= s.len(),
    decreases s.len(),
{
    if s.len() > 0 && is_space(s.last()) {
        lemma_trim_end_len(s.drop_last());
    }
}

pub proof fn lemma_trim_len(s: Seq<char>)
    ensures
        trim(s).len() <= s.len(),
{
    lemma_trim_start_len(s);
    lemma_trim_end_len(trim_start(s));
}

pub proof fn lemma_trim_start_skip(s: Seq<char>, i: int)
    requires
        0 <= i <= s.len(),
        forall|j: int| 0 <= j < i ==> is_space(#[trigger] s[j]),
        i == s.len() || !is_space(s[i]),
    ensures
        trim_start(s) == s.skip(i),
    decreases i,
{
    if i > 0 {
        let d = s.drop_first();
        assert forall|j: int| 0 <= j < i - 1 implies is_space(#[trigger] d[j]) by {
            assert(d[j] == s[j + 1]);
        }
        assert(is_space(s[0]));
        if i < s.len() {
            assert(d[i - 1] == s[i]);
        }
        lemma_trim_start_skip(d, i - 1);
        assert(d.skip(i - 1) =~= s.skip(i));
    } else {
        assert(s.skip(0) =~= s);
    }
}

pub proof fn lemma_trim_end_take(s: Seq<char>, i: int)
    requires
        0 <= i <= s.len(),
        forall|j: int| i <= j < s.len() ==> is_space(#[trigger] s[j]),
        i == 0 || !is_space(s[i - 1]),
    ensures
        trim_end(s) == s.take(i),
    decreases s.len() - i,
{
    if i < s.len() {
        let d = s.drop_last();
        assert(is_space(s.last()));
        assert forall|j: int| i <= j < d.len() implies is_space(#[trigger] d[j]) by {
            assert(d[j] == s[j]);
        }
        if i > 0 {
            assert(d[i - 1] == s[i - 1]);
        }
        lemma_trim_end_take(d, i);
        assert(d.take(i) =~= s.take(i));
    } else {
        assert(s.take(i) =~= s);
    }
}

/// `v[from..to]` with whitespace removed at both ends.
pub fn trimmed(v: &Vec<char>, from: usize, to: usize) -> (r: Vec<char>)
    requires
        from <= to <= v.len(),
    ensures
        r@ == trim(v@.subrange(from as int, to as int)),
{
    let mut a = from;
    while a < to && space(v[a])
        invariant
            from <= a <= to <= v.len(),
            forall|j: int| from <= j < a ==> is_space(#[trigger] v@[j]),
        decreases to - a,
    {
        a += 1;
    }
    let mut b = to;
    while b > a && space(v[b - 1])
        invariant
            from <= a <= b <= to <= v.len(),
            forall|j: int| b <= j < to ==> is_space(#[trigger] v@[j]),
        decreases b - a,
    {
        b -= 1;
    }
    proof {
        let s = v@.subrange(from as int, to as int);
        assert forall|j: int| 0 <= j < a - from implies is_space(#[trigger] s[j]) by {
            assert(s[j] == v@[from + j]);
        }
        if a < to {
            assert(s[a - from] == v@[a as int]);
        }
        lemma_trim_start_skip(s, a - from);
        let t = s.skip(a - from);
        assert(t =~= v@.subrange(a as int, to as int));
        assert forall|j: int| b - a <= j < t.len() implies is_space(#[trigger] t[j]) by {
            assert(t[j] == v@[a + j]);
        }
        if b > a {
            assert(t[b - a - 1] == v@[b - 1]);
        }
        lemma_trim_end_take(t, b - a);
        assert(t.take(b - a) =~= v@.subrange(a as int, b as int));
    }
    slice_of(v, a, b)
}

pub proof fn lemma_words_step(s: Seq<char>, j: int, k: int)
    requires
        0 <= j < k <= s.len(),
        forall|x: int| 0 <= x < j ==> is_space(#[trigger] s[x]),
        !is_space(s[j]),
        forall|x: int| j <= x < k ==> !is_space(#[trigger] s[x]),
        k == s.len() || is_space(s[k]),
    ensures
        words(s) == seq![s.subrange(j, k)] + words(s.skip(k)),
{
    lemma_trim_start_skip(s, j);
    let t = s.skip(j);
    assert forall|x: int| 0 <= x < k - j implies !in_class(#[trigger] t[x], Class::Space) by {
        assert(t[x] == s[j + x]);
    }
    lemma_find_skip(t, k - j, Class::Space);
    if k < s.len() {
        assert(t.skip(k - j)[0] == s[k]);
    }
    assert(find(t, Class::Space) == k - j);
    assert(t.take(k - j) =~= s.subrange(j, k));
    assert(t.skip(k - j) =~= s.skip(k));
}

pub proof fn lemma_words_blank(s: Seq<char>)
    requires
        forall|x: int| 0 <= x < s.len() ==> is_space(#[trigger] s[x]),
    ensures
        words(s) == Seq::<Seq<char>>::empty(),
{
    lemma_trim_start_skip(s, s.len() as int);
}

pub proof fn lemma_words_len(s: Seq<char>)
    ensures
        forall|i: int| 0 <= i < words(s).len() ==> (#[trigger] words(s)[i]).len() <= s.len(),
    decreases s.len(),
{
    let t = trim_start(s);
    lemma_trim_start_len(s);
    if t.len() > 0 {
        lemma_find_bounds(t, Class::Space);
        let w = t.take(find(t, Class::Space));
        let rest = t.skip(w.len() as int);
        lemma_words_len(rest);
        assert forall|i: int| 0 <= i < words(s).len() implies (#[trigger] words(s)[i]).len()
            <= s.len() by {
            if i > 0 {
                assert(words(s)[i] == words(rest)[i - 1]);
            }
        }
    }
}

pub open spec fn views(v: Seq<Vec<char>>) -> Seq<Seq<char>> {
    v.map_values(|w: Vec<char>| w@)
}

/// The words of `v`.
pub fn split_words(v: &Vec<char>) -> (r: Vec<Vec<char>>)
    ensures
        views(r@) == words(v@),
{
    let mut r: Vec<Vec<char>> = Vec::new();
    let mut i: usize = 0;
    assert(v@.skip(0) =~= v@);
    while i < v.len()
        invariant
            i <= v.len(),
            words(v@) == views(r@) + words(v@.skip(i as int)),
        decreases v.len() - i,
    {
        let ghost s = v@.skip(i as int);
        let mut j = i;
        while j < v.len() && space(v[j])
            invariant
                i <= j <= v.len(),
                forall|x: int| i <= x < j ==> is_space(#[trigger] v@[x]),
            decreases v.len() - j,
        {
            j += 1;
        }
        if j == v.len() {
            proof {
                assert forall|x: int| 0 <= x < s.len() implies is_space(#[trigger] s[x]) by {
                    assert(s[x] == v@[i + x]);
                }
                lemma_words_blank(s);
                assert(views(r@) + Seq::<Seq<char>>::empty() =~= views(r@));
                assert(v@.skip(j as int) =~= Seq::<char>::empty());
            }
            i = j;
        } else {
            let mut k = j;
            while k < v.len() && !space(v[k])
                invariant
                    j <= k <= v.len(),
                    forall|x: int| j <= x < k ==> !is_space(#[trigger] v@[x]),
                decreases v.len() - k,
            {
                k += 1;
            }
            let w = slice_of(v, j, k);
            proof {
                assert forall|x: int| 0 <= x < j - i implies is_space(#[trigger] s[x]) by {
                    assert(s[x] == v@[i + x]);
                }
                assert forall|x: int| j - i <= x < k - i implies !is_space(#[trigger] s[x]) by {
                    assert(s[x] == v@[i + x]);
                }
                assert(s[j - i] == v@[j as int]);
                if k < v.len() {
                    assert(s[k - i] == v@[k as int]);
                }
                lemma_words_step(s, j - i, k - i);
                assert(s.subrange(j - i, k - i) =~= w@);
                assert(s.skip(k - i) =~= v@.skip(k as int));
            }
            let ghost old_r = r@;
            r.push(w);
            proof {
                assert(views(r@) =~= views(old_r).push(w@));
                assert(views(r@) + words(v@.skip(k as int)) =~= views(old_r) + (seq![w@] + words(
                    v@.skip(k as int),
                )));
            }
            i = k;
        }
    }
    proof {
        assert(v@.skip(i as int) =~= Seq::<char>::empty());
        assert(words(Seq::<char>::empty()) =~= Seq::<Seq<char>>::empty());
        assert(views(r@) + Seq::<Seq<char>>::empty() =~= views(r@));
    }
    r
}


// ---------------------------------------------------------------------------
// Lemmas on texts made of lines and of words
// ---------------------------------------------------------------------------
pub open spec fn free_of(s: Seq<char>, k: Class) -> bool {
    forall|i: int| 0 <= i < s.len() ==> !in_class(#[trigger] s[i], k)
}

pub proof fn lemma_find_none(s: Seq<char>, k: Class)
    requires
        free_of(s, k),
    ensures
        find(s, k) == s.len(),
{
    lemma_find_skip(s, s.len() as int, k);
    assert(s.skip(s.len() as int) =~= Seq::<char>::empty());
}

/// A text that ends with a newline splits into its own lines and the rest's.
pub proof fn lemma_lines_concat(a: Seq<char>, b: Seq<char>)
    requires
        a.len() == 0 || a.last() == '\n',
    ensures
        lines_of(a + b) == lines_of(a) + lines_of(b),
    decreases a.len(),
{
    if a.len() == 0 {
        assert(a + b =~= b);
        assert(lines_of(a) =~= Seq::<Seq<char>>::empty());
        assert(Seq::<Seq<char>>::empty() + lines_of(b) =~= lines_of(b));
    } else {
        let s = a + b;
        let e = find(a, Class::Newline);
        lemma_find_bounds(a, Class::Newline);
        assert(in_class(a[a.len() - 1], Class::Newline));
        assert(e < a.len());
        assert forall|j: int| 0 <= j < e implies !in_class(#[trigger] s[j], Class::Newline) by {
            assert(s[j] == a[j]);
        }
        lemma_find_skip(s, e, Class::Newline);
        assert(s.skip(e)[0] == a[e]);
        assert(find(s, Class::Newline) == e);
        assert(s.take(e) =~= a.take(e));
        let a2 = a.skip(e + 1);
        assert(s.skip(e + 1) =~= a2 + b);
        if a2.len() > 0 {
            assert(a2.last() == a.last());
        }
        lemma_lines_concat(a2, b);
        assert(lines_of(a) == seq![drop_cr(a.take(e))] + lines_of(a2));
        assert(lines_of(s) == seq![drop_cr(a.take(e))] + lines_of(a2 + b));
        assert(seq![drop_cr(a.take(e))] + (lines_of(a2) + lines_of(b)) =~= (seq![drop_cr(a.take(e))]
            + lines_of(a2)) + lines_of(b));
    }
}

/// A line without newline, followed by one, is a single line.
pub proof fn lemma_one_line(x: Seq<char>)
    requires
        free_of(x, Class::Newline),
        x.len() == 0 || x.last() != '\r',
    ensures
        lines_of(x + seq!['\n']) == seq![x],
{
    let s = x + seq!['\n'];
    assert forall|j: int| 0 <= j < x.len() implies !in_class(#[trigger] s[j], Class::Newline) by {
        assert(s[j] == x[j]);
    }
    lemma_find_skip(s, x.len() as int, Class::Newline);
    assert(s.skip(x.len() as int)[0] == '\n');
    assert(s.take(x.len() as int) =~= x);
    assert(s.skip(x.len() as int + 1) =~= Seq::<char>::empty());
    assert(lines_of(Seq::<char>::empty()) =~= Seq::<Seq<char>>::empty());
    assert(seq![x] + Seq::<Seq<char>>::empty() =~= seq![x]);
}

/// Words joined by single spaces.
pub open spec fn spaced(ws: Seq<Seq<char>>) -> Seq<char>
    decreases ws.len(),
{
    if ws.len() == 0 {
        Seq::empty()
    } else if ws.len() == 1 {
        ws[0]
    } else {
        ws[0] + seq![' '] + spaced(ws.drop_first())
    }
}

pub open spec fn plain_word(w: Seq<char>) -> bool {
    w.len() > 0 && free_of(w, Class::Space)
}

pub open spec fn plain_words(ws: Seq<Seq<char>>) -> bool {
    forall|i: int| 0 <= i < ws.len() ==> plain_word(#[trigger] ws[i])
}

pub proof fn lemma_words_leading_space(r: Seq<char>)
    ensures
        words(seq![' '] + r) == words(r),
{
    let s = seq![' '] + r;
    assert(is_space(s[0]));
    assert(s.drop_first() =~= r);
    assert(trim_start(s) == trim_start(r));
}

pub proof fn lemma_words_spaced(ws: Seq<Seq<char>>)
    requires
        plain_words(ws),
    ensures
        words(spaced(ws)) == ws,
        spaced(ws).len() >= ws.len(),
    decreases ws.len(),
{
    if ws.len() == 0 {
        lemma_words_blank(Seq::<char>::empty());
        assert(words(Seq::<char>::empty()) =~= ws);
    } else {
        let w = ws[0];
        assert(plain_word(w));
        let s = spaced(ws);
        let rest = ws.drop_first();
        assert(plain_words(rest)) by {
            assert forall|i: int| 0 <= i < rest.len() implies plain_word(#[trigger] rest[i]) by {
                assert(rest[i] == ws[i + 1]);
            }
        }
        lemma_words_spaced(rest);
        assert forall|x: int| 0 <= x < w.len() implies !is_space(#[trigger] s[x]) by {
            assert(s[x] == w[x]);
            assert(!in_class(w[x], Class::Space));
        }
        if ws.len() == 1 {
            assert(s == w);
            lemma_words_step(s, 0, w.len() as int);
            assert(s.subrange(0, w.len() as int) =~= w);
            assert(s.skip(w.len() as int) =~= Seq::<char>::empty());
            lemma_words_blank(Seq::<char>::empty());
            assert(seq![w] + Seq::<Seq<char>>::empty() =~= ws);
        } else {
            assert(s == w + seq![' '] + spaced(rest));
            assert(s[w.len() as int] == ' ');
            lemma_words_step(s, 0, w.len() as int);
            assert(s.subrange(0, w.len() as int) =~= w);
            assert(s.skip(w.len() as int) =~= seq![' '] + spaced(rest));
            lemma_words_leading_space(spaced(rest));
            assert(seq![w] + rest =~= ws);
        }
    }
}

pub proof fn lemma_trim_plain(s: Seq<char>)
    requires
        s.len() > 0,
        !is_space(s[0]),
        !is_space(s.last()),
    ensures
        trim(s) == s,
{
    lemma_trim_start_skip(s, 0);
    assert(s.skip(0) =~= s);
    lemma_trim_end_take(s, s.len() as int);
    assert(s.take(s.len() as int) =~= s);
}

pub proof fn lemma_spaced_ends(ws: Seq<Seq<char>>)
    requires
        plain_words(ws),
        ws.len() > 0,
    ensures
        spaced(ws).len() > 0,
        spaced(ws)[0] == ws[0][0],
        spaced(ws).last() == ws.last().last(),
    decreases ws.len(),
{
    assert(plain_word(ws[0]));
    if ws.len() > 1 {
        let rest = ws.drop_first();
        assert(plain_words(rest)) by {
            assert forall|i: int| 0 <= i < rest.len() implies plain_word(#[trigger] rest[i]) by {
                assert(rest[i] == ws[i + 1]);
            }
        }
        lemma_spaced_ends(rest);
        assert(rest.last() == ws.last());
    }
}

/// Characters of a spaced text are its words' characters and spaces.
pub proof fn lemma_spaced_free(ws: Seq<Seq<char>>, k: Class)
    requires
        forall|i: int| 0 <= i < ws.len() ==> free_of(#[trigger] ws[i], k),
        !in_class(' ', k),
    ensures
        free_of(spaced(ws), k),
    decreases ws.len(),
{
    if ws.len() > 1 {
        let rest = ws.drop_first();
        assert forall|i: int| 0 <= i < rest.len() implies free_of(#[trigger] rest[i], k) by {
            assert(rest[i] == ws[i + 1]);
        }
        lemma_spaced_free(rest, k);
        let s = spaced(ws);
        assert(free_of(ws[0], k));
        assert forall|i: int| 0 <= i < s.len() implies !in_class(#[trigger] s[i], k) by {
            let w = ws[0];
            if i < w.len() {
                assert(s[i] == w[i]);
            } else if i == w.len() {
                assert(s[i] == ' ');
            } else {
                assert(s[i] == spaced(rest)[i - w.len() - 1]);
            }
        }
    } else if ws.len() == 1 {
        assert(free_of(ws[0], k));
    }
}

pub proof fn lemma_spaced_push(ws: Seq<Seq<char>>, w: Seq<char>)
    requires
        ws.len() > 0,
    ensures
        spaced(ws.push(w)) == spaced(ws) + seq![' '] + w,
    decreases ws.len(),
{
    let s = ws.push(w);
    if ws.len() == 1 {
        assert(s.drop_first() =~= seq![w]);
        assert(s[0] == ws[0]);
        assert(spaced(seq![w]) == w);
        assert(spaced(ws) == ws[0]);
        assert(spaced(s) == ws[0] + seq![' '] + w);
    } else {
        assert(s.drop_first() =~= ws.drop_first().push(w));
        lemma_spaced_push(ws.drop_first(), w);
        assert(s[0] == ws[0]);
        let r = spaced(ws.drop_first());
        assert(spaced(s) == ws[0] + seq![' '] + (r + seq![' '] + w));
        assert(spaced(ws) == ws[0] + seq![' '] + r);
        assert(ws[0] + seq![' '] + (r + seq![' '] + w) =~= ws[0] + seq![' '] + r + seq![' '] + w);
    }
}


} // verus!
