//! What the application reads out of Windows data: the effect class IDs
//! listed for an audio endpoint, whether a class is Equalizer APO, and the
//! account SIDs that the access helper works with. The registry and process
//! calls themselves stay with the application.

use vstd::prelude::*;
use crate::apo::is_hex;
use crate::decimal::{ascii_ci_eq, lower, lower_char};
use crate::text::{chars_of, is_regex_digit, regex_digit, slice_of, string_of};

verus! {

pub open spec fn guid_char(c: char) -> bool {
    is_hex(c) || c == '-'
}

/// A braced class ID starts at `i`: `{`, 36 hexadecimal digits or hyphens,
/// `}`.
pub open spec fn guid_at(s: Seq<char>, i: int) -> bool {
    &&& 0 <= i
    &&& i + 38 <= s.len()
    &&& s[i] == '{'
    &&& s[i + 37] == '}'
    &&& forall|j: int| i + 1 <= j < i + 37 ==> guid_char(#[trigger] s[j])
}

/// The braced class IDs in a text from position `i` on, left to right,
/// without overlaps.
pub open spec fn guids_from(s: Seq<char>, i: int) -> Seq<Seq<char>>
    decreases s.len() - i,
{
    if i < 0 || i >= s.len() {
        Seq::empty()
    } else if guid_at(s, i) {
        seq![s.subrange(i, i + 38)] + guids_from(s, i + 38)
    } else {
        guids_from(s, i + 1)
    }
}

fn guid_starts(v: &Vec<char>, i: usize) -> (r: bool)
    requires
        i < v.len(),
    ensures
        r == guid_at(v@, i as int),
{
    if v.len() - i < 38 || v[i] != '{' || v[i + 37] != '}' {
        return false;
    }
    let mut j: usize = i + 1;
    while j < i + 37
        invariant
            i + 38 <= v.len(),
            i + 1 <= j <= i + 37,
            forall|k: int| i + 1 <= k < j ==> guid_char(#[trigger] v@[k]),
        decreases i + 37 - j,
    {
        let c = v[j];
        if !(('0' <= c && c <= '9') || ('a' <= c && c <= 'f') || ('A' <= c && c <= 'F') || c == '-') {
            return false;
        }
        j += 1;
    }
    true
}

pub open spec fn texts(v: Seq<String>) -> Seq<Seq<char>> {
    v.map_values(|s: String| s@)
}

/// The class IDs named in the value of an endpoint's effect property.
pub fn class_ids(s: &str) -> (r: Vec<String>)
    ensures
        texts(r@) == guids_from(s@, 0),
{
    let v = chars_of(s);
    let mut out: Vec<String> = Vec::new();
    let mut i: usize = 0;
    while i < v.len()
        invariant
            v@ == s@,
            i <= v.len() + 38,
            texts(out@) + guids_from(v@, i as int) == guids_from(v@, 0),
        decreases v.len() + 38 - i,
    {
        if guid_starts(&v, i) {
            let g = slice_of(&v, i, i + 38);
            let ghost prior = texts(out@);
            out.push(string_of(g.as_slice()));
            assert(texts(out@) =~= prior + seq![v@.subrange(i as int, i + 38)]);
            assert(texts(out@) + guids_from(v@, i + 38) =~= prior + guids_from(v@, i as int));
            i += 38;
        } else {
            i += 1;
        }
    }
    assert(guids_from(v@, i as int) == Seq::<Seq<char>>::empty());
    assert(texts(out@) =~= texts(out@) + Seq::<Seq<char>>::empty());
    out
}

/// A COM server path is Equalizer APO's when it names `equalizerapo`,
/// ignoring ASCII case.
pub open spec fn names_apo(path: Seq<char>) -> bool {
    exists|i: int| 0 <= i && i + 12 <= path.len() && ascii_ci_eq(#[trigger] path.subrange(i, i + 12), "equalizerapo"@)
}

pub fn is_apo_server(path: &str) -> (r: bool)
    ensures
        r == names_apo(path@),
{
    let v = chars_of(path);
    let w: [char; 12] = ['e', 'q', 'u', 'a', 'l', 'i', 'z', 'e', 'r', 'a', 'p', 'o'];
    proof {
        reveal_strlit("equalizerapo");
        assert(w@ =~= "equalizerapo"@);
    }
    if v.len() < 12 {
        assert(!names_apo(path@));
        return false;
    }
    let mut i: usize = 0;
    while i <= v.len() - 12
        invariant
            v@ == path@,
            w@ == "equalizerapo"@,
            v.len() >= 12,
            i <= v.len() - 11,
            forall|k: int| 0 <= k < i ==> !ascii_ci_eq(#[trigger] v@.subrange(k, k + 12), w@),
        decreases v.len() - i,
    {
        let mut j: usize = 0;
        let mut same = true;
        while j < 12
            invariant
                i + 12 <= v.len(),
                j <= 12,
                same == forall|k: int| 0 <= k < j ==> lower(#[trigger] v@[i + k]) == lower(w@[k]),
            decreases 12 - j,
        {
            if lower_char(v[i + j]) != lower_char(w[j]) {
                same = false;
            }
            j += 1;
        }
        proof {
            let sub = v@.subrange(i as int, i + 12);
            assert forall|k: int| 0 <= k < 12 implies #[trigger] sub[k] == v@[i + k] by {}
            if !same {
                let k0 = choose|k: int| 0 <= k < 12 && !(lower(#[trigger] v@[i + k]) == lower(w@[k]));
                assert(sub[k0] == v@[i + k0]);
                assert(!ascii_ci_eq(sub, w@));
            } else {
                assert(ascii_ci_eq(sub, w@));
            }
        }
        if same {
            return true;
        }
        i += 1;
    }
    assert(!names_apo(path@)) by {
        if names_apo(path@) {
            let k = choose|k: int| 0 <= k && k + 12 <= path@.len() && ascii_ci_eq(#[trigger] path@.subrange(k, k + 12), "equalizerapo"@);
            assert(k < i);
        }
    }
    false
}

// ---------------------------------------------------------------------------
// Account SIDs
// ---------------------------------------------------------------------------
pub open spec fn sid_prefix() -> Seq<char> {
    "S-1-5-21-"@
}

/// Digits and hyphens of the four number groups of an account SID.
pub open spec fn groups_ok(g: Seq<char>, n: int) -> bool
    decreases g.len(),
{
    if g.len() == 0 {
        false
    } else {
        let first_dash = exists|i: int| 0 <= i < g.len() && g[i] == '-';
        if !first_dash {
            n == 1 && forall|i: int| 0 <= i < g.len() ==> regex_digit(#[trigger] g[i])
        } else {
            let d = choose|i: int| 0 <= i < g.len() && g[i] == '-' && forall|j: int| 0 <= j < i ==> g[j] != '-';
            d > 0 && n > 1 && (forall|j: int| 0 <= j < d ==> regex_digit(#[trigger] g[j])) && groups_ok(
                g.skip(d + 1),
                n - 1,
            )
        }
    }
}

/// A domain account SID: `S-1-5-21-` and four groups of digits.
pub open spec fn is_account_sid(s: Seq<char>) -> bool {
    s.len() > 9 && s.take(9) == sid_prefix() && groups_ok(s.skip(9), 4)
}

fn sid_prefixed(v: &Vec<char>) -> (r: bool)
    requires
        v.len() > 9,
    ensures
        r == (v@.take(9) == sid_prefix()),
{
    let p: [char; 9] = ['S', '-', '1', '-', '5', '-', '2', '1', '-'];
    proof {
        reveal_strlit("S-1-5-21-");
    }
    assert(p@ =~= sid_prefix());
    let mut i: usize = 0;
    while i < 9
        invariant
            v.len() > 9,
            i <= 9,
            p@ == sid_prefix(),
            forall|k: int| 0 <= k < i ==> v@[k] == #[trigger] p@[k],
        decreases 9 - i,
    {
        if v[i] != p[i] {
            assert(v@.take(9)[i as int] != p@[i as int]);
            return false;
        }
        i += 1;
    }
    assert(v@.take(9) =~= p@);
    true
}

/// Checks the account SID handed to the access helper. A digit is what `\d`
/// matches.
pub fn account_sid(s: &str) -> (r: bool)
    ensures
        r == is_account_sid(s@),
{
    let v = chars_of(s);
    if v.len() <= 9 || !sid_prefixed(&v) {
        return false;
    }
    let rest = slice_of(&v, 9, v.len());
    assert(rest@.skip(0) =~= s@.skip(9));
    groups(&rest, 0, 4)
}

fn groups(g: &Vec<char>, from: usize, n: usize) -> (r: bool)
    requires
        from <= g.len(),
        n <= 4,
    ensures
        r == groups_ok(g@.skip(from as int), n as int),
    decreases g.len() - from,
{
    let ghost t = g@.skip(from as int);
    if from == g.len() {
        return false;
    }
    let mut i: usize = from;
    while i < g.len() && g[i] != '-'
        invariant
            from <= i <= g.len(),
            t == g@.skip(from as int),
            forall|j: int| from <= j < i ==> g@[j] != '-',
        decreases g.len() - i,
    {
        i += 1;
    }
    let mut k: usize = from;
    while k < i && digit(g[k])
        invariant
            from <= k <= i,
            i <= g.len(),
            forall|j: int| from <= j < k ==> regex_digit(#[trigger] g@[j]),
        decreases i - k,
    {
        k += 1;
    }
    let all_digits = k == i;
    proof {
        assert forall|j: int| 0 <= j < i - from implies #[trigger] t[j] == g@[from + j] by {}
    }
    if i == g.len() {
        proof {
            assert(!exists|x: int| 0 <= x < t.len() && t[x] == '-') by {
                if exists|x: int| 0 <= x < t.len() && t[x] == '-' {
                    let x = choose|x: int| 0 <= x < t.len() && t[x] == '-';
                    assert(g@[from + x] == '-');
                }
            }
            if !all_digits {
                assert(!regex_digit(t[k - from]));
            }
        }
        return n == 1 && all_digits;
    }
    let d = i - from;
    proof {
        assert(t[d as int] == '-');
        let c = choose|x: int| 0 <= x < t.len() && t[x] == '-' && forall|j: int| 0 <= j < x ==> t[j] != '-';
        if c < d {
            assert(g@[from + c] != '-');
        } else if c > d {
            assert(t[d as int] != '-');
        }
        assert(t.skip(d + 1) =~= g@.skip(i + 1));
        if !all_digits {
            assert(!regex_digit(t[k - from]));
        }
    }
    if d == 0 || n <= 1 || !all_digits {
        return false;
    }
    groups(g, i + 1, n - 1)
}

fn digit(c: char) -> (r: bool)
    ensures
        r == regex_digit(c),
{
    is_regex_digit(c)
}

/// Where the run of digits starting at `p` ends.
pub open spec fn digits_end(s: Seq<char>, p: int) -> int
    decreases s.len() - p,
{
    if 0 <= p < s.len() && regex_digit(s[p]) {
        digits_end(s, p + 1)
    } else {
        p
    }
}

/// After a group of digits ending at `e` that started at `p`, a hyphen
/// starts the next group.
pub open spec fn group_then_dash(s: Seq<char>, p: int, e: int) -> bool {
    e > p && e < s.len() && s[e] == '-'
}

/// Where an account SID that starts at `i` ends: `S-1-5-21-` and four
/// groups of digits, the last one as long as it goes.
pub open spec fn sid_end(s: Seq<char>, i: int) -> Option<int> {
    if !(0 <= i && i + 9 <= s.len() && s.subrange(i, i + 9) == sid_prefix()) {
        None
    } else {
        let p1 = i + 9;
        let e1 = digits_end(s, p1);
        let e2 = digits_end(s, e1 + 1);
        let e3 = digits_end(s, e2 + 1);
        let e4 = digits_end(s, e3 + 1);
        if group_then_dash(s, p1, e1) && group_then_dash(s, e1 + 1, e2) && group_then_dash(
            s,
            e2 + 1,
            e3,
        ) && e4 > e3 + 1 {
            Some(e4)
        } else {
            None
        }
    }
}

/// The leftmost account SID in a text from position `i` on.
pub open spec fn first_sid(s: Seq<char>, i: int) -> Option<Seq<char>>
    decreases s.len() - i,
{
    if i < 0 || i >= s.len() {
        None
    } else if sid_end(s, i) is Some {
        Some(s.subrange(i, sid_end(s, i)->0))
    } else {
        first_sid(s, i + 1)
    }
}

fn skip_digits(v: &Vec<char>, p: usize) -> (e: usize)
    requires
        p <= v.len(),
    ensures
        e as int == digits_end(v@, p as int),
        p <= e <= v.len(),
    decreases v.len() - p,
{
    if p < v.len() && digit(v[p]) {
        skip_digits(v, p + 1)
    } else {
        p
    }
}

fn prefix_at(v: &Vec<char>, i: usize) -> (r: bool)
    requires
        i < v.len(),
    ensures
        r == (i + 9 <= v.len() && v@.subrange(i as int, i + 9) == sid_prefix()),
{
    if v.len() - i < 9 {
        return false;
    }
    let p: [char; 9] = ['S', '-', '1', '-', '5', '-', '2', '1', '-'];
    proof {
        reveal_strlit("S-1-5-21-");
    }
    assert(p@ =~= sid_prefix());
    let mut k: usize = 0;
    while k < 9
        invariant
            i + 9 <= v.len(),
            k <= 9,
            p@ == sid_prefix(),
            forall|j: int| 0 <= j < k ==> v@[i + j] == #[trigger] p@[j],
        decreases 9 - k,
    {
        if v[i + k] != p[k] {
            assert(v@.subrange(i as int, i + 9)[k as int] != p@[k as int]);
            return false;
        }
        k += 1;
    }
    assert(v@.subrange(i as int, i + 9) =~= p@);
    true
}

fn sid_end_at(v: &Vec<char>, i: usize) -> (r: Option<usize>)
    requires
        i < v.len(),
    ensures
        match r {
            Some(e) => sid_end(v@, i as int) == Some(e as int) && e <= v.len(),
            None => sid_end(v@, i as int) is None,
        },
{
    if !prefix_at(v, i) {
        return None;
    }
    let p1 = i + 9;
    let e1 = skip_digits(v, p1);
    if !(e1 > p1 && e1 < v.len() && v[e1] == '-') {
        return None;
    }
    let e2 = skip_digits(v, e1 + 1);
    if !(e2 > e1 + 1 && e2 < v.len() && v[e2] == '-') {
        return None;
    }
    let e3 = skip_digits(v, e2 + 1);
    if !(e3 > e2 + 1 && e3 < v.len() && v[e3] == '-') {
        return None;
    }
    let e4 = skip_digits(v, e3 + 1);
    if e4 > e3 + 1 {
        Some(e4)
    } else {
        None
    }
}

/// The leftmost domain account SID in a text (such as the output of
/// `whoami /user`).
pub fn find_account_sid(s: &str) -> (r: Option<String>)
    ensures
        match r {
            Some(t) => first_sid(s@, 0) == Some(t@),
            None => first_sid(s@, 0) is None,
        },
{
    let v = chars_of(s);
    let mut i: usize = 0;
    while i < v.len()
        invariant
            v@ == s@,
            i <= v.len(),
            first_sid(v@, 0) == first_sid(v@, i as int),
        decreases v.len() - i,
    {
        match sid_end_at(&v, i) {
            Some(e) => {
                let t = slice_of(&v, i, e);
                return Some(string_of(t.as_slice()));
            },
            None => {},
        }
        i += 1;
    }
    None
}

} // verus!
