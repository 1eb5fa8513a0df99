//! The Equalizer APO preset format: reading presets into profiles, writing
//! profiles back as preset text, and the owned configuration file.
//!
//! A preset is read line by line. Text after `#` is a comment; blank lines
//! are skipped. A line is a `Preamp:` directive, a parametric `Filter`, or one
//! `GraphicEQ:` list; any other directive cancels the import, so nothing of
//! a preset that holds commands is taken.

use vstd::prelude::*;
use vstd::string::StringSliceAdditionalSpecFns;
use crate::decimal::{
    Decimal, LIMIT, format_number, number_text, MAX_TOKEN, ascii_ci_eq, ci_eq_at, is_digit, nat_text,
    number_value, parse_number, push_nat_text, digit,
};
use crate::model::{
    Filter, FilterView, Point, PointView, Profile, ProfileView, filter_views, point_views,
    is_pass_kind, kind_hpq, kind_hsc, kind_lpq, kind_lsc, kind_pk, profile_error, text,
    validate_profile,
};
use crate::ids::{is_uuid_text, new_id};
use crate::text::{
    Class, chars_of, find, find_in, lines_of, string_of, strip_bom, slice_of, split_words, trim,
    trimmed, views, words, spaced, lemma_find_bounds, lemma_words_len, drop_cr, regex_digit, is_regex_digit,
};

verus! {

// ---------------------------------------------------------------------------
// Words of the format
// ---------------------------------------------------------------------------
pub open spec fn w_preamp() -> Seq<char> {
    seq!['p', 'r', 'e', 'a', 'm', 'p', ':']
}

pub open spec fn w_db() -> Seq<char> {
    seq!['d', 'b']
}

pub open spec fn w_filter() -> Seq<char> {
    seq!['f', 'i', 'l', 't', 'e', 'r']
}

pub open spec fn w_on() -> Seq<char> {
    seq!['o', 'n']
}

pub open spec fn w_off() -> Seq<char> {
    seq!['o', 'f', 'f']
}

pub open spec fn w_fc() -> Seq<char> {
    seq!['f', 'c']
}

pub open spec fn w_hz() -> Seq<char> {
    seq!['h', 'z']
}

pub open spec fn w_gain() -> Seq<char> {
    seq!['g', 'a', 'i', 'n']
}

pub open spec fn w_q() -> Seq<char> {
    seq!['q']
}

pub open spec fn w_graphic() -> Seq<char> {
    seq!['g', 'r', 'a', 'p', 'h', 'i', 'c', 'e', 'q', ':']
}

pub open spec fn kind_ls() -> Seq<char> {
    seq!['L', 'S']
}

pub open spec fn kind_hs() -> Seq<char> {
    seq!['H', 'S']
}

pub open spec fn kind_hp() -> Seq<char> {
    seq!['H', 'P']
}

pub open spec fn kind_lp() -> Seq<char> {
    seq!['L', 'P']
}

/// The upper case of a letter that a filter type may hold: the long s is `S`.
pub open spec fn upper(c: char) -> char {
    if 'a' <= c && c <= 'z' {
        ((c as u32) - 32) as char
    } else if c == '\u{17f}' {
        'S'
    } else {
        c
    }
}

pub open spec fn upper_word(w: Seq<char>) -> Seq<char> {
    w.map_values(|c: char| upper(c))
}

/// A letter as case-insensitive matching sees it: the Kelvin sign is a `K`.
pub open spec fn folded(c: char) -> char {
    if c == '\u{212a}' {
        'K'
    } else {
        upper(c)
    }
}

pub open spec fn folded_word(w: Seq<char>) -> Seq<char> {
    w.map_values(|c: char| folded(c))
}

/// The filter types that a `Filter` line may name, short forms included,
/// in any case.
pub open spec fn kind_word(w: Seq<char>) -> bool {
    let u = folded_word(w);
    &&& w.len() <= 3
    &&& (u == kind_pk() || u == kind_lsc() || u == kind_hsc() || u == kind_ls() || u == kind_hs()
        || u == kind_hpq() || u == kind_lpq() || u == kind_hp() || u == kind_lp())
}

/// Short forms stand for the shelf and pass filters.
pub open spec fn canonical_kind(raw: Seq<char>) -> Seq<char> {
    if raw == kind_ls() {
        kind_lsc()
    } else if raw == kind_hs() {
        kind_hsc()
    } else if raw == kind_hp() {
        kind_hpq()
    } else if raw == kind_lp() {
        kind_lpq()
    } else {
        raw
    }
}

/// Full filter names require an explicit Q.
pub open spec fn requires_q(raw: Seq<char>) -> bool {
    raw == kind_pk() || raw == kind_lsc() || raw == kind_hsc() || raw == kind_hpq() || raw
        == kind_lpq()
}

pub open spec fn is_num_char(c: char) -> bool {
    regex_digit(c) || c == '.' || c == 'e' || c == 'E' || c == '+' || c == '-'
}

/// A run of the characters that a number field of a directive may hold.
pub open spec fn num_word(w: Seq<char>) -> bool {
    w.len() >= 1 && forall|i: int| 0 <= i < w.len() ==> is_num_char(#[trigger] w[i])
}

/// `1:`, `12:`: the position of a filter.
pub open spec fn index_word(w: Seq<char>) -> bool {
    w.len() >= 2 && (forall|i: int| 0 <= i < w.len() - 1 ==> regex_digit(#[trigger] w[i])) && w.last()
        == ':'
}

/// The number of a `Preamp:` line, `Preamp: <n> dB` or `Preamp:<n> dB`.
pub open spec fn preamp_token(c: Seq<char>) -> Option<Seq<char>> {
    preamp_words(words(c))
}

pub open spec fn preamp_words(ws: Seq<Seq<char>>) -> Option<Seq<char>> {
    if ws.len() == 3 && ascii_ci_eq(ws[0], w_preamp()) && num_word(ws[1]) && ascii_ci_eq(
        ws[2],
        w_db(),
    ) {
        Some(ws[1])
    } else if ws.len() == 2 && ws[0].len() > 7 && ascii_ci_eq(ws[0].take(7), w_preamp())
        && num_word(ws[0].skip(7)) && ascii_ci_eq(ws[1], w_db()) {
        Some(ws[0].skip(7))
    } else {
        None
    }
}

pub open spec fn gain_at(ws: Seq<Seq<char>>, i: int) -> bool {
    ws.len() >= i + 3 && ascii_ci_eq(ws[i], w_gain()) && num_word(ws[i + 1]) && ascii_ci_eq(
        ws[i + 2],
        w_db(),
    )
}

pub open spec fn q_at(ws: Seq<Seq<char>>, i: int) -> bool {
    ws.len() == i + 2 && ascii_ci_eq(ws[i], w_q()) && num_word(ws[i + 1])
}

/// `Filter <n>: ON|OFF <type> Fc <f> Hz [Gain <g> dB] [Q <q>]`.
pub open spec fn filter_line(ws: Seq<Seq<char>>) -> bool {
    &&& ws.len() >= 7
    &&& ascii_ci_eq(ws[0], w_filter())
    &&& index_word(ws[1])
    &&& (ascii_ci_eq(ws[2], w_on()) || ascii_ci_eq(ws[2], w_off()))
    &&& kind_word(ws[3])
    &&& ascii_ci_eq(ws[4], w_fc())
    &&& num_word(ws[5])
    &&& ascii_ci_eq(ws[6], w_hz())
    &&& (ws.len() == 7 || (gain_at(ws, 7) && (ws.len() == 10 || q_at(ws, 10))) || q_at(ws, 7))
}

pub open spec fn gain_token(ws: Seq<Seq<char>>) -> Option<Seq<char>> {
    if gain_at(ws, 7) {
        Some(ws[8])
    } else {
        None
    }
}

pub open spec fn q_token(ws: Seq<Seq<char>>) -> Option<Seq<char>> {
    if q_at(ws, 7) {
        Some(ws[8])
    } else if q_at(ws, 10) {
        Some(ws[11])
    } else {
        None
    }
}

/// `GraphicEQ:` in any letter case starts a graphic list.
pub open spec fn graphic_line(c: Seq<char>) -> bool {
    c.len() >= 10 && ascii_ci_eq(c.take(10), w_graphic())
}

/// The pieces between `;` separators, as `str::split(';')`.
pub open spec fn pieces(s: Seq<char>) -> Seq<Seq<char>>
    decreases s.len(),
{
    let e = find(s, Class::Semicolon);
    proof {
        lemma_find_bounds(s, Class::Semicolon);
    }
    if e < s.len() {
        seq![s.take(e)] + pieces(s.skip(e + 1))
    } else {
        seq![s]
    }
}

/// Q of a filter line that names none: 1/sqrt(2), as `{}` prints it.
pub open spec fn default_q() -> int {
    707_106_781_186_547_600
}

// ---------------------------------------------------------------------------
// Messages
// ---------------------------------------------------------------------------
pub open spec fn line_error(no: nat, msg: Seq<char>) -> Seq<char> {
    "Line "@ + nat_text(no) + ": "@ + msg
}

pub open spec fn msg_unsupported(c: Seq<char>) -> Seq<char> {
    "Unsupported directive: "@ + c + ". Import cancelled; no commands were executed."@
}

// ---------------------------------------------------------------------------
// Reading a preset
// ---------------------------------------------------------------------------
pub struct DraftView {
    pub kind: Seq<char>,
    pub enabled: bool,
    pub frequency: int,
    pub gain: int,
    pub q: int,
}

/// What a preset has said so far.
pub struct ReadView {
    pub preamp: int,
    pub seen_preamp: bool,
    pub recognized: bool,
    pub filters: Seq<DraftView>,
    pub graphic_eq: Seq<PointView>,
}

pub open spec fn read_start() -> ReadView {
    ReadView {
        preamp: 0,
        seen_preamp: false,
        recognized: false,
        filters: Seq::empty(),
        graphic_eq: Seq::empty(),
    }
}

pub open spec fn filter_step(st: ReadView, no: nat, ws: Seq<Seq<char>>) -> Result<ReadView, Seq<char>> {
    let raw = upper_word(ws[3]);
    let kind = canonical_kind(raw);
    let pass = is_pass_kind(kind);
    let g = gain_token(ws);
    let q = q_token(ws);
    if !pass && g is None {
        Err(line_error(no, "This filter requires Gain"@))
    } else if pass && g is Some {
        Err(line_error(no, "Pass filters do not support Gain"@))
    } else if requires_q(raw) && q is None {
        Err(line_error(no, "This filter requires Q"@))
    } else if number_value(ws[5]) is None {
        Err(line_error(no, "Invalid frequency"@))
    } else if g is Some && number_value(g->0) is None {
        Err(line_error(no, "Invalid gain"@))
    } else if q is Some && number_value(q->0) is None {
        Err(line_error(no, "Invalid Q"@))
    } else {
        let d = DraftView {
            kind,
            enabled: ascii_ci_eq(ws[2], w_on()),
            frequency: number_value(ws[5])->0,
            gain: match g {
                Some(t) => number_value(t)->0,
                None => 0,
            },
            q: match q {
                Some(t) => number_value(t)->0,
                None => default_q(),
            },
        };
        Ok(ReadView { filters: st.filters.push(d), recognized: true, ..st })
    }
}

/// The points of a graphic list, each piece holding a frequency and a gain.
pub open spec fn graphic_points(items: Seq<Seq<char>>, no: nat) -> Result<Seq<PointView>, Seq<char>>
    decreases items.len(),
{
    if items.len() == 0 {
        Ok(Seq::empty())
    } else {
        let ws = words(items[0]);
        if ws.len() != 2 {
            Err(line_error(no, "Each GraphicEQ point needs frequency and gain"@))
        } else if number_value(ws[0]) is None {
            Err(line_error(no, "Invalid frequency"@))
        } else if number_value(ws[1]) is None {
            Err(line_error(no, "Invalid gain"@))
        } else {
            match graphic_points(items.drop_first(), no) {
                Err(m) => Err(m),
                Ok(rest) => Ok(
                    seq![PointView { frequency: number_value(ws[0])->0, gain: number_value(ws[1])->0 }]
                        + rest,
                ),
            }
        }
    }
}

/// One directive, `c` being the line without comment and outer whitespace.
pub open spec fn directive_step(st: ReadView, no: nat, c: Seq<char>) -> Result<ReadView, Seq<char>> {
    if c.len() == 0 {
        Ok(st)
    } else if preamp_token(c) is Some {
        if st.seen_preamp {
            Err(line_error(no, "Multiple preamps are not supported"@))
        } else {
            match number_value(preamp_token(c)->0) {
                None => Err(line_error(no, "Invalid preamp"@)),
                Some(v) => Ok(ReadView { preamp: v, seen_preamp: true, recognized: true, ..st }),
            }
        }
    } else if filter_line(words(c)) {
        filter_step(st, no, words(c))
    } else if graphic_line(c) {
        if st.graphic_eq.len() > 0 {
            Err(line_error(no, "Multiple GraphicEQ directives are not supported"@))
        } else {
            match graphic_points(pieces(c.skip(10)), no) {
                Err(m) => Err(m),
                Ok(ps) => Ok(ReadView { graphic_eq: ps, recognized: true, ..st }),
            }
        }
    } else {
        Err(line_error(no, msg_unsupported(c)))
    }
}

/// A line without what follows `#`, trimmed.
pub open spec fn directive_of(line: Seq<char>) -> Seq<char> {
    trim(line.take(find(line, Class::Hash)))
}

/// Lines read in order from line number `no`; the first error stops.
pub open spec fn read_lines(ls: Seq<Seq<char>>, no: nat, st: ReadView) -> Result<ReadView, Seq<char>>
    decreases ls.len(),
{
    if ls.len() == 0 {
        Ok(st)
    } else {
        match directive_step(st, no, directive_of(ls[0])) {
            Err(m) => Err(m),
            Ok(next) => read_lines(ls.drop_first(), no + 1, next),
        }
    }
}

/// What a preset text says, or the message of the first problem.
pub open spec fn read_preset(t: Seq<char>) -> Result<ReadView, Seq<char>> {
    match read_lines(lines_of(strip_bom(t)), 1, read_start()) {
        Err(m) => Err(m),
        Ok(st) => if st.recognized {
            Ok(st)
        } else {
            Err("No supported EQ data found"@)
        },
    }
}

} // verus!

verus! {

// ---------------------------------------------------------------------------
// Executable reading
// ---------------------------------------------------------------------------
/// A filter read from a preset, before it has an ID.
pub struct Draft {
    pub kind: String,
    pub enabled: bool,
    pub frequency: Decimal,
    pub gain: Decimal,
    pub q: Decimal,
}

impl View for Draft {
    type V = DraftView;

    open spec fn view(&self) -> DraftView {
        DraftView {
            kind: self.kind@,
            enabled: self.enabled,
            frequency: self.frequency.units as int,
            gain: self.gain.units as int,
            q: self.q.units as int,
        }
    }
}

pub open spec fn draft_views(v: Seq<Draft>) -> Seq<DraftView> {
    v.map_values(|d: Draft| d@)
}

/// What a preset has said so far.
pub struct Reading {
    pub preamp: Decimal,
    pub seen_preamp: bool,
    pub recognized: bool,
    pub filters: Vec<Draft>,
    pub graphic_eq: Vec<Point>,
}

impl View for Reading {
    type V = ReadView;

    open spec fn view(&self) -> ReadView {
        ReadView {
            preamp: self.preamp.units as int,
            seen_preamp: self.seen_preamp,
            recognized: self.recognized,
            filters: draft_views(self.filters@),
            graphic_eq: point_views(self.graphic_eq@),
        }
    }
}

fn ci_word(w: &Vec<char>, lit: &[char]) -> (r: bool)
    ensures
        r == ascii_ci_eq(w@, lit@),
{
    assert(w@.skip(0) =~= w@);
    ci_eq_at(w, 0, lit)
}

fn same_chars(a: &Vec<char>, b: &[char]) -> (r: bool)
    ensures
        r == (a@ == b@),
{
    if a.len() != b.len() {
        return false;
    }
    let mut i: usize = 0;
    while i < a.len()
        invariant
            a.len() == b.len(),
            i <= a.len(),
            forall|j: int| 0 <= j < i ==> a@[j] == b@[j],
        decreases a.len() - i,
    {
        if a[i] != b[i] {
            return false;
        }
        i += 1;
    }
    assert(a@ =~= b@);
    true
}

fn num_char(c: char) -> (r: bool)
    ensures
        r == is_num_char(c),
{
    is_regex_digit(c) || c == '.' || c == 'e' || c == 'E' || c == '+' || c == '-'
}

fn is_num_word(w: &Vec<char>, from: usize) -> (r: bool)
    requires
        from <= w.len(),
    ensures
        r == num_word(w@.skip(from as int)),
{
    if from >= w.len() {
        return false;
    }
    let mut i = from;
    while i < w.len()
        invariant
            from <= i <= w.len(),
            forall|j: int| from <= j < i ==> is_num_char(#[trigger] w@[j]),
        decreases w.len() - i,
    {
        if !num_char(w[i]) {
            assert(!is_num_char(w@.skip(from as int)[i - from]));
            return false;
        }
        i += 1;
    }
    assert forall|j: int| 0 <= j < w@.skip(from as int).len() implies is_num_char(
        #[trigger] w@.skip(from as int)[j],
    ) by {
        assert(w@.skip(from as int)[j] == w@[from + j]);
    }
    true
}

fn is_index_word(w: &Vec<char>) -> (r: bool)
    ensures
        r == index_word(w@),
{
    if w.len() < 2 || w[w.len() - 1] != ':' {
        return false;
    }
    let mut i: usize = 0;
    while i < w.len() - 1
        invariant
            w.len() >= 2,
            i <= w.len() - 1,
            forall|j: int| 0 <= j < i ==> regex_digit(#[trigger] w@[j]),
        decreases w.len() - 1 - i,
    {
        if !is_regex_digit(w[i]) {
            return false;
        }
        i += 1;
    }
    true
}

fn upper_chars(w: &Vec<char>) -> (r: Vec<char>)
    ensures
        r@ == upper_word(w@),
{
    let mut r: Vec<char> = Vec::new();
    let mut i: usize = 0;
    while i < w.len()
        invariant
            i <= w.len(),
            r@ == upper_word(w@).take(i as int),
        decreases w.len() - i,
    {
        let c = w[i];
        let u = if 'a' <= c && c <= 'z' {
            ((c as u8) - 32) as char
        } else if c == '\u{17f}' {
            'S'
        } else {
            c
        };
        r.push(u);
        i += 1;
        assert(r@ =~= upper_word(w@).take(i as int));
    }
    assert(upper_word(w@).take(w.len() as int) =~= upper_word(w@));
    r
}

fn folded_chars(w: &Vec<char>) -> (r: Vec<char>)
    ensures
        r@ == folded_word(w@),
{
    let u = upper_chars(w);
    let mut r: Vec<char> = Vec::new();
    let mut i: usize = 0;
    while i < u.len()
        invariant
            i <= u.len(),
            u@ == upper_word(w@),
            r@ == folded_word(w@).take(i as int),
        decreases u.len() - i,
    {
        let c = if w[i] == '\u{212a}' {
            'K'
        } else {
            u[i]
        };
        r.push(c);
        i += 1;
        assert(r@ =~= folded_word(w@).take(i as int));
    }
    assert(folded_word(w@).take(w.len() as int) =~= folded_word(w@));
    r
}

fn is_kind_word(w: &Vec<char>) -> (r: bool)
    ensures
        r == kind_word(w@),
{
    if w.len() > 3 {
        return false;
    }
    let u = folded_chars(w);
    let r = same_chars(&u, &['P', 'K']) || same_chars(&u, &['L', 'S', 'C']) || same_chars(
        &u,
        &['H', 'S', 'C'],
    ) || same_chars(&u, &['L', 'S']) || same_chars(&u, &['H', 'S']) || same_chars(
        &u,
        &['H', 'P', 'Q'],
    ) || same_chars(&u, &['L', 'P', 'Q']) || same_chars(&u, &['H', 'P']) || same_chars(
        &u,
        &['L', 'P'],
    );
    proof {
        assert(['P', 'K']@ =~= kind_pk());
        assert(['L', 'S', 'C']@ =~= kind_lsc());
        assert(['H', 'S', 'C']@ =~= kind_hsc());
        assert(['L', 'S']@ =~= kind_ls());
        assert(['H', 'S']@ =~= kind_hs());
        assert(['H', 'P', 'Q']@ =~= kind_hpq());
        assert(['L', 'P', 'Q']@ =~= kind_lpq());
        assert(['H', 'P']@ =~= kind_hp());
        assert(['L', 'P']@ =~= kind_lp());
    }
    r
}

/// `Line <no>: <msg>`.
fn line_message(no: usize, msg: &str) -> (r: String)
    ensures
        r@ == line_error(no as nat, msg@),
{
    let mut digits: Vec<char> = Vec::new();
    push_nat_text(&mut digits, no as u128);
    assert(digits@ =~= nat_text(no as nat));
    let mut r = text("Line ");
    let d = string_of(digits.as_slice());
    r.append(d.as_str());
    r.append(": ");
    r.append(msg);
    r
}

fn read_number(t: &Vec<char>) -> (r: Option<Decimal>)
    requires
        t.len() <= MAX_TOKEN,
    ensures
        r.is_some() == number_value(t@).is_some(),
        r matches Some(d) ==> d.units == number_value(t@)->0 && d.wf(),
{
    parse_number(t)
}


fn is_gain_at(ws: &Vec<Vec<char>>, i: usize) -> (r: bool)
    requires
        i <= 10,
    ensures
        r == gain_at(views(ws@), i as int),
{
    if ws.len() < i + 3 {
        return false;
    }
    let r = ci_word(&ws[i], &['g', 'a', 'i', 'n']) && is_num_word(&ws[i + 1], 0) && ci_word(
        &ws[i + 2],
        &['d', 'b'],
    );
    proof {
        assert(['g', 'a', 'i', 'n']@ =~= w_gain());
        assert(['d', 'b']@ =~= w_db());
        assert(ws[i + 1]@.skip(0) =~= ws[i + 1]@);
    }
    r
}

fn is_q_at(ws: &Vec<Vec<char>>, i: usize) -> (r: bool)
    requires
        i <= 10,
    ensures
        r == q_at(views(ws@), i as int),
{
    if ws.len() != i + 2 {
        return false;
    }
    let r = ci_word(&ws[i], &['q']) && is_num_word(&ws[i + 1], 0);
    proof {
        assert(['q']@ =~= w_q());
        assert(ws[i + 1]@.skip(0) =~= ws[i + 1]@);
    }
    r
}

fn is_filter_line(ws: &Vec<Vec<char>>) -> (r: bool)
    ensures
        r == filter_line(views(ws@)),
{
    if ws.len() < 7 {
        return false;
    }
    let head = ci_word(&ws[0], &['f', 'i', 'l', 't', 'e', 'r']) && is_index_word(&ws[1]) && (ci_word(
        &ws[2],
        &['o', 'n'],
    ) || ci_word(&ws[2], &['o', 'f', 'f'])) && is_kind_word(&ws[3]) && ci_word(&ws[4], &['f', 'c'])
        && is_num_word(&ws[5], 0) && ci_word(&ws[6], &['h', 'z']);
    proof {
        assert(['f', 'i', 'l', 't', 'e', 'r']@ =~= w_filter());
        assert(['o', 'n']@ =~= w_on());
        assert(['o', 'f', 'f']@ =~= w_off());
        assert(['f', 'c']@ =~= w_fc());
        assert(['h', 'z']@ =~= w_hz());
        assert(ws[5]@.skip(0) =~= ws[5]@);
    }
    if !head {
        return false;
    }
    let tail = ws.len() == 7 || (is_gain_at(ws, 7) && (ws.len() == 10 || is_q_at(ws, 10)))
        || is_q_at(ws, 7);
    tail
}

fn preamp_of(ws: &Vec<Vec<char>>) -> (r: Option<Vec<char>>)
    ensures
        r is Some == preamp_words(views(ws@)) is Some,
        r matches Some(t) ==> t@ == preamp_words(views(ws@))->0,
{
    proof {
        assert(['p', 'r', 'e', 'a', 'm', 'p', ':']@ =~= w_preamp());
        assert(['d', 'b']@ =~= w_db());
    }
    if ws.len() == 3 {
        if ci_word(&ws[0], &['p', 'r', 'e', 'a', 'm', 'p', ':']) && is_num_word(&ws[1], 0)
            && ci_word(&ws[2], &['d', 'b']) {
            assert(ws[1]@.skip(0) =~= ws[1]@);
            return Some(slice_of(&ws[1], 0, ws[1].len()));
        }
        assert(ws[1]@.skip(0) =~= ws[1]@);
        return None;
    }
    if ws.len() == 2 && ws[0].len() > 7 {
        let head = slice_of(&ws[0], 0, 7);
        assert(head@ =~= ws[0]@.take(7));
        assert(ws[0]@.subrange(7, ws[0]@.len() as int) =~= ws[0]@.skip(7));
        if ci_word(&head, &['p', 'r', 'e', 'a', 'm', 'p', ':']) && is_num_word(&ws[0], 7) && ci_word(
            &ws[1],
            &['d', 'b'],
        ) {
            return Some(slice_of(&ws[0], 7, ws[0].len()));
        }
    }
    None
}

fn is_graphic_line(c: &Vec<char>) -> (r: bool)
    ensures
        r == graphic_line(c@),
{
    if c.len() < 10 {
        return false;
    }
    let head = slice_of(c, 0, 10);
    assert(head@ =~= c@.take(10));
    let r = ci_word(&head, &['g', 'r', 'a', 'p', 'h', 'i', 'c', 'e', 'q', ':']);
    assert(['g', 'r', 'a', 'p', 'h', 'i', 'c', 'e', 'q', ':']@ =~= w_graphic());
    r
}

/// The canonical filter type of an upper-case type word.
fn canonical(raw: &Vec<char>) -> (r: Vec<char>)
    ensures
        r@ == canonical_kind(raw@),
{
    proof {
        assert(['L', 'S']@ =~= kind_ls());
        assert(['H', 'S']@ =~= kind_hs());
        assert(['H', 'P']@ =~= kind_hp());
        assert(['L', 'P']@ =~= kind_lp());
    }
    if same_chars(raw, &['L', 'S']) {
        let v = vec!['L', 'S', 'C'];
        assert(v@ =~= kind_lsc());
        v
    } else if same_chars(raw, &['H', 'S']) {
        let v = vec!['H', 'S', 'C'];
        assert(v@ =~= kind_hsc());
        v
    } else if same_chars(raw, &['H', 'P']) {
        let v = vec!['H', 'P', 'Q'];
        assert(v@ =~= kind_hpq());
        v
    } else if same_chars(raw, &['L', 'P']) {
        let v = vec!['L', 'P', 'Q'];
        assert(v@ =~= kind_lpq());
        v
    } else {
        slice_of(raw, 0, raw.len())
    }
}

fn read_filter(st: &mut Reading, no: usize, ws: &Vec<Vec<char>>) -> (r: Result<(), String>)
    requires
        filter_line(views(ws@)),
        forall|i: int| 0 <= i < ws.len() ==> (#[trigger] ws@[i]).len() <= MAX_TOKEN,
    ensures
        match filter_step(old(st)@, no as nat, views(ws@)) {
            Ok(v) => r is Ok && final(st)@ == v,
            Err(m) => r matches Err(e) && e@ == m,
        },
{
    let ghost wv = views(ws@);
    let raw = upper_chars(&ws[3]);
    let kind = canonical(&raw);
    let pass = same_chars(&kind, &['H', 'P', 'Q']) || same_chars(&kind, &['L', 'P', 'Q']);
    proof {
        assert(['H', 'P', 'Q']@ =~= kind_hpq());
        assert(['L', 'P', 'Q']@ =~= kind_lpq());
        assert(['P', 'K']@ =~= kind_pk());
        assert(['L', 'S', 'C']@ =~= kind_lsc());
        assert(['H', 'S', 'C']@ =~= kind_hsc());
    }
    let has_gain = is_gain_at(ws, 7);
    let q_pos: usize = if is_q_at(ws, 7) {
        8
    } else if is_q_at(ws, 10) {
        11
    } else {
        0
    };
    let ghost g = gain_token(wv);
    let ghost q = q_token(wv);
    assert(has_gain == (g is Some));
    assert((q_pos != 0) == (q is Some));
    assert(q_pos != 0 ==> q->0 == ws@[q_pos as int]@);
    if !pass && !has_gain {
        return Err(line_message(no, "This filter requires Gain"));
    }
    if pass && has_gain {
        return Err(line_message(no, "Pass filters do not support Gain"));
    }
    let needs_q = same_chars(&raw, &['P', 'K']) || same_chars(&raw, &['L', 'S', 'C']) || same_chars(
        &raw,
        &['H', 'S', 'C'],
    ) || same_chars(&raw, &['H', 'P', 'Q']) || same_chars(&raw, &['L', 'P', 'Q']);
    if needs_q && q_pos == 0 {
        return Err(line_message(no, "This filter requires Q"));
    }
    let frequency = match read_number(&ws[5]) {
        Some(v) => v,
        None => {
            return Err(line_message(no, "Invalid frequency"));
        },
    };
    let gain = if has_gain {
        match read_number(&ws[8]) {
            Some(v) => v,
            None => {
                return Err(line_message(no, "Invalid gain"));
            },
        }
    } else {
        Decimal::zero()
    };
    let q_value = if q_pos != 0 {
        match read_number(&ws[q_pos]) {
            Some(v) => v,
            None => {
                return Err(line_message(no, "Invalid Q"));
            },
        }
    } else {
        Decimal::from_units(707_106_781_186_547_600)
    };
    let enabled = ci_word(&ws[2], &['o', 'n']);
    assert(['o', 'n']@ =~= w_on());
    let d = Draft {
        kind: string_of(kind.as_slice()),
        enabled,
        frequency,
        gain,
        q: q_value,
    };
    let ghost before = st@;
    st.filters.push(d);
    st.recognized = true;
    proof {
        assert(draft_views(st.filters@) =~= before.filters.push(d@));
    }
    Ok(())
}

pub open spec fn prefixed(a: Seq<PointView>, r: Result<Seq<PointView>, Seq<char>>) -> Result<
    Seq<PointView>,
    Seq<char>,
> {
    match r {
        Ok(x) => Ok(a + x),
        Err(m) => Err(m),
    }
}

fn read_graphic(c: &Vec<char>, no: usize) -> (r: Result<Vec<Point>, String>)
    requires
        10 <= c.len() <= MAX_TOKEN,
    ensures
        match graphic_points(pieces(c@.skip(10)), no as nat) {
            Ok(ps) => r matches Ok(v) && point_views(v@) == ps,
            Err(m) => r matches Err(e) && e@ == m,
        },
{
    let mut pts: Vec<Point> = Vec::new();
    let mut pos: usize = 10;
    let mut more = true;
    let ghost whole = graphic_points(pieces(c@.skip(10)), no as nat);
    assert(point_views(pts@) =~= Seq::<PointView>::empty());
    assert(Seq::<PointView>::empty() + point_views(pts@) =~= Seq::<PointView>::empty());
    while more
        invariant
            10 <= pos <= c.len() <= MAX_TOKEN,
            whole == graphic_points(pieces(c@.skip(10)), no as nat),
            whole == prefixed(
                point_views(pts@),
                if more {
                    graphic_points(pieces(c@.skip(pos as int)), no as nat)
                } else {
                    Ok(Seq::empty())
                },
            ),
        decreases (if more {
            c.len() + 1 - pos
        } else {
            0
        }),
    {
        let e = find_in(c, pos, c.len(), &Class::Semicolon);
        let ghost rest = c@.skip(pos as int);
        proof {
            assert(c@.subrange(pos as int, c.len() as int) =~= rest);
            lemma_find_bounds(rest, Class::Semicolon);
            if e < c.len() {
                assert(rest.take(e - pos) =~= c@.subrange(pos as int, e as int));
                assert(rest.skip(e - pos + 1) =~= c@.skip(e + 1));
                assert(pieces(rest) == seq![c@.subrange(pos as int, e as int)] + pieces(c@.skip(e + 1)));
            } else {
                assert(rest =~= c@.subrange(pos as int, e as int));
                assert(pieces(rest) == seq![c@.subrange(pos as int, e as int)]);
            }
        }
        let item = slice_of(c, pos, e);
        let ws = split_words(&item);
        proof {
            lemma_words_len(item@);
        }
        let ghost items = pieces(rest);
        assert(items[0] == item@);
        if ws.len() != 2 {
            return Err(line_message(no, "Each GraphicEQ point needs frequency and gain"));
        }
        let f = match read_number(&ws[0]) {
            Some(v) => v,
            None => {
                return Err(line_message(no, "Invalid frequency"));
            },
        };
        let g = match read_number(&ws[1]) {
            Some(v) => v,
            None => {
                return Err(line_message(no, "Invalid gain"));
            },
        };
        let ghost before = point_views(pts@);
        let p = Point { frequency: f, gain: g };
        pts.push(p);
        proof {
            assert(point_views(pts@) =~= before.push(p@));
            let tail = items.drop_first();
            match graphic_points(tail, no as nat) {
                Ok(x) => {
                    assert(before + (seq![p@] + x) =~= before.push(p@) + x);
                },
                Err(m) => {},
            }
            if e < c.len() {
                assert(tail =~= pieces(c@.skip(e + 1)));
            } else {
                assert(tail =~= Seq::<Seq<char>>::empty());
                assert(point_views(pts@) + Seq::<PointView>::empty() =~= point_views(pts@));
            }
        }
        if e < c.len() {
            pos = e + 1;
        } else {
            more = false;
        }
    }
    proof {
        assert(point_views(pts@) + Seq::<PointView>::empty() =~= point_views(pts@));
    }
    Ok(pts)
}

fn unsupported_message(no: usize, c: &Vec<char>) -> (r: String)
    ensures
        r@ == line_error(no as nat, msg_unsupported(c@)),
{
    let mut m = text("Unsupported directive: ");
    let cs = string_of(c.as_slice());
    m.append(cs.as_str());
    m.append(". Import cancelled; no commands were executed.");
    let r = line_message(no, m.as_str());
    r
}

/// Applies one directive to what has been read.
fn read_directive(st: &mut Reading, no: usize, c: &Vec<char>) -> (r: Result<(), String>)
    requires
        c.len() <= MAX_TOKEN,
    ensures
        match directive_step(old(st)@, no as nat, c@) {
            Ok(v) => r is Ok && final(st)@ == v,
            Err(m) => r matches Err(e) && e@ == m,
        },
{
    if c.len() == 0 {
        return Ok(());
    }
    let ws = split_words(c);
    proof {
        lemma_words_len(c@);
        assert forall|i: int| 0 <= i < ws.len() implies (#[trigger] ws@[i]).len() <= MAX_TOKEN by {
            assert(views(ws@)[i] == ws@[i]@);
        }
    }
    match preamp_of(&ws) {
        Some(t) => {
            if st.seen_preamp {
                return Err(line_message(no, "Multiple preamps are not supported"));
            }
            proof {
                lemma_words_len(c@);
                assert(t@.len() <= c@.len()) by {
                    if ws.len() == 3 {
                        assert(views(ws@)[1] == ws@[1]@);
                    } else {
                        assert(views(ws@)[0] == ws@[0]@);
                    }
                }
            }
            match read_number(&t) {
                None => {
                    return Err(line_message(no, "Invalid preamp"));
                },
                Some(v) => {
                    st.preamp = v;
                    st.seen_preamp = true;
                    st.recognized = true;
                    return Ok(());
                },
            }
        },
        None => {},
    }
    if is_filter_line(&ws) {
        return read_filter(st, no, &ws);
    }
    if is_graphic_line(c) {
        if st.graphic_eq.len() > 0 {
            return Err(line_message(no, "Multiple GraphicEQ directives are not supported"));
        }
        let pts = read_graphic(c, no)?;
        st.graphic_eq = pts;
        st.recognized = true;
        return Ok(());
    }
    Err(unsupported_message(no, c))
}


proof fn lemma_strip_bom(t: Seq<char>, i: int)
    requires
        0 <= i <= t.len(),
        forall|j: int| 0 <= j < i ==> #[trigger] t[j] == '\u{feff}',
        i == t.len() || t[i] != '\u{feff}',
    ensures
        strip_bom(t) == t.skip(i),
    decreases i,
{
    if i > 0 {
        let d = t.drop_first();
        assert forall|j: int| 0 <= j < i - 1 implies #[trigger] d[j] == '\u{feff}' by {
            assert(d[j] == t[j + 1]);
        }
        if i < t.len() {
            assert(d[i - 1] == t[i]);
        }
        lemma_strip_bom(d, i - 1);
        assert(d.skip(i - 1) =~= t.skip(i));
    } else {
        assert(t.skip(0) =~= t);
    }
}

proof fn lemma_lines_step(u: Seq<char>, pos: int, e: int, next: int)
    requires
        0 <= pos < u.len(),
        pos <= e <= u.len(),
        e - pos == find(u.skip(pos), Class::Newline),
        next == (if e < u.len() {
            e + 1
        } else {
            u.len() as int
        }),
    ensures
        lines_of(u.skip(pos)) == seq![
            if e < u.len() {
                drop_cr(u.subrange(pos, e))
            } else {
                u.subrange(pos, e)
            },
        ] + lines_of(u.skip(next)),
{
    let r = u.skip(pos);
    lemma_find_bounds(r, Class::Newline);
    if e < u.len() {
        assert(r.take(e - pos) =~= u.subrange(pos, e));
        assert(r.skip(e - pos + 1) =~= u.skip(e + 1));
    } else {
        assert(r =~= u.subrange(pos, e));
        assert(u.skip(next) =~= Seq::<char>::empty());
        assert(lines_of(Seq::<char>::empty()) =~= Seq::<Seq<char>>::empty());
        assert(seq![r] + Seq::<Seq<char>>::empty() =~= seq![r]);
    }
}

/// Reads a preset given as characters.
pub fn read_preset_chars(t: &Vec<char>) -> (r: Result<Reading, String>)
    requires
        t.len() <= MAX_TOKEN,
    ensures
        match read_preset(t@) {
            Ok(v) => r matches Ok(x) && x@ == v,
            Err(m) => r matches Err(e) && e@ == m,
        },
{
    let mut s: usize = 0;
    while s < t.len() && t[s] == '\u{feff}'
        invariant
            s <= t.len(),
            forall|j: int| 0 <= j < s ==> #[trigger] t@[j] == '\u{feff}',
        decreases t.len() - s,
    {
        s += 1;
    }
    proof {
        lemma_strip_bom(t@, s as int);
    }
    let u = slice_of(t, s, t.len());
    assert(u@ =~= strip_bom(t@));
    let mut st = Reading {
        preamp: Decimal::zero(),
        seen_preamp: false,
        recognized: false,
        filters: Vec::new(),
        graphic_eq: Vec::new(),
    };
    assert(st@ =~= read_start()) by {
        assert(draft_views(st.filters@) =~= Seq::<DraftView>::empty());
        assert(point_views(st.graphic_eq@) =~= Seq::<PointView>::empty());
    }
    let mut pos: usize = 0;
    let mut no: usize = 1;
    assert(u@.skip(0) =~= u@);
    let ghost whole = read_lines(lines_of(u@), 1, read_start());
    while pos < u.len()
        invariant
            pos <= u.len() <= MAX_TOKEN,
            1 <= no <= pos + 1,
            whole == read_lines(lines_of(u@), 1, read_start()),
            whole == read_lines(lines_of(u@.skip(pos as int)), no as nat, st@),
            u@ == strip_bom(t@),
        decreases u.len() - pos,
    {
        let e = find_in(&u, pos, u.len(), &Class::Newline);
        let next: usize = if e < u.len() {
            e + 1
        } else {
            u.len()
        };
        proof {
            assert(u@.subrange(pos as int, u.len() as int) =~= u@.skip(pos as int));
            lemma_lines_step(u@, pos as int, e as int, next as int);
        }
        let end: usize = if e < u.len() && e > pos && u[e - 1] == '\r' {
            e - 1
        } else {
            e
        };
        let ghost line = if e < u.len() {
            drop_cr(u@.subrange(pos as int, e as int))
        } else {
            u@.subrange(pos as int, e as int)
        };
        assert(line =~= u@.subrange(pos as int, end as int));
        let h = find_in(&u, pos, end, &Class::Hash);
        let c = trimmed(&u, pos, h);
        proof {
            crate::text::lemma_trim_len(u@.subrange(pos as int, h as int));
        }
        assert(line.take(find(line, Class::Hash)) =~= u@.subrange(pos as int, h as int));
        assert(c@ == directive_of(line));
        let ghost ls = lines_of(u@.skip(pos as int));
        assert(ls[0] == line);
        assert(ls.drop_first() =~= lines_of(u@.skip(next as int)));
        let step = read_directive(&mut st, no, &c);
        match step {
            Err(m) => {
                return Err(m);
            },
            Ok(()) => {},
        }
        pos = next;
        no = no + 1;
    }
    proof {
        assert(u@.skip(pos as int) =~= Seq::<char>::empty());
        assert(lines_of(Seq::<char>::empty()) =~= Seq::<Seq<char>>::empty());
    }
    if !st.recognized {
        return Err(text("No supported EQ data found"));
    }
    Ok(st)
}


// ---------------------------------------------------------------------------
// Presets as profiles
// ---------------------------------------------------------------------------
pub open spec fn filter_of(d: DraftView, id: Seq<char>) -> FilterView {
    FilterView { id, kind: d.kind, enabled: d.enabled, frequency: d.frequency, gain: d.gain, q: d.q }
}

/// The profile that a read preset becomes, given its IDs.
pub open spec fn profile_of(
    st: ReadView,
    id: Seq<char>,
    filter_ids: Seq<Seq<char>>,
    name: Seq<char>,
    provenance: Seq<char>,
) -> ProfileView {
    ProfileView {
        schema_version: 1,
        id,
        name,
        icon: "headphones"@,
        headphone_id: "default"@,
        preamp: st.preamp,
        filters: Seq::new(st.filters.len(), |i: int| filter_of(st.filters[i], filter_ids[i])),
        graphic_eq: st.graphic_eq,
        provenance,
    }
}

pub open spec fn checked(p: ProfileView) -> Result<ProfileView, Seq<char>> {
    match profile_error(p) {
        None => Ok(p),
        Some(m) => Err(m),
    }
}

pub open spec fn profile_result(r: Result<Profile, String>) -> Result<ProfileView, Seq<char>> {
    match r {
        Ok(p) => Ok(p@),
        Err(m) => Err(m@),
    }
}

pub open spec fn fresh_ids(id: Seq<char>, filter_ids: Seq<Seq<char>>, n: nat) -> bool {
    &&& is_uuid_text(id)
    &&& filter_ids.len() == n
    &&& forall|i: int| 0 <= i < n ==> is_uuid_text(#[trigger] filter_ids[i])
}

/// What reading a preset gives: the first problem of the text, or the
/// profile with fresh IDs as validation judges it.
pub open spec fn parse_outcome(
    t: Seq<char>,
    bytes: nat,
    name: Seq<char>,
    provenance: Seq<char>,
    r: Result<ProfileView, Seq<char>>,
) -> bool {
    if bytes > 1_048_576 {
        r == Err::<ProfileView, Seq<char>>("Preset exceeds 1 MB"@)
    } else {
        match read_preset(t) {
            Err(m) => r == Err::<ProfileView, Seq<char>>(m),
            Ok(st) => exists|id: Seq<char>, filter_ids: Seq<Seq<char>>|
                fresh_ids(id, filter_ids, st.filters.len())
                    && r == checked(#[trigger] profile_of(st, id, filter_ids, name, provenance)),
        }
    }
}

/// The profile of a read preset, with the given IDs.
pub fn profile_from_reading(
    st: Reading,
    id: String,
    filter_ids: Vec<String>,
    name: &str,
    provenance: &str,
) -> (p: Profile)
    requires
        filter_ids.len() == st.filters.len(),
    ensures
        p@ == profile_of(st@, id@, filter_ids@.map_values(|s: String| s@), name@, provenance@),
{
    let Reading { preamp, seen_preamp: _, recognized: _, filters: drafts, graphic_eq } = st;
    let ghost dv = draft_views(drafts@);
    let ghost ids = filter_ids@.map_values(|s: String| s@);
    let mut filters: Vec<Filter> = Vec::new();
    let mut i: usize = 0;
    while i < drafts.len()
        invariant
            i <= drafts.len(),
            drafts.len() == filter_ids.len(),
            dv == draft_views(drafts@),
            ids == filter_ids@.map_values(|s: String| s@),
            filters@.len() == i,
            forall|k: int| 0 <= k < i ==> (#[trigger] filters@[k])@ == filter_of(dv[k], ids[k]),
        decreases drafts.len() - i,
    {
        let d = &drafts[i];
        filters.push(
            Filter {
                id: filter_ids[i].clone(),
                kind: d.kind.clone(),
                enabled: d.enabled,
                frequency: d.frequency,
                gain: d.gain,
                q: d.q,
            },
        );
        i += 1;
    }
    let p = Profile {
        schema_version: 1,
        id,
        name: text(name),
        icon: text("headphones"),
        headphone_id: text("default"),
        preamp,
        filters,
        graphic_eq,
        provenance: text(provenance),
    };
    assert(filter_views(p.filters@) =~= Seq::new(
        dv.len(),
        |k: int| filter_of(dv[k], ids[k]),
    ));
    p
}

/// A filter read from a `Filter` line has the type that its type word
/// names: for each of the nine type words, in any case, a supported type
/// that begins with the word (`LP` reads as `LPQ`, `HS` as `HSC`, `PK` as
/// `PK`), so a low or high, shelf or pass filter stays what the line says;
/// a word that only matches when case is folded (the Kelvin sign) is kept
/// as written and refused later by validation.
pub proof fn filter_type_follows_word(st: ReadView, no: nat, ws: Seq<Seq<char>>, v: ReadView)
    requires
        filter_line(ws),
        filter_step(st, no, ws) == Ok::<ReadView, Seq<char>>(v),
    ensures
        v.filters.len() == st.filters.len() + 1,
        ({
            let w = upper_word(ws[3]);
            let k = v.filters.last().kind;
            if w == seq!['P', 'K'] || w == seq!['L', 'S', 'C'] || w == seq!['H', 'S', 'C'] || w
                == seq!['H', 'P', 'Q'] || w == seq!['L', 'P', 'Q'] || w == seq!['L', 'S'] || w
                == seq!['H', 'S'] || w == seq!['H', 'P'] || w == seq!['L', 'P'] {
                &&& crate::model::supported_kind(k)
                &&& w.len() <= k.len()
                &&& k.take(w.len() as int) == w
            } else {
                k == w
            }
        }),
{
    let w = upper_word(ws[3]);
    let k = v.filters.last().kind;
    assert(k == canonical_kind(w));
    if w == seq!['L', 'S'] {
        assert(w =~= kind_ls());
        assert(k.take(2) =~= w);
    } else if w == seq!['H', 'S'] {
        assert(w =~= kind_hs());
        assert(k.take(2) =~= w);
    } else if w == seq!['H', 'P'] {
        assert(w =~= kind_hp());
        assert(k.take(2) =~= w);
    } else if w == seq!['L', 'P'] {
        assert(w =~= kind_lp());
        assert(k.take(2) =~= w);
    } else if w == seq!['P', 'K'] || w == seq!['L', 'S', 'C'] || w == seq!['H', 'S', 'C'] || w
        == seq!['H', 'P', 'Q'] || w == seq!['L', 'P', 'Q'] {
        assert(w != kind_ls() && w != kind_hs() && w != kind_hp() && w != kind_lp()) by {
            if w.len() == 2 {
                assert(w[1] == 'K');
            }
        }
        assert(k == w);
        assert(k.take(w.len() as int) =~= w);
    } else {
        assert(w != kind_ls() && w != kind_hs() && w != kind_hp() && w != kind_lp()) by {
            assert(kind_ls() =~= seq!['L', 'S']);
            assert(kind_hs() =~= seq!['H', 'S']);
            assert(kind_hp() =~= seq!['H', 'P']);
            assert(kind_lp() =~= seq!['L', 'P']);
        }
    }
}


/// Reads an Equalizer APO preset into a new profile named `name`.
///
/// Each line is a `Preamp:`, `Filter` or `GraphicEQ:` directive, a comment
/// or blank; anything else, a second preamp or graphic list, a filter
/// without the fields its type needs, or a malformed number rejects the
/// whole text with the line number. The profile gets fresh IDs and must
/// pass `validate_profile`.
pub fn parse(text: &str, name: &str, provenance: &str) -> (r: Result<Profile, String>)
    ensures
        parse_outcome(text@, text.spec_bytes().len(), name@, provenance@, profile_result(r)),
        r matches Ok(p) ==> profile_error(p@) is None,
{
    let t = chars_of(text);
    proof {
        crate::text::lemma_utf8_len(text@);
    }
    if t.len() > 1_048_576 {
        return Err(crate::model::text("Preset exceeds 1 MB"));
    }
    if text.len() > 1_048_576 {
        return Err(crate::model::text("Preset exceeds 1 MB"));
    }
    let st = read_preset_chars(&t)?;
    let id = new_id();
    let mut filter_ids: Vec<String> = Vec::new();
    let mut i: usize = 0;
    while i < st.filters.len()
        invariant
            i <= st.filters.len(),
            filter_ids.len() == i,
            forall|k: int| 0 <= k < i ==> is_uuid_text(#[trigger] filter_ids@[k]@),
        decreases st.filters.len() - i,
    {
        filter_ids.push(new_id());
        i += 1;
    }
    let ghost rv = st@;
    let ghost ids = filter_ids@.map_values(|s: String| s@);
    let p = profile_from_reading(st, id, filter_ids, name, provenance);
    let v = validate_profile(&p);
    proof {
        assert(fresh_ids(p.id@, ids, rv.filters.len()));
        assert(p@ == profile_of(rv, p.id@, ids, name@, provenance@));
    }
    match v {
        Ok(()) => Ok(p),
        Err(m) => Err(m),
    }
}


// ---------------------------------------------------------------------------
// Writing presets
// ---------------------------------------------------------------------------
pub open spec fn t_comment() -> Seq<char> {
    seq!['#', ' ']
}

pub open spec fn t_preamp() -> Seq<char> {
    seq!['\n', 'P', 'r', 'e', 'a', 'm', 'p', ':', ' ']
}

pub open spec fn t_db_line() -> Seq<char> {
    seq![' ', 'd', 'B', '\n']
}

pub open spec fn t_on_off(on: bool) -> Seq<char> {
    if on {
        seq!['O', 'N']
    } else {
        seq!['O', 'F', 'F']
    }
}

pub open spec fn t_space() -> Seq<char> {
    seq![' ']
}

pub open spec fn t_gain() -> Seq<char> {
    seq![' ', 'G', 'a', 'i', 'n', ' ']
}

pub open spec fn t_db() -> Seq<char> {
    seq![' ', 'd', 'B']
}

pub open spec fn t_newline() -> Seq<char> {
    seq!['\n']
}

pub open spec fn t_graphic() -> Seq<char> {
    seq!['G', 'r', 'a', 'p', 'h', 'i', 'c', 'E', 'Q', ':', ' ']
}

pub open spec fn t_separator() -> Seq<char> {
    seq![';', ' ']
}

/// The words of a filter line: `Filter <n>: ON|OFF <type> Fc <f> Hz`, then
/// `Gain <g> dB` unless it is a pass filter, then `Q <q>`.
pub open spec fn filter_words(n: nat, f: FilterView) -> Seq<Seq<char>> {
    let head = seq![
        seq!['F', 'i', 'l', 't', 'e', 'r'],
        nat_text(n) + seq![':'],
        t_on_off(f.enabled),
        f.kind,
        seq!['F', 'c'],
        number_text(f.frequency),
        seq!['H', 'z'],
    ];
    if is_pass_kind(f.kind) {
        head + seq![seq!['Q'], number_text(f.q)]
    } else {
        head + seq![
            seq!['G', 'a', 'i', 'n'],
            number_text(f.gain),
            seq!['d', 'B'],
            seq!['Q'],
            number_text(f.q),
        ]
    }
}

/// A filter line: its words separated by single spaces, and a newline.
pub open spec fn filter_text(n: nat, f: FilterView) -> Seq<char> {
    spaced(filter_words(n, f)) + t_newline()
}

/// The filter lines, numbered from 1.
pub open spec fn filters_text(fs: Seq<FilterView>) -> Seq<char>
    decreases fs.len(),
{
    if fs.len() == 0 {
        Seq::empty()
    } else {
        filters_text(fs.drop_last()) + filter_text(fs.len(), fs.last())
    }
}

pub open spec fn point_text(p: PointView) -> Seq<char> {
    number_text(p.frequency) + t_space() + number_text(p.gain)
}

/// `<f> <g>` for each point, joined by `; `.
pub open spec fn points_text(ps: Seq<PointView>) -> Seq<char>
    decreases ps.len(),
{
    if ps.len() == 0 {
        Seq::empty()
    } else if ps.len() == 1 {
        point_text(ps[0])
    } else {
        points_text(ps.drop_last()) + t_separator() + point_text(ps.last())
    }
}

pub open spec fn graphic_text(ps: Seq<PointView>) -> Seq<char> {
    if ps.len() == 0 {
        Seq::empty()
    } else {
        t_graphic() + points_text(ps) + t_newline()
    }
}

/// The preset text of a profile: its name as a comment, the preamp, the
/// filters and the graphic list.
pub open spec fn export_text(p: ProfileView) -> Seq<char> {
    t_comment() + p.name + t_preamp() + number_text(p.preamp) + t_db_line() + filters_text(
        p.filters,
    ) + graphic_text(p.graphic_eq)
}

pub open spec fn text_result(r: Result<String, String>) -> Result<Seq<char>, Seq<char>> {
    match r {
        Ok(s) => Ok(s@),
        Err(m) => Err(m@),
    }
}

fn push_all(out: &mut Vec<char>, s: &[char])
    ensures
        final(out)@ == old(out)@ + s@,
{
    let ghost start = out@;
    let mut i: usize = 0;
    while i < s.len()
        invariant
            i <= s.len(),
            out@ == start + s@.take(i as int),
        decreases s.len() - i,
    {
        out.push(s[i]);
        i += 1;
        assert(out@ =~= start + s@.take(i as int));
    }
    assert(s@.take(s.len() as int) =~= s@);
}

fn push_number(out: &mut Vec<char>, d: Decimal)
    requires
        d.wf(),
    ensures
        final(out)@ == old(out)@ + number_text(d.units as int),
{
    let v = format_number(d);
    push_all(out, v.as_slice());
}

fn push_string(out: &mut Vec<char>, s: &String)
    ensures
        final(out)@ == old(out)@ + s@,
{
    let v = chars_of(s.as_str());
    push_all(out, v.as_slice());
}

pub proof fn lemma_valid_values(p: ProfileView)
    requires
        profile_error(p) is None,
    ensures
        -LIMIT <= p.preamp <= LIMIT,
        forall|i: int|
            0 <= i < p.filters.len() ==> -LIMIT <= (#[trigger] p.filters[i]).frequency <= LIMIT
                && -LIMIT <= p.filters[i].gain <= LIMIT && -LIMIT <= p.filters[i].q <= LIMIT
                && crate::model::supported_kind(p.filters[i].kind),
        forall|i: int|
            0 <= i < p.graphic_eq.len() ==> -LIMIT <= (#[trigger] p.graphic_eq[i]).frequency
                <= LIMIT && -LIMIT <= p.graphic_eq[i].gain <= LIMIT,
{
    lemma_filters_ok(p.filters);
    lemma_points_ok(p.graphic_eq);
}

pub proof fn lemma_filters_ok(fs: Seq<FilterView>)
    requires
        crate::model::filters_error(fs) is None,
    ensures
        forall|i: int|
            0 <= i < fs.len() ==> crate::model::filter_error(#[trigger] fs[i], fs.take(i)) is None,
    decreases fs.len(),
{
    if fs.len() > 0 {
        let d = fs.drop_last();
        lemma_filters_ok(d);
        assert forall|i: int| 0 <= i < fs.len() implies crate::model::filter_error(
            #[trigger] fs[i],
            fs.take(i),
        ) is None by {
            if i < fs.len() - 1 {
                assert(fs[i] == d[i]);
                assert(fs.take(i) =~= d.take(i));
            } else {
                assert(fs.take(i) =~= d);
            }
        }
    }
}

pub proof fn lemma_points_ok(ps: Seq<PointView>)
    requires
        crate::model::points_ok(ps),
    ensures
        forall|i: int|
            0 <= i < ps.len() ==> crate::model::point_ok(
                #[trigger] ps[i],
                if i == 0 {
                    0
                } else {
                    ps[i - 1].frequency
                },
            ),
    decreases ps.len(),
{
    if ps.len() > 0 {
        let d = ps.drop_last();
        lemma_points_ok(d);
        assert forall|i: int| 0 <= i < ps.len() implies crate::model::point_ok(
            #[trigger] ps[i],
            if i == 0 {
                0
            } else {
                ps[i - 1].frequency
            },
        ) by {
            if i < ps.len() - 1 {
                assert(ps[i] == d[i]);
                if i > 0 {
                    assert(ps[i - 1] == d[i - 1]);
                }
            }
        }
    }
}

fn push_word(out: &mut Vec<char>, Ghost(start): Ghost<Seq<char>>, Ghost(ws): Ghost<Seq<Seq<char>>>, w: &[char])
    requires
        ws.len() > 0,
        old(out)@ == start + spaced(ws),
    ensures
        final(out)@ == start + spaced(ws.push(w@)),
{
    push_all(out, &[' ']);
    push_all(out, w);
    proof {
        crate::text::lemma_spaced_push(ws, w@);
    }
    assert(out@ =~= start + spaced(ws.push(w@)));
}

fn push_filter(out: &mut Vec<char>, n: usize, f: &Filter)
    requires
        f.frequency.wf(),
        f.gain.wf(),
        f.q.wf(),
    ensures
        final(out)@ == old(out)@ + filter_text(n as nat, f@),
{
    let ghost start = out@;
    let ghost fv = f@;
    let ghost ws = filter_words(n as nat, fv);
    push_all(out, &['F', 'i', 'l', 't', 'e', 'r']);
    let ghost p1 = seq![seq!['F', 'i', 'l', 't', 'e', 'r']];
    assert(out@ =~= start + spaced(p1));
    let mut w1: Vec<char> = Vec::new();
    push_nat_text(&mut w1, n as u128);
    w1.push(':');
    assert(w1@ =~= nat_text(n as nat) + seq![':']);
    push_word(out, Ghost(start), Ghost(p1), w1.as_slice());
    let ghost p2 = p1.push(w1@);
    if f.enabled {
        push_word(out, Ghost(start), Ghost(p2), &['O', 'N']);
    } else {
        push_word(out, Ghost(start), Ghost(p2), &['O', 'F', 'F']);
    }
    let ghost p3 = p2.push(t_on_off(f.enabled));
    assert(out@ =~= start + spaced(p3));
    let kind = chars_of(f.kind.as_str());
    push_word(out, Ghost(start), Ghost(p3), kind.as_slice());
    let ghost p4 = p3.push(f.kind@);
    push_word(out, Ghost(start), Ghost(p4), &['F', 'c']);
    let ghost p5 = p4.push(seq!['F', 'c']);
    assert(out@ =~= start + spaced(p5));
    let fr = format_number(f.frequency);
    push_word(out, Ghost(start), Ghost(p5), fr.as_slice());
    let ghost p6 = p5.push(number_text(fv.frequency));
    push_word(out, Ghost(start), Ghost(p6), &['H', 'z']);
    let ghost p7 = p6.push(seq!['H', 'z']);
    assert(out@ =~= start + spaced(p7));
    let ghost mut cur = p7;
    if !crate::model::kind_is_pass(&f.kind) {
        push_word(out, Ghost(start), Ghost(p7), &['G', 'a', 'i', 'n']);
        let ghost p8 = p7.push(seq!['G', 'a', 'i', 'n']);
        let g = format_number(f.gain);
        push_word(out, Ghost(start), Ghost(p8), g.as_slice());
        let ghost p9 = p8.push(number_text(fv.gain));
        push_word(out, Ghost(start), Ghost(p9), &['d', 'B']);
        proof {
            cur = p9.push(seq!['d', 'B']);
        }
        assert(out@ =~= start + spaced(cur));
    }
    assert(out@ =~= start + spaced(cur));
    push_word(out, Ghost(start), Ghost(cur), &['Q']);
    assert(['Q']@ =~= seq!['Q']);
    let ghost pq = cur.push(seq!['Q']);
    assert(out@ =~= start + spaced(pq));
    let q = format_number(f.q);
    push_word(out, Ghost(start), Ghost(pq), q.as_slice());
    let ghost pe = pq.push(number_text(fv.q));
    assert(pe =~= ws);
    push_all(out, &['\n']);
    assert(out@ =~= start + filter_text(n as nat, fv));
}

/// The preset text of a valid profile; the validation message otherwise.
pub fn export(p: &Profile) -> (r: Result<String, String>)
    ensures
        text_result(r) == match profile_error(p@) {
            Some(m) => Err::<Seq<char>, Seq<char>>(m),
            None => Ok::<Seq<char>, Seq<char>>(export_text(p@)),
        },
{
    match validate_profile(p) {
        Err(m) => {
            return Err(m);
        },
        Ok(()) => {},
    }
    proof {
        lemma_valid_values(p@);
    }
    let mut out: Vec<char> = Vec::new();
    push_all(&mut out, &['#', ' ']);
    push_string(&mut out, &p.name);
    push_all(&mut out, &['\n', 'P', 'r', 'e', 'a', 'm', 'p', ':', ' ']);
    push_number(&mut out, p.preamp);
    push_all(&mut out, &[' ', 'd', 'B', '\n']);
    let ghost head = out@;
    let ghost fv = p@.filters;
    let mut i: usize = 0;
    assert(fv.take(0) =~= Seq::<FilterView>::empty());
    assert(out@ =~= head + filters_text(fv.take(0)));
    while i < p.filters.len()
        invariant
            i <= p.filters.len(),
            fv == p@.filters,
            out@ == head + filters_text(fv.take(i as int)),
            forall|k: int|
                0 <= k < fv.len() ==> -LIMIT <= (#[trigger] fv[k]).frequency <= LIMIT && -LIMIT
                    <= fv[k].gain <= LIMIT && -LIMIT <= fv[k].q <= LIMIT,
        decreases p.filters.len() - i,
    {
        assert(fv[i as int] == p.filters@[i as int]@);
        push_filter(&mut out, i + 1, &p.filters[i]);
        proof {
            let t = fv.take(i + 1);
            assert(t.drop_last() =~= fv.take(i as int));
            assert(t.last() == fv[i as int]);
        }
        i += 1;
    }
    assert(fv.take(p.filters.len() as int) =~= fv);
    let ghost mid = out@;
    if p.graphic_eq.len() > 0 {
        push_all(&mut out, &['G', 'r', 'a', 'p', 'h', 'i', 'c', 'E', 'Q', ':', ' ']);
        let ghost gh = out@;
        let ghost pv = p@.graphic_eq;
        let mut j: usize = 0;
        assert(out@ =~= gh + points_text(pv.take(0)));
        while j < p.graphic_eq.len()
            invariant
                j <= p.graphic_eq.len(),
                pv == p@.graphic_eq,
                out@ == gh + points_text(pv.take(j as int)),
                forall|k: int|
                    0 <= k < pv.len() ==> -LIMIT <= (#[trigger] pv[k]).frequency <= LIMIT
                        && -LIMIT <= pv[k].gain <= LIMIT,
            decreases p.graphic_eq.len() - j,
        {
            let pt = p.graphic_eq[j];
            assert(pv[j as int] == pt@);
            if j > 0 {
                push_all(&mut out, &[';', ' ']);
            }
            push_number(&mut out, pt.frequency);
            push_all(&mut out, &[' ']);
            push_number(&mut out, pt.gain);
            proof {
                let t = pv.take(j + 1);
                assert(t.drop_last() =~= pv.take(j as int));
                assert(t.last() == pt@);
                if j == 0 {
                    assert(t[0] == pt@);
                }
            }
            j += 1;
        }
        assert(pv.take(p.graphic_eq.len() as int) =~= pv);
        push_all(&mut out, &['\n']);
    }
    assert(out@ =~= export_text(p@));
    Ok(string_of(out.as_slice()))
}


// ---------------------------------------------------------------------------
// The owned configuration file
// ---------------------------------------------------------------------------
pub open spec fn is_hex(c: char) -> bool {
    is_digit(c) || ('a' <= c && c <= 'f') || ('A' <= c && c <= 'F')
}

/// A Windows endpoint ID: `{8-4-4-4-12}` hexadecimal digits in braces.
pub open spec fn device_guid(d: Seq<char>) -> bool {
    &&& d.len() == 38
    &&& d[0] == '{'
    &&& d[37] == '}'
    &&& forall|i: int|
        1 <= i < 37 ==> if i == 9 || i == 14 || i == 19 || i == 24 {
            #[trigger] d[i] == '-'
        } else {
            is_hex(d[i])
        }
}

/// The text of the owned APO file for a profile on an endpoint.
pub open spec fn generated_text(p: ProfileView, device: Seq<char>) -> Seq<char> {
    "# Managed by Ananda Control. Changes are detected.\nDevice: "@ + device
        + "\nChannel: all\n"@ + export_text(p)
}

pub fn is_device_guid(d: &str) -> (r: bool)
    ensures
        r == device_guid(d@),
{
    let v = chars_of(d);
    if v.len() != 38 || v[0] != '{' || v[37] != '}' {
        return false;
    }
    let mut i: usize = 1;
    while i < 37
        invariant
            v@ == d@,
            v.len() == 38,
            1 <= i <= 37,
            forall|j: int|
                1 <= j < i ==> if j == 9 || j == 14 || j == 19 || j == 24 {
                    #[trigger] v@[j] == '-'
                } else {
                    is_hex(v@[j])
                },
        decreases 37 - i,
    {
        let c = v[i];
        let ok = if i == 9 || i == 14 || i == 19 || i == 24 {
            c == '-'
        } else {
            digit(c) || ('a' <= c && c <= 'f') || ('A' <= c && c <= 'F')
        };
        if !ok {
            return false;
        }
        i += 1;
    }
    true
}

/// The owned APO configuration for a profile: a managed-file header, the
/// endpoint scope and the profile's preset text.
///
/// The endpoint must be a braced Windows endpoint ID, and the profile must
/// be valid. The preset text is read back before it is used; by
/// `export_then_read` that reading gives back the profile, and the one way it
/// can still fail is that two of the fresh random filter IDs it draws
/// coincide, reported as `Filter IDs must be unique`; a profile with fewer
/// than two filters draws no two filter IDs and always succeeds.
pub fn generate(p: &Profile, device: &str) -> (r: Result<String, String>)
    ensures
        !device_guid(device@) ==> text_result(r) == Err::<Seq<char>, Seq<char>>(
            "Select a valid Windows output endpoint"@,
        ),
        device_guid(device@) && profile_error(p@) is Some ==> text_result(r)
            == Err::<Seq<char>, Seq<char>>(profile_error(p@)->0),
        device_guid(device@) && profile_error(p@) is None ==> (text_result(r)
            == Ok::<Seq<char>, Seq<char>>(generated_text(p@, device@)) || text_result(r)
            == Err::<Seq<char>, Seq<char>>(crate::model::msg_filter_ids())),
        device_guid(device@) && profile_error(p@) is None && p@.filters.len() < 2 ==> text_result(r)
            == Ok::<Seq<char>, Seq<char>>(generated_text(p@, device@)),
{
    if !is_device_guid(device) {
        return Err(crate::model::text("Select a valid Windows output endpoint"));
    }
    let body = export(p)?;
    let mut out = crate::model::text("# Managed by Ananda Control. Changes are detected.\nDevice: ");
    out.append(device);
    out.append("\nChannel: all\n");
    out.append(body.as_str());
    let bs = body.as_str();
    let check = parse(bs, p.name.as_str(), "validation");
    proof {
        crate::roundtrip::export_then_read(p@);
        crate::text::lemma_utf8_len(bs@);
        crate::roundtrip::lemma_export_len(p@);
        match profile_result(check) {
            Ok(_) => {},
            Err(m) => {
                {
                    let st = crate::roundtrip::content_of(p@);
                    let (id, fids) = choose|id: Seq<char>, fids: Seq<Seq<char>>|
                        fresh_ids(id, fids, st.filters.len()) && profile_result(check) == checked(
                            #[trigger] profile_of(st, id, fids, p@.name, "validation"@),
                        );
                    assert(st.filters.len() == p@.filters.len());
                    crate::roundtrip::lemma_reread_valid(p@, id, fids, "validation"@);
                }
            },
        }
    }
    match check {
        Ok(_) => Ok(out),
        Err(m) => Err(m),
    }
}

} // verus!
