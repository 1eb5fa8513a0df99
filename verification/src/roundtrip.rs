//! Reading back what `export` writes gives back the profile's content.

use vstd::prelude::*;
use crate::apo::{
    DraftView, ReadView, directive_of, directive_step, export_text, filter_step, filter_text,
    filters_text, filter_words, graphic_points, graphic_text, pieces, point_text, points_text,
    read_lines, read_preset, read_start, profile_of, fresh_ids, filter_of, t_comment, t_db_line,
    t_graphic, t_on_off, t_separator,
};
use crate::decimal::{LIMIT, number_text, nat_text, number_char, is_digit, lemma_number_text_chars, lemma_nat_text, lemma_number_text_roundtrip, number_value};
use crate::model::{FilterView, PointView, ProfileView, profile_error, is_pass_kind, supported_kind};
use crate::text::{
    Class, find, lemma_find_bounds, lemma_find_skip, lines_of, in_class, free_of, spaced, plain_word,
    plain_words, words, lemma_words_spaced, lemma_spaced_free, lemma_spaced_ends, lemma_trim_plain,
    lemma_one_line, lemma_find_none, is_space, lemma_lines_concat, lemma_words_step,
    lemma_words_leading_space, lemma_spaced_push,
};

verus! {

/// Reading lines in two parts reads the first part, then the second.
pub proof fn lemma_read_concat(l1: Seq<Seq<char>>, l2: Seq<Seq<char>>, no: nat, st: ReadView)
    ensures
        read_lines(l1 + l2, no, st) == match read_lines(l1, no, st) {
            Err(m) => Err(m),
            Ok(s) => read_lines(l2, no + l1.len(), s),
        },
    decreases l1.len(),
{
    if l1.len() == 0 {
        assert(l1 + l2 =~= l2);
    } else {
        assert((l1 + l2)[0] == l1[0]);
        assert((l1 + l2).drop_first() =~= l1.drop_first() + l2);
        match directive_step(st, no, directive_of(l1[0])) {
            Err(m) => {},
            Ok(next) => {
                lemma_read_concat(l1.drop_first(), l2, no + 1, next);
            },
        }
    }
}

/// Pieces of `a;b` are the pieces of `a` and then those of `b`.
pub proof fn lemma_pieces_concat(a: Seq<char>, b: Seq<char>)
    ensures
        pieces(a + seq![';'] + b) == pieces(a) + pieces(b),
    decreases a.len(),
{
    let s = a + seq![';'] + b;
    let e = find(a, Class::Semicolon);
    lemma_find_bounds(a, Class::Semicolon);
    assert forall|j: int| 0 <= j < e implies !in_class(#[trigger] s[j], Class::Semicolon) by {
        assert(s[j] == a[j]);
    }
    lemma_find_skip(s, e, Class::Semicolon);
    if e < a.len() {
        assert(s.skip(e)[0] == a[e]);
        assert(find(s, Class::Semicolon) == e);
        assert(s.take(e) =~= a.take(e));
        let a2 = a.skip(e + 1);
        assert(s.skip(e + 1) =~= a2 + seq![';'] + b);
        lemma_pieces_concat(a2, b);
        assert(pieces(a) == seq![a.take(e)] + pieces(a2));
        assert(seq![a.take(e)] + (pieces(a2) + pieces(b)) =~= (seq![a.take(e)] + pieces(a2))
            + pieces(b));
    } else {
        assert(s.skip(e)[0] == ';');
        assert(find(s, Class::Semicolon) == e);
        assert(s.take(e) =~= a);
        assert(s.skip(e + 1) =~= b);
        assert(pieces(a) == seq![a]);
    }
}

pub proof fn lemma_filters_text_end(fs: Seq<FilterView>)
    ensures
        filters_text(fs).len() == 0 || filters_text(fs).last() == '\n',
    decreases fs.len(),
{
    if fs.len() > 0 {
        lemma_filters_text_end(fs.drop_last());
    }
}


proof fn lemma_ci_literals()
    ensures
        crate::decimal::ascii_ci_eq(seq!['F', 'i', 'l', 't', 'e', 'r'], crate::apo::w_filter()),
        crate::decimal::ascii_ci_eq(seq!['O', 'N'], crate::apo::w_on()),
        !crate::decimal::ascii_ci_eq(seq!['O', 'F', 'F'], crate::apo::w_on()),
        crate::decimal::ascii_ci_eq(seq!['O', 'F', 'F'], crate::apo::w_off()),
        crate::decimal::ascii_ci_eq(seq!['F', 'c'], crate::apo::w_fc()),
        crate::decimal::ascii_ci_eq(seq!['H', 'z'], crate::apo::w_hz()),
        crate::decimal::ascii_ci_eq(seq!['G', 'a', 'i', 'n'], crate::apo::w_gain()),
        crate::decimal::ascii_ci_eq(seq!['d', 'B'], crate::apo::w_db()),
        crate::decimal::ascii_ci_eq(seq!['Q'], crate::apo::w_q()),
        !crate::decimal::ascii_ci_eq(seq!['Q'], crate::apo::w_gain()),
        crate::decimal::ascii_ci_eq(seq!['P', 'r', 'e', 'a', 'm', 'p', ':'], crate::apo::w_preamp()),
        crate::decimal::ascii_ci_eq(
            seq!['G', 'r', 'a', 'p', 'h', 'i', 'c', 'E', 'Q', ':'],
            crate::apo::w_graphic(),
        ),
        !crate::decimal::ascii_ci_eq(seq!['G', 'r', 'a', 'p', 'h', 'i', 'c'], crate::apo::w_preamp()),
{
    assert(crate::decimal::lower('F') == 'f');
    assert(crate::decimal::lower('O') == 'o');
    assert(crate::decimal::lower('N') == 'n');
    assert(crate::decimal::lower('H') == 'h');
    assert(crate::decimal::lower('G') == 'g');
    assert(crate::decimal::lower('B') == 'b');
    assert(crate::decimal::lower('Q') == 'q');
    assert(crate::decimal::lower('P') == 'p');
    assert(crate::decimal::lower('E') == 'e');
    assert(!crate::decimal::ascii_ci_eq(seq!['O', 'F', 'F'], crate::apo::w_on()));
    assert(!crate::decimal::ascii_ci_eq(seq!['Q'], crate::apo::w_gain()));
    assert(!crate::decimal::ascii_ci_eq(seq!['G', 'r', 'a', 'p', 'h', 'i', 'c'], crate::apo::w_preamp()))
        by {
        assert(crate::decimal::lower(seq!['G', 'r', 'a', 'p', 'h', 'i', 'c'][0]) != crate::apo::w_preamp()[0]);
    }
}


pub open spec fn wf_filter(f: FilterView) -> bool {
    &&& supported_kind(f.kind)
    &&& -LIMIT <= f.frequency <= LIMIT
    &&& -LIMIT <= f.gain <= LIMIT
    &&& -LIMIT <= f.q <= LIMIT
}

proof fn lemma_number_word(u: int)
    requires
        -LIMIT <= u <= LIMIT,
    ensures
        plain_word(number_text(u)),
        crate::apo::num_word(number_text(u)),
        free_of(number_text(u), Class::Hash),
        free_of(number_text(u), Class::Newline),
        free_of(number_text(u), Class::Semicolon),
        is_digit(number_text(u).last()),
{
    lemma_number_text_chars(u);
    let t = number_text(u);
    assert forall|i: int| 0 <= i < t.len() implies !in_class(#[trigger] t[i], Class::Space) by {
        assert(number_char(t[i]));
    }
    assert forall|i: int| 0 <= i < t.len() implies crate::apo::is_num_char(#[trigger] t[i]) by {
        assert(number_char(t[i]));
    }
    assert forall|i: int| 0 <= i < t.len() implies !in_class(#[trigger] t[i], Class::Hash) by {
        assert(number_char(t[i]));
    }
    assert forall|i: int| 0 <= i < t.len() implies !in_class(#[trigger] t[i], Class::Newline) by {
        assert(number_char(t[i]));
    }
    assert forall|i: int| 0 <= i < t.len() implies !in_class(#[trigger] t[i], Class::Semicolon) by {
        assert(number_char(t[i]));
    }
}

proof fn lemma_literal_free(w: Seq<char>)
    requires
        forall|i: int| 0 <= i < w.len() ==> ('A' <= #[trigger] w[i] <= 'Z' || 'a' <= w[i] <= 'z'
            || w[i] == ':'),
    ensures
        free_of(w, Class::Space),
        free_of(w, Class::Hash),
        free_of(w, Class::Newline),
        free_of(w, Class::Semicolon),
{
}

proof fn lemma_filter_words_plain(n: nat, f: FilterView)
    requires
        wf_filter(f),
    ensures
        plain_words(filter_words(n, f)),
        forall|i: int|
            0 <= i < filter_words(n, f).len() ==> free_of(#[trigger] filter_words(n, f)[i], Class::Hash)
                && free_of(filter_words(n, f)[i], Class::Newline),
        filter_words(n, f).last() == number_text(f.q),
        filter_words(n, f)[0] == seq!['F', 'i', 'l', 't', 'e', 'r'],
{
    let ws = filter_words(n, f);
    lemma_number_word(f.frequency);
    lemma_number_word(f.gain);
    lemma_number_word(f.q);
    lemma_nat_text(n);
    let w1 = nat_text(n) + seq![':'];
    assert forall|i: int| 0 <= i < w1.len() implies !in_class(#[trigger] w1[i], Class::Space)
        && !in_class(w1[i], Class::Hash) && !in_class(w1[i], Class::Newline) by {
        if i < nat_text(n).len() {
            assert(w1[i] == nat_text(n)[i]);
            assert(is_digit(nat_text(n)[i]));
        }
    }
    lemma_literal_free(seq!['F', 'i', 'l', 't', 'e', 'r']);
    lemma_literal_free(t_on_off(f.enabled));
    lemma_literal_free(seq!['F', 'c']);
    lemma_literal_free(seq!['H', 'z']);
    lemma_literal_free(seq!['G', 'a', 'i', 'n']);
    lemma_literal_free(seq!['d', 'B']);
    lemma_literal_free(seq!['Q']);
    lemma_literal_free(f.kind);
    assert forall|i: int| 0 <= i < ws.len() implies plain_word(#[trigger] ws[i]) && free_of(
        ws[i],
        Class::Hash,
    ) && free_of(ws[i], Class::Newline) by {
    }
}


/// What a written filter line reads back as: everything but the ID, and
/// the gain only for filters that take one (pass filters read back 0).
pub open spec fn draft_of(f: FilterView) -> DraftView {
    DraftView {
        kind: f.kind,
        enabled: f.enabled,
        frequency: f.frequency,
        gain: if is_pass_kind(f.kind) {
            0
        } else {
            f.gain
        },
        q: f.q,
    }
}

proof fn lemma_kind_word(k: Seq<char>)
    requires
        supported_kind(k),
    ensures
        crate::apo::kind_word(k),
        crate::apo::upper_word(k) == k,
        crate::apo::canonical_kind(k) == k,
        crate::apo::requires_q(k),
{
    assert(crate::apo::upper_word(k) =~= k);
    assert(crate::apo::folded_word(k) =~= k);
}

/// A line without newline: what it holds, read as a directive.
proof fn lemma_single_line(c: Seq<char>, st: ReadView, no: nat)
    requires
        c.len() > 0,
        free_of(c, Class::Newline),
        free_of(c, Class::Hash),
        !is_space(c[0]),
        !is_space(c.last()),
        c.last() != '\r',
    ensures
        read_lines(lines_of(c + seq!['\n']), no, st) == match directive_step(st, no, c) {
            Err(m) => Err(m),
            Ok(s) => Ok(s),
        },
{
    lemma_one_line(c);
    lemma_find_none(c, Class::Hash);
    assert(c.take(c.len() as int) =~= c);
    lemma_trim_plain(c);
    assert(directive_of(c) == c);
    let ls = seq![c];
    assert(ls[0] == c);
    assert(ls.drop_first() =~= Seq::<Seq<char>>::empty());
    match directive_step(st, no, c) {
        Err(m) => {
            assert(read_lines(ls, no, st) == Err::<ReadView, Seq<char>>(m));
        },
        Ok(s) => {
            assert(read_lines(Seq::<Seq<char>>::empty(), no + 1, s) == Ok::<ReadView, Seq<char>>(s));
            assert(read_lines(ls, no, st) == Ok::<ReadView, Seq<char>>(s));
        },
    }
}

#[verifier::spinoff_prover]
#[verifier::rlimit(40)]
proof fn lemma_read_filter_line(n: nat, f: FilterView, st: ReadView, no: nat)
    requires
        wf_filter(f),
    ensures
        read_lines(lines_of(filter_text(n, f)), no, st) == Ok::<ReadView, Seq<char>>(
            ReadView { filters: st.filters.push(draft_of(f)), recognized: true, ..st },
        ),
{
    let ws = filter_words(n, f);
    let c = spaced(ws);
    lemma_filter_words_plain(n, f);
    lemma_words_spaced(ws);
    lemma_spaced_free(ws, Class::Hash);
    lemma_spaced_free(ws, Class::Newline);
    lemma_spaced_ends(ws);
    lemma_number_word(f.q);
    lemma_number_word(f.frequency);
    lemma_number_word(f.gain);
    lemma_ci_literals();
    lemma_kind_word(f.kind);
    lemma_nat_text(n);
    lemma_number_text_roundtrip(f.frequency);
    lemma_number_text_roundtrip(f.gain);
    lemma_number_text_roundtrip(f.q);
    assert(ws[0][0] == 'F');
    assert(c.last() == number_text(f.q).last());
    lemma_single_line(c, st, no);
    assert(words(c) == ws);
    assert(crate::apo::preamp_token(c) is None);
    assert(crate::apo::index_word(ws[1])) by {
        assert(ws[1].drop_last() =~= nat_text(n));
    }
    assert(crate::decimal::ascii_ci_eq(ws[2], crate::apo::w_on()) || crate::decimal::ascii_ci_eq(
        ws[2],
        crate::apo::w_off(),
    ));
    assert(crate::apo::filter_line(ws));
    let expected = ReadView { filters: st.filters.push(draft_of(f)), recognized: true, ..st };
    assert(crate::decimal::ascii_ci_eq(ws[2], crate::apo::w_on()) == f.enabled);
    if is_pass_kind(f.kind) {
        assert(!crate::apo::gain_at(ws, 7));
        assert(crate::apo::q_at(ws, 7));
    } else {
        assert(crate::apo::gain_at(ws, 7));
        assert(!crate::apo::q_at(ws, 7));
        assert(crate::apo::q_at(ws, 10));
    }
    let raw = crate::apo::upper_word(ws[3]);
    assert(raw == f.kind);
    assert(crate::apo::canonical_kind(raw) == f.kind);
    let g = crate::apo::gain_token(ws);
    let q = crate::apo::q_token(ws);
    assert(q == Some(number_text(f.q)));
    assert(!is_pass_kind(f.kind) ==> g == Some(number_text(f.gain)));
    assert(is_pass_kind(f.kind) ==> g is None);
    assert(number_value(ws[5]) == Some(f.frequency));
    let d = DraftView {
        kind: f.kind,
        enabled: f.enabled,
        frequency: f.frequency,
        gain: match g {
            Some(t) => number_value(t)->0,
            None => 0,
        },
        q: match q {
            Some(t) => number_value(t)->0,
            None => crate::apo::default_q(),
        },
    };
    assert(d.q == f.q);
    assert(d.gain == if is_pass_kind(f.kind) { 0 } else { f.gain });
    assert(filter_step(st, no, ws) == Ok::<ReadView, Seq<char>>(ReadView { filters: st.filters.push(d), recognized: true, ..st }));
    assert(filter_step(st, no, ws) == Ok::<ReadView, Seq<char>>(expected));
    assert(directive_step(st, no, c) == Ok::<ReadView, Seq<char>>(expected));
}


pub open spec fn drafts_of(fs: Seq<FilterView>) -> Seq<DraftView> {
    fs.map_values(|f: FilterView| draft_of(f))
}

proof fn lemma_read_filters(fs: Seq<FilterView>, st: ReadView, no: nat)
    requires
        st.recognized,
        forall|i: int| 0 <= i < fs.len() ==> wf_filter(#[trigger] fs[i]),
    ensures
        read_lines(lines_of(filters_text(fs)), no, st) == Ok::<ReadView, Seq<char>>(
            ReadView { filters: st.filters + drafts_of(fs), ..st },
        ),
    decreases fs.len(),
{
    if fs.len() == 0 {
        assert(filters_text(fs) =~= Seq::<char>::empty());
        assert(lines_of(Seq::<char>::empty()) =~= Seq::<Seq<char>>::empty());
        assert(st.filters + drafts_of(fs) =~= st.filters);
        assert(ReadView { filters: st.filters + drafts_of(fs), ..st } == st);
    } else {
        let init = fs.drop_last();
        let a = filters_text(init);
        let b = filter_text(fs.len(), fs.last());
        lemma_filters_text_end(init);
        lemma_lines_concat(a, b);
        assert(filters_text(fs) == a + b);
        lemma_read_concat(lines_of(a), lines_of(b), no, st);
        assert forall|i: int| 0 <= i < init.len() implies wf_filter(#[trigger] init[i]) by {
            assert(init[i] == fs[i]);
        }
        lemma_read_filters(init, st, no);
        let s1 = ReadView { filters: st.filters + drafts_of(init), ..st };
        assert(wf_filter(fs[fs.len() - 1]));
        lemma_read_filter_line(fs.len(), fs.last(), s1, no + lines_of(a).len());
        assert(s1.filters.push(draft_of(fs.last())) =~= st.filters + drafts_of(fs));
    }
}

proof fn lemma_point_words(pt: PointView)
    requires
        -LIMIT <= pt.frequency <= LIMIT,
        -LIMIT <= pt.gain <= LIMIT,
    ensures
        point_text(pt) == spaced(seq![number_text(pt.frequency), number_text(pt.gain)]),
        words(seq![' '] + point_text(pt)) == seq![number_text(pt.frequency), number_text(pt.gain)],
        free_of(point_text(pt), Class::Semicolon),
        free_of(point_text(pt), Class::Hash),
        free_of(point_text(pt), Class::Newline),
        point_text(pt).len() > 0,
        is_digit(point_text(pt).last()),
{
    let ws = seq![number_text(pt.frequency), number_text(pt.gain)];
    lemma_number_word(pt.frequency);
    lemma_number_word(pt.gain);
    lemma_spaced_push(seq![number_text(pt.frequency)], number_text(pt.gain));
    assert(seq![number_text(pt.frequency)].push(number_text(pt.gain)) =~= ws);
    assert(point_text(pt) == spaced(ws));
    assert(plain_words(ws));
    lemma_words_spaced(ws);
    lemma_words_leading_space(point_text(pt));
    lemma_spaced_free(ws, Class::Semicolon);
    lemma_spaced_free(ws, Class::Hash);
    lemma_spaced_free(ws, Class::Newline);
    lemma_spaced_ends(ws);
}

pub open spec fn wf_point(pt: PointView) -> bool {
    -LIMIT <= pt.frequency <= LIMIT && -LIMIT <= pt.gain <= LIMIT
}

pub open spec fn point_items(ps: Seq<PointView>) -> Seq<Seq<char>> {
    Seq::new(ps.len(), |i: int| seq![' '] + point_text(ps[i]))
}

proof fn lemma_points_pieces(ps: Seq<PointView>)
    requires
        ps.len() > 0,
        forall|i: int| 0 <= i < ps.len() ==> wf_point(#[trigger] ps[i]),
    ensures
        pieces(seq![' '] + points_text(ps)) == point_items(ps),
        free_of(points_text(ps), Class::Hash),
        free_of(points_text(ps), Class::Newline),
        is_digit(points_text(ps).last()),
        points_text(ps).len() > 0,
    decreases ps.len(),
{
    let last = ps.last();
    assert(wf_point(ps[ps.len() - 1]));
    lemma_point_words(last);
    let x = seq![' '] + point_text(last);
    assert(free_of(x, Class::Semicolon)) by {
        assert forall|i: int| 0 <= i < x.len() implies !in_class(#[trigger] x[i], Class::Semicolon) by {
            if i > 0 {
                assert(x[i] == point_text(last)[i - 1]);
            }
        }
    }
    lemma_find_none(x, Class::Semicolon);
    assert(pieces(x) == seq![x]);
    if ps.len() == 1 {
        assert(points_text(ps) == point_text(ps[0]));
        assert(point_items(ps) =~= seq![x]);
    } else {
        let init = ps.drop_last();
        assert forall|i: int| 0 <= i < init.len() implies wf_point(#[trigger] init[i]) by {
            assert(init[i] == ps[i]);
        }
        lemma_points_pieces(init);
        let a = seq![' '] + points_text(init);
        assert(seq![' '] + points_text(ps) =~= a + seq![';'] + x);
        lemma_pieces_concat(a, x);
        assert(point_items(ps) =~= point_items(init) + seq![x]);
        let t = points_text(ps);
        assert(t == points_text(init) + t_separator() + point_text(last));
        assert forall|i: int| 0 <= i < t.len() implies !in_class(#[trigger] t[i], Class::Hash)
            && !in_class(t[i], Class::Newline) by {
            let n1 = points_text(init).len();
            if i < n1 {
                assert(t[i] == points_text(init)[i]);
            } else if i >= n1 + 2 {
                assert(t[i] == point_text(last)[i - n1 - 2]);
            }
        }
        assert(t.last() == point_text(last).last());
    }
}

proof fn lemma_graphic_items(ps: Seq<PointView>, no: nat)
    requires
        forall|i: int| 0 <= i < ps.len() ==> wf_point(#[trigger] ps[i]),
    ensures
        graphic_points(point_items(ps), no) == Ok::<Seq<PointView>, Seq<char>>(ps),
    decreases ps.len(),
{
    let items = point_items(ps);
    if ps.len() == 0 {
        assert(items =~= Seq::<Seq<char>>::empty());
        assert(ps =~= Seq::<PointView>::empty());
    } else {
        let rest = ps.drop_first();
        assert forall|i: int| 0 <= i < rest.len() implies wf_point(#[trigger] rest[i]) by {
            assert(rest[i] == ps[i + 1]);
        }
        lemma_graphic_items(rest, no);
        assert(items.drop_first() =~= point_items(rest));
        assert(wf_point(ps[0]));
        lemma_point_words(ps[0]);
        lemma_number_text_roundtrip(ps[0].frequency);
        lemma_number_text_roundtrip(ps[0].gain);
        assert(items[0] == seq![' '] + point_text(ps[0]));
        assert(seq![ps[0]] + rest =~= ps);
    }
}

proof fn lemma_read_graphic(ps: Seq<PointView>, st: ReadView, no: nat)
    requires
        ps.len() > 0,
        st.graphic_eq.len() == 0,
        forall|i: int| 0 <= i < ps.len() ==> wf_point(#[trigger] ps[i]),
    ensures
        read_lines(lines_of(graphic_text(ps)), no, st) == Ok::<ReadView, Seq<char>>(
            ReadView { graphic_eq: ps, recognized: true, ..st },
        ),
{
    let head = seq!['G', 'r', 'a', 'p', 'h', 'i', 'c', 'E', 'Q', ':'];
    let pt = points_text(ps);
    let c = t_graphic() + pt;
    lemma_points_pieces(ps);
    assert(graphic_text(ps) == c + seq!['\n']);
    assert(free_of(c, Class::Hash) && free_of(c, Class::Newline)) by {
        assert forall|i: int| 0 <= i < c.len() implies !in_class(#[trigger] c[i], Class::Hash)
            && !in_class(c[i], Class::Newline) by {
            if i >= 11 {
                assert(c[i] == pt[i - 11]);
            }
        }
    }
    assert(c.last() == pt.last());
    lemma_single_line(c, st, no);
    // the first word is `GraphicEQ:`
    assert forall|x: int| 0 <= x < 10 implies !is_space(#[trigger] c[x]) by {}
    lemma_words_step(c, 0, 10);
    assert(c.subrange(0, 10) =~= head);
    let ws = words(c);
    assert(ws[0] == head);
    lemma_ci_literals();
    assert(ws[0].take(7) =~= seq!['G', 'r', 'a', 'p', 'h', 'i', 'c']);
    assert(crate::apo::preamp_token(c) is None);
    assert(!crate::apo::filter_line(ws));
    assert(c.take(10) =~= head);
    assert(crate::apo::graphic_line(c));
    assert(c.skip(10) =~= seq![' '] + pt);
    lemma_graphic_items(ps, no);
}


pub open spec fn content_of(p: ProfileView) -> ReadView {
    ReadView {
        preamp: p.preamp,
        seen_preamp: true,
        recognized: true,
        filters: drafts_of(p.filters),
        graphic_eq: p.graphic_eq,
    }
}

proof fn lemma_read_preamp(u: int, st: ReadView, no: nat)
    requires
        -LIMIT <= u <= LIMIT,
        !st.seen_preamp,
    ensures
        read_lines(lines_of(preamp_line(u)), no, st) == Ok::<ReadView, Seq<char>>(
            ReadView { preamp: u, seen_preamp: true, recognized: true, ..st },
        ),
{
    let w0 = seq!['P', 'r', 'e', 'a', 'm', 'p', ':'];
    let w2 = seq!['d', 'B'];
    let ws = seq![w0, number_text(u), w2];
    lemma_number_word(u);
    lemma_number_text_roundtrip(u);
    lemma_spaced_push(seq![w0], number_text(u));
    lemma_spaced_push(seq![w0, number_text(u)], w2);
    assert(seq![w0].push(number_text(u)) =~= seq![w0, number_text(u)]);
    assert(seq![w0, number_text(u)].push(w2) =~= ws);
    let c = spaced(ws);
    assert(seq!['P', 'r', 'e', 'a', 'm', 'p', ':', ' '] + number_text(u) + t_db_line() =~= c
        + seq!['\n']);
    lemma_literal_free(w0);
    lemma_literal_free(w2);
    assert(plain_words(ws));
    lemma_words_spaced(ws);
    lemma_spaced_free(ws, Class::Hash);
    lemma_spaced_free(ws, Class::Newline);
    lemma_spaced_ends(ws);
    lemma_single_line(c, st, no);
    lemma_ci_literals();
    assert(crate::apo::preamp_token(c) == Some(number_text(u)));
}

proof fn lemma_read_comment(name: Seq<char>, st: ReadView, no: nat)
    ensures
        read_lines(seq![t_comment() + name], no, st) == Ok::<ReadView, Seq<char>>(st),
{
    let h1 = t_comment() + name;
    let l1 = seq![h1];
    assert(h1[0] == '#');
    assert(in_class(h1[0], Class::Hash));
    assert(find(h1, Class::Hash) == 0);
    assert(h1.take(0) =~= Seq::<char>::empty());
    assert(crate::text::trim_start(Seq::<char>::empty()) =~= Seq::<char>::empty());
    assert(crate::text::trim_end(Seq::<char>::empty()) =~= Seq::<char>::empty());
    assert(directive_of(h1) =~= Seq::<char>::empty());
    assert(l1[0] == h1);
    assert(directive_step(st, no, directive_of(l1[0])) == Ok::<ReadView, Seq<char>>(st));
    assert(l1.drop_first() =~= Seq::<Seq<char>>::empty());
    assert(read_lines(Seq::<Seq<char>>::empty(), no + 1, st) == Ok::<ReadView, Seq<char>>(st));
}

pub open spec fn preamp_line(u: int) -> Seq<char> {
    seq!['P', 'r', 'e', 'a', 'm', 'p', ':', ' '] + number_text(u) + t_db_line()
}

proof fn lemma_export_lines(p: ProfileView)
    requires
        crate::model::name_ok(p.name),
    ensures
        lines_of(export_text(p)) == seq![t_comment() + p.name] + (lines_of(preamp_line(p.preamp))
            + (lines_of(filters_text(p.filters)) + lines_of(graphic_text(p.graphic_eq)))),
{
    let h1 = t_comment() + p.name;
    let h2 = preamp_line(p.preamp);
    let f = filters_text(p.filters);
    let g = graphic_text(p.graphic_eq);
    let t = export_text(p);
    assert(t =~= (h1 + seq!['\n']) + (h2 + (f + g)));
    assert(free_of(h1, Class::Newline)) by {
        assert forall|i: int| 0 <= i < h1.len() implies !in_class(#[trigger] h1[i], Class::Newline) by {
            if i >= 2 {
                assert(h1[i] == p.name[i - 2]);
                assert(p.name.contains(h1[i]));
            }
        }
    }
    assert(h1.last() != '\r') by {
        if p.name.len() > 0 {
            assert(h1.last() == p.name.last());
            assert(p.name.contains(p.name.last()));
        }
    }
    lemma_one_line(h1);
    lemma_lines_concat(h1 + seq!['\n'], h2 + (f + g));
    assert(h2.last() == '\n');
    lemma_lines_concat(h2, f + g);
    lemma_filters_text_end(p.filters);
    lemma_lines_concat(f, g);
}

/// Reading back what `export` writes for a valid profile gives its preamp,
/// its filters without IDs (pass filters with gain 0, as they are written
/// without one) and its graphic points.
#[verifier::spinoff_prover]
pub proof fn export_then_read(p: ProfileView)
    requires
        profile_error(p) is None,
    ensures
        read_preset(export_text(p)) == Ok::<ReadView, Seq<char>>(content_of(p)),
{
    crate::apo::lemma_valid_values(p);
    let t = export_text(p);
    lemma_export_lines(p);
    let l1 = seq![t_comment() + p.name];
    let l2 = lines_of(preamp_line(p.preamp));
    let l3 = lines_of(filters_text(p.filters));
    let l4 = lines_of(graphic_text(p.graphic_eq));
    let s0 = read_start();
    lemma_read_comment(p.name, s0, 1);
    lemma_read_concat(l1, l2 + (l3 + l4), 1, s0);
    lemma_read_preamp(p.preamp, s0, 2);
    let s1 = ReadView { preamp: p.preamp, seen_preamp: true, recognized: true, ..s0 };
    lemma_read_concat(l2, l3 + l4, 2, s0);
    assert forall|i: int| 0 <= i < p.filters.len() implies wf_filter(#[trigger] p.filters[i]) by {}
    lemma_read_filters(p.filters, s1, 2 + l2.len());
    let s2 = ReadView { filters: s1.filters + drafts_of(p.filters), ..s1 };
    lemma_read_concat(l3, l4, 2 + l2.len(), s1);
    assert(s1.filters + drafts_of(p.filters) =~= drafts_of(p.filters));
    if p.graphic_eq.len() > 0 {
        assert forall|i: int| 0 <= i < p.graphic_eq.len() implies wf_point(#[trigger] p.graphic_eq[i]) by {}
        lemma_read_graphic(p.graphic_eq, s2, 2 + l2.len() + l3.len());
    } else {
        assert(graphic_text(p.graphic_eq) =~= Seq::<char>::empty());
        assert(l4 =~= Seq::<Seq<char>>::empty());
        assert(p.graphic_eq =~= Seq::<PointView>::empty());
        assert(read_lines(l4, 2 + l2.len() + l3.len(), s2) == Ok::<ReadView, Seq<char>>(s2));
    }
    let s3 = content_of(p);
    assert(read_lines(l4, 2 + l2.len() + l3.len(), s2) == Ok::<ReadView, Seq<char>>(s3)) by {
        if p.graphic_eq.len() == 0 {
            assert(s2 == s3);
        } else {
            assert(ReadView { graphic_eq: p.graphic_eq, recognized: true, ..s2 } == s3);
        }
    }
    assert(read_lines(l3 + l4, 2 + l2.len(), s1) == Ok::<ReadView, Seq<char>>(s3));
    assert(read_lines(l2 + (l3 + l4), 2, s0) == Ok::<ReadView, Seq<char>>(s3));
    assert(read_lines(lines_of(t), 1, s0) == Ok::<ReadView, Seq<char>>(s3));
    assert(t[0] == '#');
    assert(crate::text::strip_bom(t) == t);
}


proof fn lemma_refilter(fs: Seq<FilterView>, ids: Seq<Seq<char>>)
    requires
        crate::model::filters_error(fs) is None,
        ids.len() == fs.len(),
    ensures
        ({
            let gs = Seq::new(fs.len(), |i: int| filter_of(draft_of(fs[i]), ids[i]));
            &&& crate::model::filters_error(gs) is None || crate::model::filters_error(gs) == Some(
                crate::model::msg_filter_ids(),
            )
            &&& fs.len() < 2 ==> crate::model::filters_error(gs) is None
        }),
    decreases fs.len(),
{
    let gs = Seq::new(fs.len(), |i: int| filter_of(draft_of(fs[i]), ids[i]));
    if fs.len() > 0 {
        let n = fs.len() - 1;
        let fi = fs.drop_last();
        let ii = ids.drop_last();
        crate::apo::lemma_filters_ok(fs);
        assert(crate::model::filters_error(fi) is None) by {
            assert(crate::model::filters_error(fs) is None);
        }
        lemma_refilter(fi, ii);
        let gi = Seq::new(fi.len(), |i: int| filter_of(draft_of(fi[i]), ii[i]));
        assert(gs.drop_last() =~= gi);
        assert(crate::model::filter_error(fs[n], fs.take(n)) is None);
        let g = gs.last();
        assert(g == filter_of(draft_of(fs[n]), ids[n]));
        if !crate::model::id_among(g.id, gs.drop_last()) {
            assert(crate::model::filter_error(g, gs.drop_last()) is None);
        }
        if fs.len() < 2 {
            assert(gs.drop_last().len() == 0);
            assert(!crate::model::id_among(g.id, gs.drop_last()));
        }
    }
}

/// A profile read back from its own export, with fresh IDs, passes
/// validation unless two of the fresh filter IDs coincide; with fewer than
/// two filters it always passes.
pub proof fn lemma_reread_valid(
    p: ProfileView,
    id: Seq<char>,
    filter_ids: Seq<Seq<char>>,
    provenance: Seq<char>,
)
    requires
        profile_error(p) is None,
        fresh_ids(id, filter_ids, p.filters.len()),
    ensures
        profile_error(profile_of(content_of(p), id, filter_ids, p.name, provenance)) is None
            || profile_error(profile_of(content_of(p), id, filter_ids, p.name, provenance)) == Some(
            crate::model::msg_filter_ids(),
        ),
        p.filters.len() < 2 ==> profile_error(
            profile_of(content_of(p), id, filter_ids, p.name, provenance),
        ) is None,
{
    let q = profile_of(content_of(p), id, filter_ids, p.name, provenance);
    lemma_refilter(p.filters, filter_ids);
    assert(q.filters =~= Seq::new(
        p.filters.len(),
        |i: int| filter_of(draft_of(p.filters[i]), filter_ids[i]),
    ));
    assert(q.id.len() == 36);
    assert(q.id != crate::model::stock_id());
}


// ---------------------------------------------------------------------------
// Lines of exported text
// ---------------------------------------------------------------------------
/// A line that starts with `Filter `.
pub open spec fn starts_filter(l: Seq<char>) -> bool {
    l.len() >= 7 && l.take(7) == seq!['F', 'i', 'l', 't', 'e', 'r', ' ']
}

/// A line that starts with `GraphicEQ: `.
pub open spec fn starts_graphic(l: Seq<char>) -> bool {
    l.len() >= 11 && l.take(11) == t_graphic()
}

/// How many lines start with `Filter `.
pub open spec fn filter_line_count(ls: Seq<Seq<char>>) -> nat
    decreases ls.len(),
{
    if ls.len() == 0 {
        0
    } else {
        filter_line_count(ls.drop_last()) + if starts_filter(ls.last()) {
            1nat
        } else {
            0nat
        }
    }
}

pub open spec fn has_graphic_line(ls: Seq<Seq<char>>) -> bool {
    exists|i: int| 0 <= i < ls.len() && starts_graphic(#[trigger] ls[i])
}

proof fn lemma_count_concat(a: Seq<Seq<char>>, b: Seq<Seq<char>>)
    ensures
        filter_line_count(a + b) == filter_line_count(a) + filter_line_count(b),
    decreases b.len(),
{
    if b.len() == 0 {
        assert(a + b =~= a);
    } else {
        assert((a + b).drop_last() =~= a + b.drop_last());
        lemma_count_concat(a, b.drop_last());
    }
}

proof fn lemma_filter_line(n: nat, f: FilterView)
    requires
        wf_filter(f),
    ensures
        lines_of(filter_text(n, f)) == seq![spaced(filter_words(n, f))],
        starts_filter(spaced(filter_words(n, f))),
        !starts_graphic(spaced(filter_words(n, f))),
{
    let ws = filter_words(n, f);
    let c = spaced(ws);
    lemma_filter_words_plain(n, f);
    lemma_spaced_free(ws, Class::Newline);
    lemma_spaced_ends(ws);
    lemma_number_word(f.q);
    lemma_number_word(f.frequency);
    lemma_number_word(f.gain);
    assert(c.last() == number_text(f.q).last());
    lemma_one_line(c);
    assert(ws.len() >= 2);
    assert(c == ws[0] + seq![' '] + spaced(ws.drop_first()));
    assert(c.take(7) =~= seq!['F', 'i', 'l', 't', 'e', 'r', ' ']);
    assert(c[0] != t_graphic()[0]);
}

proof fn lemma_filters_lines(fs: Seq<FilterView>)
    requires
        forall|i: int| 0 <= i < fs.len() ==> wf_filter(#[trigger] fs[i]),
    ensures
        filter_line_count(lines_of(filters_text(fs))) == fs.len(),
        !has_graphic_line(lines_of(filters_text(fs))),
    decreases fs.len(),
{
    if fs.len() == 0 {
        assert(filters_text(fs) =~= Seq::<char>::empty());
        assert(lines_of(Seq::<char>::empty()) =~= Seq::<Seq<char>>::empty());
        assert(lines_of(filters_text(fs)) == Seq::<Seq<char>>::empty());
        assert(filter_line_count(Seq::<Seq<char>>::empty()) == 0);
    } else {
        let init = fs.drop_last();
        assert forall|i: int| 0 <= i < init.len() implies wf_filter(#[trigger] init[i]) by {
            assert(init[i] == fs[i]);
        }
        lemma_filters_lines(init);
        let a = filters_text(init);
        let b = filter_text(fs.len(), fs.last());
        lemma_filters_text_end(init);
        lemma_lines_concat(a, b);
        assert(filters_text(fs) == a + b);
        assert(wf_filter(fs[fs.len() - 1]));
        lemma_filter_line(fs.len(), fs.last());
        let la = lines_of(a);
        let lb = lines_of(b);
        lemma_count_concat(la, lb);
        assert(lb.drop_last() =~= Seq::<Seq<char>>::empty());
        assert(filter_line_count(Seq::<Seq<char>>::empty()) == 0);
        assert(filter_line_count(lb) == 1);
        assert(!has_graphic_line(la + lb)) by {
            if has_graphic_line(la + lb) {
                let i = choose|i: int| 0 <= i < (la + lb).len() && starts_graphic(#[trigger] (la + lb)[i]);
                if i < la.len() {
                    assert((la + lb)[i] == la[i]);
                } else {
                    assert((la + lb)[i] == lb[0]);
                }
            }
        }
    }
}

proof fn lemma_graphic_lines(ps: Seq<PointView>)
    requires
        forall|i: int| 0 <= i < ps.len() ==> wf_point(#[trigger] ps[i]),
    ensures
        filter_line_count(lines_of(graphic_text(ps))) == 0,
        has_graphic_line(lines_of(graphic_text(ps))) <==> ps.len() > 0,
{
    if ps.len() == 0 {
        assert(graphic_text(ps) =~= Seq::<char>::empty());
        assert(lines_of(Seq::<char>::empty()) =~= Seq::<Seq<char>>::empty());
        assert(lines_of(graphic_text(ps)) == Seq::<Seq<char>>::empty());
        assert(filter_line_count(Seq::<Seq<char>>::empty()) == 0);
    } else {
        let pt = points_text(ps);
        let c = t_graphic() + pt;
        lemma_points_pieces(ps);
        assert(graphic_text(ps) == c + seq!['\n']);
        assert(free_of(c, Class::Newline)) by {
            assert forall|i: int| 0 <= i < c.len() implies !in_class(#[trigger] c[i], Class::Newline) by {
                if i >= 11 {
                    assert(c[i] == pt[i - 11]);
                }
            }
        }
        assert(c.last() == pt.last());
        lemma_one_line(c);
        let ls = seq![c];
        assert(ls.drop_last() =~= Seq::<Seq<char>>::empty());
        assert(c.take(11) =~= t_graphic());
        assert(!starts_filter(c)) by {
            assert(c.take(7)[0] == 'G');
        }
        assert(starts_graphic(ls[0]));
        assert(filter_line_count(Seq::<Seq<char>>::empty()) == 0);
        assert(filter_line_count(ls) == 0);
    }
}

proof fn lemma_head_lines(p: ProfileView)
    requires
        -LIMIT <= p.preamp <= LIMIT,
    ensures
        filter_line_count(seq![t_comment() + p.name] + lines_of(preamp_line(p.preamp))) == 0,
        !has_graphic_line(seq![t_comment() + p.name] + lines_of(preamp_line(p.preamp))),
{
    let u = p.preamp;
    let w0 = seq!['P', 'r', 'e', 'a', 'm', 'p', ':'];
    let w2 = seq!['d', 'B'];
    let ws = seq![w0, number_text(u), w2];
    lemma_number_word(u);
    lemma_spaced_push(seq![w0], number_text(u));
    lemma_spaced_push(seq![w0, number_text(u)], w2);
    assert(seq![w0].push(number_text(u)) =~= seq![w0, number_text(u)]);
    assert(seq![w0, number_text(u)].push(w2) =~= ws);
    let c = spaced(ws);
    assert(preamp_line(u) =~= c + seq!['\n']);
    lemma_literal_free(w0);
    lemma_literal_free(w2);
    assert(plain_words(ws));
    lemma_spaced_free(ws, Class::Newline);
    lemma_spaced_ends(ws);
    lemma_one_line(c);
    let h = t_comment() + p.name;
    let ls = seq![h] + seq![c];
    assert(ls =~= seq![h, c]);
    assert(ls.drop_last() =~= seq![h]);
    assert(seq![h].drop_last() =~= Seq::<Seq<char>>::empty());
    assert(h[0] == '#');
    assert(c[0] == 'P');
    assert(!starts_filter(h)) by {
        if h.len() >= 7 {
            assert(h.take(7)[0] == '#');
        }
    }
    assert(!starts_filter(c)) by {
        if c.len() >= 7 {
            assert(c.take(7)[0] == 'P');
        }
    }
    assert(filter_line_count(Seq::<Seq<char>>::empty()) == 0);
    assert(filter_line_count(seq![h]) == 0);
    assert(filter_line_count(ls) == 0);
    assert(!has_graphic_line(ls)) by {
        if has_graphic_line(ls) {
            let i = choose|i: int| 0 <= i < ls.len() && starts_graphic(#[trigger] ls[i]);
            assert(ls[i].take(11)[0] == 'G');
            assert(ls[i][0] == 'G');
        }
    }
}

/// The text `export` writes for a valid profile starts with its name as a
/// comment, has one line starting with `Filter ` per filter, and a
/// `GraphicEQ: ` line exactly when it has GraphicEQ points.
pub proof fn export_lines(p: ProfileView)
    requires
        profile_error(p) is None,
    ensures
        lines_of(export_text(p))[0] == t_comment() + p.name,
        filter_line_count(lines_of(export_text(p))) == p.filters.len(),
        has_graphic_line(lines_of(export_text(p))) <==> p.graphic_eq.len() > 0,
{
    crate::apo::lemma_valid_values(p);
    lemma_export_lines(p);
    let l1 = seq![t_comment() + p.name];
    let l2 = lines_of(preamp_line(p.preamp));
    let l3 = lines_of(filters_text(p.filters));
    let l4 = lines_of(graphic_text(p.graphic_eq));
    assert forall|i: int| 0 <= i < p.filters.len() implies wf_filter(#[trigger] p.filters[i]) by {}
    assert forall|i: int| 0 <= i < p.graphic_eq.len() implies wf_point(#[trigger] p.graphic_eq[i]) by {}
    lemma_head_lines(p);
    lemma_filters_lines(p.filters);
    lemma_graphic_lines(p.graphic_eq);
    let all = l1 + (l2 + (l3 + l4));
    assert(all =~= (l1 + l2) + (l3 + l4));
    lemma_count_concat(l1 + l2, l3 + l4);
    lemma_count_concat(l3, l4);
    assert(all[0] == l1[0]);
    assert(has_graphic_line(all) <==> has_graphic_line(l4)) by {
        let h = l1 + l2;
        let t = l3 + l4;
        if has_graphic_line(all) {
            let i = choose|i: int| 0 <= i < all.len() && starts_graphic(#[trigger] all[i]);
            if i < h.len() {
                assert(all[i] == h[i]);
                assert(has_graphic_line(h));
            } else if i < h.len() + l3.len() {
                assert(all[i] == l3[i - h.len()]);
                assert(has_graphic_line(l3));
            } else {
                assert(all[i] == l4[i - h.len() - l3.len()]);
            }
        }
        if has_graphic_line(l4) {
            let j = choose|j: int| 0 <= j < l4.len() && starts_graphic(#[trigger] l4[j]);
            assert(all[h.len() + l3.len() + j] == l4[j]);
        }
    }
}

// ---------------------------------------------------------------------------
// Size of exported text
// ---------------------------------------------------------------------------
proof fn lemma_pow10_small()
    ensures
        crate::decimal::pow10(3) == 1000,
        crate::decimal::pow10(5) == 100_000,
        crate::decimal::pow10(6) == 1_000_000,
{
    reveal_with_fuel(crate::decimal::pow10, 7);
}

proof fn lemma_nat_text_len(n: nat, k: nat)
    requires
        k >= 1,
        n < crate::decimal::pow10(k),
    ensures
        nat_text(n).len() <= k,
    decreases k,
{
    if n >= 10 {
        let k1 = (k - 1) as nat;
        assert(n / 10 < crate::decimal::pow10(k1)) by (nonlinear_arith)
            requires
                n < crate::decimal::pow10(k),
                crate::decimal::pow10(k) == 10 * crate::decimal::pow10(k1),
        ;
        if k1 == 0 {
            assert(crate::decimal::pow10(0) == 1);
        }
        lemma_nat_text_len(n / 10, k1);
    }
}

pub proof fn lemma_number_text_len(u: int)
    requires
        -100_000 * crate::decimal::UNIT <= u <= 100_000 * crate::decimal::UNIT,
    ensures
        number_text(u).len() <= 25,
{
    let a = crate::decimal::magnitude(u);
    let ip = a / (crate::decimal::UNIT as nat);
    let fp = a % (crate::decimal::UNIT as nat);
    lemma_pow10_small();
    assert(ip <= 100_000) by (nonlinear_arith)
        requires
            a <= 100_000 * crate::decimal::UNIT,
            ip == a / (crate::decimal::UNIT as nat),
            crate::decimal::UNIT > 0,
    ;
    assert(ip == 100_000 ==> fp == 0) by (nonlinear_arith)
        requires
            a <= 100_000 * crate::decimal::UNIT,
            ip == a / (crate::decimal::UNIT as nat),
            fp == a % (crate::decimal::UNIT as nat),
            crate::decimal::UNIT > 0,
    ;
    if ip == 100_000 {
        assert(nat_text(ip).len() <= 6) by {
            lemma_nat_text_len(ip, 6);
        }
        assert(fp == 0);
    } else {
        lemma_nat_text_len(ip, 5);
    }
    if fp != 0 {
        let f = crate::decimal::lemma_fraction_text(fp);
    }
}

proof fn lemma_spaced_len(ws: Seq<Seq<char>>, b: nat)
    requires
        forall|i: int| 0 <= i < ws.len() ==> (#[trigger] ws[i]).len() <= b,
    ensures
        spaced(ws).len() <= ws.len() * (b + 1),
    decreases ws.len(),
{
    if ws.len() > 1 {
        let rest = ws.drop_first();
        assert forall|i: int| 0 <= i < rest.len() implies (#[trigger] rest[i]).len() <= b by {
            assert(rest[i] == ws[i + 1]);
        }
        lemma_spaced_len(rest, b);
        assert(ws[0].len() <= b);
        assert(rest.len() * (b + 1) + b + 1 == ws.len() * (b + 1)) by (nonlinear_arith)
            requires
                rest.len() + 1 == ws.len(),
        ;
    } else if ws.len() == 1 {
        assert(ws[0].len() <= b);
    }
}

pub open spec fn bounded_filter(f: FilterView) -> bool {
    &&& supported_kind(f.kind)
    &&& -30_000 * crate::decimal::UNIT <= f.frequency <= 30_000 * crate::decimal::UNIT
    &&& -30_000 * crate::decimal::UNIT <= f.gain <= 30_000 * crate::decimal::UNIT
    &&& -30_000 * crate::decimal::UNIT <= f.q <= 30_000 * crate::decimal::UNIT
}

proof fn lemma_filters_text_len(fs: Seq<FilterView>)
    requires
        fs.len() <= 64,
        forall|i: int| 0 <= i < fs.len() ==> bounded_filter(#[trigger] fs[i]),
    ensures
        filters_text(fs).len() <= fs.len() * 400,
    decreases fs.len(),
{
    if fs.len() > 0 {
        let init = fs.drop_last();
        assert forall|i: int| 0 <= i < init.len() implies bounded_filter(#[trigger] init[i]) by {
            assert(init[i] == fs[i]);
        }
        lemma_filters_text_len(init);
        let f = fs.last();
        assert(bounded_filter(fs[fs.len() - 1]));
        let ws = filter_words(fs.len(), f);
        lemma_pow10_small();
        lemma_nat_text_len(fs.len(), 3);
        lemma_number_text_len(f.frequency);
        lemma_number_text_len(f.gain);
        lemma_number_text_len(f.q);
        assert forall|i: int| 0 <= i < ws.len() implies (#[trigger] ws[i]).len() <= 25 by {}
        lemma_spaced_len(ws, 25);
        assert(ws.len() <= 12);
        assert(ws.len() * 26 <= 312) by (nonlinear_arith)
            requires
                ws.len() <= 12,
        ;
        assert(filters_text(fs) == filters_text(init) + filter_text(fs.len(), f));
        assert(init.len() * 400 + 400 == fs.len() * 400) by (nonlinear_arith)
            requires
                init.len() + 1 == fs.len(),
        ;
    }
}

proof fn lemma_points_text_len(ps: Seq<PointView>)
    requires
        forall|i: int|
            0 <= i < ps.len() ==> -100_000 * crate::decimal::UNIT <= (#[trigger] ps[i]).frequency
                <= 100_000 * crate::decimal::UNIT && -100_000 * crate::decimal::UNIT <= ps[i].gain
                <= 100_000 * crate::decimal::UNIT,
    ensures
        points_text(ps).len() <= ps.len() * 60,
    decreases ps.len(),
{
    if ps.len() > 0 {
        let init = ps.drop_last();
        assert forall|i: int|
            0 <= i < init.len() implies -100_000 * crate::decimal::UNIT <= (#[trigger] init[i]).frequency
                <= 100_000 * crate::decimal::UNIT && -100_000 * crate::decimal::UNIT <= init[i].gain
                <= 100_000 * crate::decimal::UNIT by {
            assert(init[i] == ps[i]);
        }
        lemma_points_text_len(init);
        let last = ps.last();
        assert(ps[ps.len() - 1] == last);
        lemma_number_text_len(last.frequency);
        lemma_number_text_len(last.gain);
    }
}

/// The text that `export` writes for a valid profile stays far under the
/// 1 MB that reading accepts.
pub proof fn lemma_export_len(p: ProfileView)
    requires
        profile_error(p) is None,
    ensures
        export_text(p).len() <= 200_000,
        vstd::utf8::encode_utf8(export_text(p)).len() <= 800_000,
{
    lemma_bounded_filters(p);
    lemma_bounded_points(p);
    lemma_filters_text_len(p.filters);
    lemma_points_text_len(p.graphic_eq);
    lemma_number_text_len(p.preamp);
    assert(p.filters.len() * 400 <= 25600) by (nonlinear_arith)
        requires
            p.filters.len() <= 64,
    ;
    assert(p.graphic_eq.len() * 60 <= 122880) by (nonlinear_arith)
        requires
            p.graphic_eq.len() <= 2048,
    ;
    assert(crate::model::name_ok(p.name));
    crate::text::lemma_utf8_len(export_text(p));
}

proof fn lemma_bounded_filters(p: ProfileView)
    requires
        profile_error(p) is None,
    ensures
        p.filters.len() <= 64,
        forall|i: int| 0 <= i < p.filters.len() ==> bounded_filter(#[trigger] p.filters[i]),
{
    crate::apo::lemma_filters_ok(p.filters);
    assert forall|i: int| 0 <= i < p.filters.len() implies bounded_filter(#[trigger] p.filters[i]) by {
        assert(crate::model::filter_error(p.filters[i], p.filters.take(i)) is None);
    }
}

proof fn lemma_bounded_points(p: ProfileView)
    requires
        profile_error(p) is None,
    ensures
        p.graphic_eq.len() <= 2048,
        forall|i: int|
            0 <= i < p.graphic_eq.len() ==> -100_000 * crate::decimal::UNIT <= (
            #[trigger] p.graphic_eq[i]).frequency <= 100_000 * crate::decimal::UNIT && -100_000
                * crate::decimal::UNIT <= p.graphic_eq[i].gain <= 100_000 * crate::decimal::UNIT,
{
    crate::apo::lemma_points_ok(p.graphic_eq);
    assert forall|i: int|
        0 <= i < p.graphic_eq.len() implies -100_000 * crate::decimal::UNIT <= (
        #[trigger] p.graphic_eq[i]).frequency <= 100_000 * crate::decimal::UNIT && -100_000
            * crate::decimal::UNIT <= p.graphic_eq[i].gain <= 100_000 * crate::decimal::UNIT by {
        let prev = if i == 0 {
            0
        } else {
            p.graphic_eq[i - 1].frequency
        };
        assert(crate::model::point_ok(p.graphic_eq[i], prev));
    }
}

} // verus!
