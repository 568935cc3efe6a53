//! Rebuilding a one-line argument list and tokenizing the result again
//! gives back the same arguments.

use crate::args::{
    comma_space, join, line_args, line_text, line_units, offset, rebuilt_lines, reconstruction,
    region_units, region_units_upto, ArgsView,
};
use crate::text::{is_white_space, trim_end, trim_start, trimmed};
use crate::tokenize::{
    append_top, leftover, open_kind, raw_args, run, run_from, stack_text, start_scan, step,
    tokenize, Scan, UnitView,
};
use crate::utils::{close_glyph, BPairs};
use vstd::prelude::*;

verus! {

/// One unit per character of `t`.
pub open spec fn char_units(t: Seq<char>) -> Seq<UnitView> {
    t.map_values(|c: char| UnitView::Grapheme(seq![c]))
}

/// The kinds of the brackets on a tokenizer stack.
pub open spec fn kinds(stack: Seq<(BPairs, Seq<char>)>) -> Seq<BPairs> {
    stack.map_values(|e: (BPairs, Seq<char>)| e.0)
}

/// The kinds of the brackets left open by the text `t`.
pub open spec fn nesting_of(t: Seq<char>) -> Seq<BPairs> {
    crate::tokenize::nesting_after(char_units(t))
}

/// The number of commas of `t` outside any bracket.
pub open spec fn top_commas(t: Seq<char>) -> nat
    decreases t.len(),
{
    if t.len() == 0 {
        0
    } else {
        top_commas(t.drop_last()) + if t.last() == ',' && nesting_of(t.drop_last()).len() == 0 {
            1nat
        } else {
            0nat
        }
    }
}

/// `t` closes every bracket it opens and has no comma outside them: the
/// tokenizer reads it as one piece of an argument.
pub open spec fn is_closed(t: Seq<char>) -> bool {
    nesting_of(t).len() == 0 && top_commas(t) == 0
}

/// All the tokenizer has gathered towards the next argument.
pub open spec fn pending(st: Scan) -> Seq<char> {
    st.cur + stack_text(st.stack)
}

/// `st` differs from `st0` at most in its stack, its current argument and
/// its buried line breaks.
pub open spec fn same_tallies(st: Scan, st0: Scan) -> bool {
    &&& st.args == st0.args
    &&& st.count == st0.count
    &&& st.counts == st0.counts
    &&& st.spanning == st0.spanning
}

pub proof fn lemma_run_from_concat(st: Scan, a: Seq<UnitView>, b: Seq<UnitView>)
    ensures
        run_from(st, a + b) == run_from(run_from(st, a), b),
    decreases b.len(),
{
    if b.len() == 0 {
        assert(a + b =~= a);
    } else {
        lemma_run_from_concat(st, a, b.drop_last());
        assert((a + b).drop_last() =~= a + b.drop_last());
    }
}

proof fn lemma_single_eq(a: char, b: char)
    ensures
        (seq![a] == seq![b]) <==> a == b,
{
    if seq![a] == seq![b] {
        assert(seq![a][0] == seq![b][0]);
    }
}

proof fn lemma_char_units_concat(a: Seq<char>, b: Seq<char>)
    ensures
        char_units(a + b) == char_units(a) + char_units(b),
{
    assert(char_units(a + b) =~= char_units(a) + char_units(b));
}

proof fn lemma_char_units_last(t: Seq<char>)
    requires
        t.len() > 0,
    ensures
        char_units(t).drop_last() == char_units(t.drop_last()),
        char_units(t).last() == UnitView::Grapheme(seq![t.last()]),
{
    assert(char_units(t).drop_last() =~= char_units(t.drop_last()));
}

/// One grapheme that is not a comma outside any bracket: the stack moves as
/// the nesting does, and the grapheme joins what is pending.
proof fn lemma_step_pending(st: Scan, g: Seq<char>)
    requires
        !(st.stack.len() == 0 && g == seq![',']),
    ensures
        ({
            let after = step(st, UnitView::Grapheme(g));
            &&& kinds(after.stack) == crate::tokenize::nest_step(
                kinds(st.stack),
                UnitView::Grapheme(g),
            )
            &&& pending(after) == pending(st) + g
            &&& same_tallies(after, st)
            &&& after.buried == st.buried
        }),
{
    let after = step(st, UnitView::Grapheme(g));
    let ks = kinds(st.stack);
    if st.stack.len() > 0 {
        assert(ks.last() == st.stack.last().0);
    }
    if open_kind(g) is Some {
        let e = (open_kind(g)->0, g);
        crate::tokenize::lemma_stack_text_push(st.stack, e);
        assert(kinds(after.stack) =~= ks.push(e.0));
        assert(pending(after) =~= pending(st) + g);
    } else if st.stack.len() > 0 {
        if g == seq![close_glyph(st.stack.last().0)] {
            let text = st.stack.last().1 + g;
            let rest = st.stack.drop_last();
            assert(stack_text(st.stack) == stack_text(rest) + st.stack.last().1);
            if rest.len() == 0 {
                assert(stack_text(rest) =~= Seq::<char>::empty());
                assert(stack_text(after.stack) =~= Seq::<char>::empty());
                assert(pending(after) =~= pending(st) + g);
            } else {
                crate::tokenize::lemma_stack_text_append_last(rest, text);
                assert(pending(after) =~= pending(st) + g);
            }
            assert(kinds(after.stack) =~= ks.drop_last());
        } else {
            crate::tokenize::lemma_stack_text_append_last(st.stack, g);
            assert(kinds(after.stack) =~= ks);
            assert(pending(after) =~= pending(st) + g);
        }
    } else {
        assert(stack_text(st.stack) =~= Seq::<char>::empty());
        assert(stack_text(after.stack) =~= Seq::<char>::empty());
        assert(pending(after) =~= pending(st) + g);
        assert(kinds(after.stack) =~= ks);
    }
}

/// Text with no comma outside brackets, read from an empty stack, only
/// adds to what is pending, and leaves the stack as its nesting says.
proof fn lemma_comma_free_run(st: Scan, t: Seq<char>)
    requires
        st.stack.len() == 0,
        top_commas(t) == 0,
    ensures
        ({
            let after = run_from(st, char_units(t));
            &&& kinds(after.stack) == nesting_of(t)
            &&& pending(after) == st.cur + t
            &&& same_tallies(after, st)
            &&& after.buried == st.buried
        }),
    decreases t.len(),
{
    if t.len() == 0 {
        assert(char_units(t) =~= Seq::<UnitView>::empty());
        assert(stack_text(st.stack) =~= Seq::<char>::empty());
        assert(kinds(st.stack) =~= Seq::<BPairs>::empty());
        assert(pending(st) =~= st.cur + t);
    } else {
        let t0 = t.drop_last();
        lemma_comma_free_run(st, t0);
        lemma_char_units_last(t);
        let mid = run_from(st, char_units(t0));
        assert(kinds(mid.stack).len() == mid.stack.len());
        lemma_single_eq(t.last(), ',');
        lemma_step_pending(mid, seq![t.last()]);
        assert(t0 + seq![t.last()] =~= t);
    }
}

/// A closed text, read from an empty stack, is added whole to the current
/// argument.
pub proof fn lemma_closed_run(st: Scan, t: Seq<char>)
    requires
        st.stack.len() == 0,
        is_closed(t),
    ensures
        run_from(st, char_units(t)) == (Scan { cur: st.cur + t, ..st }),
{
    lemma_comma_free_run(st, t);
    let after = run_from(st, char_units(t));
    assert(after.stack.len() == kinds(after.stack).len());
    assert(after.stack =~= Seq::<(BPairs, Seq<char>)>::empty());
    assert(stack_text(after.stack) =~= Seq::<char>::empty());
    assert(after.cur =~= st.cur + t);
    assert(after.stack =~= st.stack);
    lemma_buried_unchanged(st, t);
}

proof fn lemma_buried_unchanged(st: Scan, t: Seq<char>)
    ensures
        run_from(st, char_units(t)).buried == st.buried,
    decreases t.len(),
{
    if t.len() > 0 {
        lemma_buried_unchanged(st, t.drop_last());
        lemma_char_units_last(t);
    }
}

/// What the tokenizer has gathered from any text, with no line break in
/// it: each finished argument is closed, and the pending text opens exactly
/// the brackets on the stack and has no comma outside them.
pub proof fn lemma_gathered_are_closed(t: Seq<char>)
    ensures
        ({
            let st = run(char_units(t));
            &&& forall|i: int| 0 <= i < st.args.len() ==> is_closed(#[trigger] st.args[i])
            &&& nesting_of(pending(st)) == kinds(st.stack)
            &&& top_commas(pending(st)) == 0
            &&& st.counts.len() == 0
        }),
    decreases t.len(),
{
    if t.len() == 0 {
        assert(char_units(t) =~= Seq::<UnitView>::empty());
        assert(pending(start_scan()) =~= Seq::<char>::empty());
        assert(char_units(Seq::<char>::empty()) =~= Seq::<UnitView>::empty());
        assert(kinds(start_scan().stack) =~= Seq::<BPairs>::empty());
    } else {
        let t0 = t.drop_last();
        let c = t.last();
        lemma_gathered_are_closed(t0);
        lemma_char_units_last(t);
        let prev = run(char_units(t0));
        let after = run(char_units(t));
        assert(after == step(prev, UnitView::Grapheme(seq![c])));
        let w = pending(prev);
        lemma_single_eq(c, ',');
        lemma_single_eq(c, '[');
        lemma_single_eq(c, '(');
        lemma_single_eq(c, '{');
        if prev.stack.len() == 0 && seq![c] == seq![','] {
            assert(stack_text(prev.stack) =~= Seq::<char>::empty());
            assert(w =~= prev.cur);
            assert(kinds(prev.stack) =~= Seq::<BPairs>::empty());
            assert(after.args == prev.args.push(prev.cur));
            assert(pending(after) =~= Seq::<char>::empty());
            assert(char_units(Seq::<char>::empty()) =~= Seq::<UnitView>::empty());
            assert(kinds(after.stack) =~= Seq::<BPairs>::empty());
        } else {
            lemma_step_pending(prev, seq![c]);
            let w2 = w + seq![c];
            assert(pending(after) == w2);
            assert(w2.drop_last() =~= w);
            assert(w2.last() == c);
            lemma_char_units_last(w2);
            assert(kinds(prev.stack).len() == prev.stack.len());
            if c == ',' {
                assert(seq![c] =~= seq![',']);
            }
        }
    }
}

/// The characters that the tokenizer treats apart: brackets and the comma.
pub open spec fn is_glyph_char(c: char) -> bool {
    c == '[' || c == ']' || c == '(' || c == ')' || c == '{' || c == '}' || c == ','
}

/// A grapheme that holds a bracket or a comma is that character alone.
pub open spec fn stands_alone(g: Seq<char>) -> bool {
    g.len() == 1 || forall|k: int| 0 <= k < g.len() ==> !is_glyph_char(#[trigger] g[k])
}

/// In `gs`, no bracket or comma shares a grapheme with anything else.
pub open spec fn glyphs_stand_alone(gs: Seq<Seq<char>>) -> bool {
    forall|i: int| 0 <= i < gs.len() ==> stands_alone(#[trigger] gs[i])
}

/// One unit per grapheme.
pub open spec fn grapheme_units(gs: Seq<Seq<char>>) -> Seq<UnitView> {
    gs.map_values(|g: Seq<char>| UnitView::Grapheme(g))
}

/// The graphemes put back together.
pub open spec fn concat_all(gs: Seq<Seq<char>>) -> Seq<char>
    decreases gs.len(),
{
    if gs.len() == 0 {
        seq![]
    } else {
        concat_all(gs.drop_last()) + gs.last()
    }
}

/// `g` added as plain text: to the innermost bracket, or to the current
/// argument at top level.
pub open spec fn plain(st: Scan, g: Seq<char>) -> Scan {
    if st.stack.len() > 0 {
        append_top(st, g)
    } else {
        Scan { cur: st.cur + g, ..st }
    }
}

proof fn lemma_no_glyph_single(g: Seq<char>, c: char)
    requires
        forall|k: int| 0 <= k < g.len() ==> !is_glyph_char(#[trigger] g[k]),
        is_glyph_char(c),
    ensures
        g != seq![c],
{
    if g == seq![c] {
        assert(g[0] == c);
    }
}

proof fn lemma_step_plain(st: Scan, g: Seq<char>)
    requires
        forall|k: int| 0 <= k < g.len() ==> !is_glyph_char(#[trigger] g[k]),
    ensures
        step(st, UnitView::Grapheme(g)) == plain(st, g),
{
    lemma_no_glyph_single(g, '[');
    lemma_no_glyph_single(g, '(');
    lemma_no_glyph_single(g, '{');
    lemma_no_glyph_single(g, ']');
    lemma_no_glyph_single(g, ')');
    lemma_no_glyph_single(g, '}');
    lemma_no_glyph_single(g, ',');
}

proof fn lemma_plain_concat(st: Scan, a: Seq<char>, b: Seq<char>)
    ensures
        plain(plain(st, a), b) == plain(st, a + b),
{
    if st.stack.len() > 0 {
        let top = st.stack.last();
        assert(plain(plain(st, a), b).stack =~= plain(st, a + b).stack) by {
            assert(top.1 + a + b =~= top.1 + (a + b));
        }
    } else {
        assert(st.cur + a + b =~= st.cur + (a + b));
    }
}

proof fn lemma_plain_empty(st: Scan)
    ensures
        plain(st, seq![]) == st,
{
    if st.stack.len() > 0 {
        let top = st.stack.last();
        assert(top.1 + seq![] =~= top.1);
        assert(plain(st, seq![]).stack =~= st.stack);
    } else {
        assert(st.cur + seq![] =~= st.cur);
    }
}

proof fn lemma_chars_plain(st: Scan, t: Seq<char>)
    requires
        forall|k: int| 0 <= k < t.len() ==> !is_glyph_char(#[trigger] t[k]),
    ensures
        run_from(st, char_units(t)) == plain(st, t),
    decreases t.len(),
{
    if t.len() == 0 {
        assert(char_units(t) =~= Seq::<UnitView>::empty());
        assert(t =~= Seq::<char>::empty());
        lemma_plain_empty(st);
    } else {
        let t0 = t.drop_last();
        lemma_chars_plain(st, t0);
        lemma_char_units_last(t);
        let c = t.last();
        assert(!is_glyph_char(seq![c][0]));
        lemma_step_plain(plain(st, t0), seq![c]);
        lemma_plain_concat(st, t0, seq![c]);
        assert(t0 + seq![c] =~= t);
    }
}

/// Where brackets and commas stand alone, reading graphemes is reading
/// their characters one by one.
pub proof fn lemma_graphemes_as_chars(st: Scan, gs: Seq<Seq<char>>)
    requires
        glyphs_stand_alone(gs),
    ensures
        run_from(st, grapheme_units(gs)) == run_from(st, char_units(concat_all(gs))),
    decreases gs.len(),
{
    if gs.len() == 0 {
        assert(grapheme_units(gs) =~= Seq::<UnitView>::empty());
        assert(char_units(concat_all(gs)) =~= Seq::<UnitView>::empty());
    } else {
        let gs0 = gs.drop_last();
        let g = gs.last();
        assert(glyphs_stand_alone(gs0)) by {
            assert forall|i: int| 0 <= i < gs0.len() implies stands_alone(#[trigger] gs0[i]) by {
                assert(gs0[i] == gs[i]);
            }
        }
        lemma_graphemes_as_chars(st, gs0);
        assert(grapheme_units(gs).drop_last() =~= grapheme_units(gs0));
        let x = run_from(st, char_units(concat_all(gs0)));
        lemma_char_units_concat(concat_all(gs0), g);
        lemma_run_from_concat(st, char_units(concat_all(gs0)), char_units(g));
        assert(stands_alone(gs[gs.len() - 1]));
        assert(grapheme_units(gs).last() == UnitView::Grapheme(g));
        assert(run_from(st, grapheme_units(gs)) == step(x, UnitView::Grapheme(g)));
        assert(run_from(st, char_units(concat_all(gs))) == run_from(x, char_units(g)));
        if g.len() == 1 {
            assert(seq![g[0]] =~= g);
            let one = seq![UnitView::Grapheme(g)];
            assert(char_units(g) =~= one);
            assert(one.drop_last() =~= Seq::<UnitView>::empty());
            assert(run_from(x, one) == step(run_from(x, one.drop_last()), one.last()));
        } else {
            lemma_step_plain(x, g);
            lemma_chars_plain(x, g);
        }
    }
}

proof fn lemma_ws_keeps_nesting(ks: Seq<BPairs>, c: char)
    requires
        is_white_space(c),
    ensures
        crate::tokenize::nest_step(ks, UnitView::Grapheme(seq![c])) == ks,
        c != ',',
{
    lemma_single_eq(c, '[');
    lemma_single_eq(c, '(');
    lemma_single_eq(c, '{');
    lemma_single_eq(c, ']');
    lemma_single_eq(c, ')');
    lemma_single_eq(c, '}');
}

proof fn lemma_ws_suffix(m: Seq<char>, q: Seq<char>)
    requires
        forall|k: int| 0 <= k < q.len() ==> is_white_space(#[trigger] q[k]),
    ensures
        nesting_of(m + q) == nesting_of(m),
        top_commas(m + q) == top_commas(m),
    decreases q.len(),
{
    if q.len() == 0 {
        assert(m + q =~= m);
    } else {
        let q0 = q.drop_last();
        lemma_ws_suffix(m, q0);
        let mq = m + q;
        assert(mq.drop_last() =~= m + q0);
        assert(mq.last() == q.last());
        lemma_char_units_last(mq);
        lemma_ws_keeps_nesting(nesting_of(m + q0), q.last());
    }
}

proof fn lemma_ws_prefix(p: Seq<char>, m: Seq<char>)
    requires
        forall|k: int| 0 <= k < p.len() ==> is_white_space(#[trigger] p[k]),
    ensures
        nesting_of(p + m) == nesting_of(m),
        top_commas(p + m) == top_commas(m),
    decreases m.len(),
{
    if m.len() == 0 {
        assert(p + m =~= Seq::<char>::empty() + p);
        assert(char_units(Seq::<char>::empty()) =~= Seq::<UnitView>::empty());
        lemma_ws_suffix(Seq::<char>::empty(), p);
    } else {
        let m0 = m.drop_last();
        lemma_ws_prefix(p, m0);
        let pm = p + m;
        assert(pm.drop_last() =~= p + m0);
        assert(pm.last() == m.last());
        lemma_char_units_last(pm);
        lemma_char_units_last(m);
    }
}

/// Trimming keeps a closed text closed.
pub proof fn lemma_trimmed_closed(r: Seq<char>)
    requires
        is_closed(r),
    ensures
        is_closed(trimmed(r)),
{
    crate::text::lemma_trim_start_shape(r);
    let ts = trim_start(r);
    let k = r.len() - ts.len();
    assert(r =~= r.take(k) + ts);
    lemma_ws_prefix(r.take(k), ts);
    crate::text::lemma_trim_end_shape(ts);
    let te = trim_end(ts);
    let rest = ts.subrange(te.len() as int, ts.len() as int);
    assert(ts =~= te + rest);
    assert forall|i: int| 0 <= i < rest.len() implies is_white_space(#[trigger] rest[i]) by {
        assert(rest[i] == ts[i + te.len()]);
    }
    lemma_ws_suffix(te, rest);
}

proof fn lemma_trimmed_after_space(a: Seq<char>)
    ensures
        trimmed(seq![' '] + a) == trimmed(a),
{
    let b = seq![' '] + a;
    assert(b.drop_first() =~= a);
    assert(is_white_space(b[0]));
}

/// Argument `i` as the tokenizer gathers it from a rebuilt line: after the
/// first, each keeps the space that followed its comma.
pub open spec fn reparsed_arg(a: Seq<Seq<char>>, i: int) -> Seq<char> {
    if i == 0 {
        a[0]
    } else {
        seq![' '] + a[i]
    }
}

pub open spec fn reparse_state(a: Seq<Seq<char>>, k: int) -> Scan {
    Scan {
        stack: seq![],
        cur: reparsed_arg(a, k - 1),
        args: Seq::new((k - 1) as nat, |i: int| reparsed_arg(a, i)),
        count: k,
        counts: seq![],
        spanning: 0,
        buried: 0,
    }
}

proof fn lemma_reparse_join(a: Seq<Seq<char>>, k: int)
    requires
        1 <= k <= a.len(),
        forall|i: int| 0 <= i < a.len() ==> is_closed(#[trigger] a[i]),
    ensures
        run(char_units(join(a.take(k), comma_space()))) == reparse_state(a, k),
    decreases k,
{
    if k == 1 {
        assert(join(a.take(1), comma_space()) == a.take(1)[0]);
        assert(a.take(1)[0] == a[0]);
        assert(is_closed(a[0]));
        lemma_closed_run(start_scan(), a[0]);
        assert(Seq::<char>::empty() + a[0] =~= a[0]);
        assert(run(char_units(a[0])).args =~= reparse_state(a, 1).args);
        assert(run(char_units(a[0])).stack =~= reparse_state(a, 1).stack);
        assert(run(char_units(a[0])).cur =~= reparse_state(a, 1).cur);
        assert(run(char_units(a[0])) == reparse_state(a, 1));
    } else {
        lemma_reparse_join(a, k - 1);
        let j0 = join(a.take(k - 1), comma_space());
        assert(a.take(k).drop_last() =~= a.take(k - 1));
        assert(a.take(k).last() == a[k - 1]);
        let x = reparse_state(a, k - 1);
        lemma_char_units_concat(j0, seq![',']);
        lemma_char_units_concat(j0 + seq![','], seq![' ']);
        lemma_char_units_concat(j0 + seq![','] + seq![' '], a[k - 1]);
        assert(j0 + comma_space() + a[k - 1] =~= j0 + seq![','] + seq![' '] + a[k - 1]);
        lemma_run_from_concat(start_scan(), char_units(j0), char_units(seq![',']));
        lemma_run_from_concat(
            start_scan(),
            char_units(j0) + char_units(seq![',']),
            char_units(seq![' ']),
        );
        lemma_run_from_concat(
            start_scan(),
            char_units(j0) + char_units(seq![',']) + char_units(seq![' ']),
            char_units(a[k - 1]),
        );
        let c1 = seq![UnitView::Grapheme(seq![','])];
        assert(char_units(seq![',']) =~= c1);
        assert(c1.drop_last() =~= Seq::<UnitView>::empty());
        lemma_single_eq(',', '[');
        lemma_single_eq(',', '(');
        lemma_single_eq(',', '{');
        let y = step(x, UnitView::Grapheme(seq![',']));
        assert(run_from(x, c1) == step(run_from(x, c1.drop_last()), c1.last()));
        assert(y == Scan { args: x.args.push(x.cur), count: x.count + 1, cur: seq![], ..x });
        assert(!is_glyph_char(seq![' '][0]));
        lemma_chars_plain(y, seq![' ']);
        let z = plain(y, seq![' ']);
        assert(is_closed(a[k - 1]));
        lemma_closed_run(z, a[k - 1]);
        let w = run_from(z, char_units(a[k - 1]));
        assert(w.cur =~= reparse_state(a, k).cur);
        assert(w.args =~= reparse_state(a, k).args);
        assert(w.stack =~= reparse_state(a, k).stack);
        assert(w == reparse_state(a, k));
        assert(join(a.take(k), comma_space()) == j0 + comma_space() + a[k - 1]);
        assert(run(char_units(j0) + char_units(seq![','])) == y);
        assert(run(char_units(j0) + char_units(seq![',']) + char_units(seq![' '])) == z);
    }
}

proof fn lemma_single_line_region(v: ArgsView)
    requires
        v.lines.len() == 1,
    ensures
        region_units(v.lines, v.beg, v.end) == grapheme_units(
            crate::args::line_cells(v.lines, 0, v.beg, v.end),
        ).push(UnitView::LineBreak),
{
    let cells = crate::args::line_cells(v.lines, 0, v.beg, v.end);
    assert(region_units_upto(v.lines, v.beg, v.end, 0) =~= Seq::<UnitView>::empty());
    assert(region_units(v.lines, v.beg, v.end) =~= grapheme_units(cells).push(
        UnitView::LineBreak,
    ));
}

proof fn lemma_one_line_rebuilt(v: ArgsView)
    requires
        v.lines.len() == 1,
        v.counts == seq![v.args.len() as int],
    ensures
        reconstruction(v) == join(v.args, comma_space()),
{
    let n = v.args.len() as int;
    assert(offset(v.counts, 0) == 0);
    assert(offset(v.counts, 1) == n);
    assert(line_args(v.args, v.counts, 0) =~= v.args);
    let t = line_text(v, 0);
    if t.len() > 0 {
        assert(rebuilt_lines(v) =~= seq![t]);
    } else {
        assert(rebuilt_lines(v) =~= Seq::<Seq<char>>::empty());
    }
}

/// Rebuilding a one-line argument list and tokenizing the rebuilt text
/// again gives back the same arguments, where the line's count covers its
/// arguments and the list is not one empty argument. `g` is the rebuilt
/// text cut into graphemes; in it, as in the source line, no bracket or
/// comma shares a grapheme with anything else.
pub proof fn lemma_reparse_gives_same_args(v: ArgsView, g: Seq<Seq<char>>)
    requires
        v.lines.len() == 1,
        glyphs_stand_alone(v.lines[0]),
        v.args == tokenize(region_units(v.lines, v.beg, v.end)).args,
        v.counts == tokenize(region_units(v.lines, v.beg, v.end)).counts,
        v.counts == seq![v.args.len() as int],
        v.args != seq![Seq::<char>::empty()],
        concat_all(g) == reconstruction(v),
        glyphs_stand_alone(g),
    ensures
        tokenize(line_units(g)).args == v.args,
{
    let a = v.args;
    let n = a.len() as int;
    let s = region_units(v.lines, v.beg, v.end);
    let cells = crate::args::line_cells(v.lines, 0, v.beg, v.end);
    lemma_single_line_region(v);
    assert(glyphs_stand_alone(cells)) by {
        let line = v.lines[0];
        let r = crate::args::clamp_range(v.beg.col as int, v.end.col - 1, line.len() as int);
        assert forall|i: int| 0 <= i < cells.len() implies stands_alone(#[trigger] cells[i]) by {
            assert(cells[i] == line[i + r.0]);
        }
    }
    // the source line, read character by character
    let t = concat_all(cells);
    lemma_graphemes_as_chars(start_scan(), cells);
    assert(s.drop_last() =~= grapheme_units(cells));
    let tt = run(char_units(t));
    assert(run(s) == step(tt, UnitView::LineBreak));
    lemma_gathered_are_closed(t);
    assert(tt.stack.len() == 0);
    assert(stack_text(tt.stack) =~= Seq::<char>::empty());
    assert(kinds(tt.stack) =~= Seq::<BPairs>::empty());
    assert(pending(tt) =~= tt.cur);
    assert(leftover(s) =~= tt.cur);
    let raw = raw_args(s);
    assert forall|i: int| 0 <= i < raw.len() implies is_closed(#[trigger] raw[i]) by {
        if i < tt.args.len() {
            assert(raw[i] == tt.args[i]);
        }
    }
    assert forall|i: int| 0 <= i < n implies is_closed(#[trigger] a[i]) && trimmed(a[i])
        == a[i] by {
        assert(a[i] == trimmed(raw[i]));
        lemma_trimmed_closed(raw[i]);
        crate::text::lemma_trimmed_has_no_edge_space(raw[i]);
    }
    // the rebuilt line, read the same way
    lemma_one_line_rebuilt(v);
    let s2 = line_units(g);
    assert(s2 =~= grapheme_units(g).push(UnitView::LineBreak));
    assert(s2.drop_last() =~= grapheme_units(g));
    lemma_graphemes_as_chars(start_scan(), g);
    let j = join(a, comma_space());
    assert(run(s2) == step(run(char_units(j)), UnitView::LineBreak));
    if n == 0 {
        assert(j =~= Seq::<char>::empty());
        assert(char_units(j) =~= Seq::<UnitView>::empty());
        assert(leftover(s2) =~= Seq::<char>::empty());
        assert(tokenize(s2).args =~= a);
    } else {
        assert(a.take(n) =~= a);
        lemma_reparse_join(a, n);
        let st = reparse_state(a, n);
        assert(run(s2).stack =~= Seq::<(BPairs, Seq<char>)>::empty());
        assert(leftover(s2) =~= st.cur);
        if n == 1 {
            assert(a[0].len() > 0) by {
                if a[0].len() == 0 {
                    assert(a =~= seq![Seq::<char>::empty()]);
                }
            }
        }
        assert(leftover(s2).len() > 0);
        assert(raw_args(s2) =~= Seq::new(n as nat, |i: int| reparsed_arg(a, i)));
        assert forall|i: int| 0 <= i < n implies #[trigger] trimmed(reparsed_arg(a, i)) == a[i] by {
            if i > 0 {
                lemma_trimmed_after_space(a[i]);
            }
        }
        assert(tokenize(s2).args =~= a);
    }
}

} // verus!
