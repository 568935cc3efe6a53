//! The bracket-depth tokenizer: splits a stream of graphemes and line breaks
//! into top-level arguments and per-line argument counts.

use crate::text::{has_no_edge_space, is_blank, trim_ws, trimmed};
use crate::utils::{close_glyph, open_glyph, BPairs};
use vstd::prelude::*;

verus! {

/// One unit of a region's stream: a grapheme of the source text, or the
/// marker that ends a source line.
#[derive(Debug)]
pub enum Unit {
    Grapheme(String),
    LineBreak,
}

/// What a `Unit` stands for.
pub enum UnitView {
    Grapheme(Seq<char>),
    LineBreak,
}

impl View for Unit {
    type V = UnitView;

    open spec fn view(&self) -> UnitView {
        match self {
            Unit::Grapheme(g) => UnitView::Grapheme(g@),
            Unit::LineBreak => UnitView::LineBreak,
        }
    }
}

/// The stream that a vector of units stands for.
pub open spec fn stream_of(v: Seq<Unit>) -> Seq<UnitView> {
    v.map_values(|u: Unit| u@)
}

/// The state of the tokenizer between two units.
pub struct Scan {
    /// Open brackets, innermost last, each with the text gathered inside it
    /// (its own opening glyph first).
    pub stack: Seq<(BPairs, Seq<char>)>,
    /// Text of the top-level argument being gathered.
    pub cur: Seq<char>,
    /// Top-level arguments finished so far, untrimmed.
    pub args: Seq<Seq<char>>,
    /// Running count of arguments on the current line.
    pub count: int,
    /// Finished per-line counts.
    pub counts: Seq<int>,
    /// Top-level line breaks met while `cur` held more than whitespace.
    pub spanning: nat,
    /// Line breaks met inside a bracket.
    pub buried: nat,
}

/// What the tokenizer hands back: trimmed arguments and per-line counts.
pub struct Tokens {
    pub args: Seq<Seq<char>>,
    pub counts: Seq<int>,
}

/// The bracket kind whose opening glyph `g` is, if any.
pub open spec fn open_kind(g: Seq<char>) -> Option<BPairs> {
    if g == seq![open_glyph(BPairs::Brack)] {
        Some(BPairs::Brack)
    } else if g == seq![open_glyph(BPairs::Paren)] {
        Some(BPairs::Paren)
    } else if g == seq![open_glyph(BPairs::Curly)] {
        Some(BPairs::Curly)
    } else {
        None
    }
}

pub open spec fn start_scan() -> Scan {
    Scan {
        stack: seq![],
        cur: seq![],
        args: seq![],
        count: 1,
        counts: seq![],
        spanning: 0,
        buried: 0,
    }
}

/// Appends `g` to the text of the innermost open bracket.
pub open spec fn append_top(st: Scan, g: Seq<char>) -> Scan
    recommends
        st.stack.len() > 0,
{
    let top = st.stack.last();
    Scan { stack: st.stack.update(st.stack.len() - 1, (top.0, top.1 + g)), ..st }
}

/// Closes the innermost bracket with glyph `g`; its text goes to the bracket
/// around it, or to the current argument at top level.
pub open spec fn close_top(st: Scan, g: Seq<char>) -> Scan
    recommends
        st.stack.len() > 0,
{
    let text = st.stack.last().1 + g;
    let rest = st.stack.drop_last();
    if rest.len() == 0 {
        Scan { stack: rest, cur: st.cur + text, ..st }
    } else {
        append_top(Scan { stack: rest, ..st }, text)
    }
}

/// One step of the tokenizer.
pub open spec fn step(st: Scan, u: UnitView) -> Scan {
    match u {
        UnitView::Grapheme(g) => {
            if open_kind(g) is Some {
                Scan { stack: st.stack.push((open_kind(g)->0, g)), ..st }
            } else if st.stack.len() > 0 {
                if g == seq![close_glyph(st.stack.last().0)] {
                    close_top(st, g)
                } else {
                    append_top(st, g)
                }
            } else if g == seq![','] {
                Scan { args: st.args.push(st.cur), count: st.count + 1, cur: seq![], ..st }
            } else {
                Scan { cur: st.cur + g, ..st }
            }
        },
        UnitView::LineBreak => {
            if st.stack.len() > 0 {
                Scan { buried: st.buried + 1, ..append_top(st, seq!['\n']) }
            } else if is_blank(st.cur) {
                Scan { counts: st.counts.push(st.count - 1), count: 1, ..st }
            } else {
                Scan {
                    counts: st.counts.push(st.count),
                    count: 1,
                    spanning: st.spanning + 1,
                    ..st
                }
            }
        },
    }
}

/// The state after the tokenizer has consumed `s` from state `st`.
pub open spec fn run_from(st: Scan, s: Seq<UnitView>) -> Scan
    decreases s.len(),
{
    if s.len() == 0 {
        st
    } else {
        step(run_from(st, s.drop_last()), s.last())
    }
}

pub open spec fn run(s: Seq<UnitView>) -> Scan {
    run_from(start_scan(), s)
}

/// The texts of the open brackets, outermost first.
pub open spec fn stack_text(stack: Seq<(BPairs, Seq<char>)>) -> Seq<char>
    decreases stack.len(),
{
    if stack.len() == 0 {
        seq![]
    } else {
        stack_text(stack.drop_last()) + stack.last().1
    }
}

/// What is left for the last argument once `s` is consumed: the current
/// argument followed by the text of every bracket still open.
pub open spec fn leftover(s: Seq<UnitView>) -> Seq<char> {
    run(s).cur + stack_text(run(s).stack)
}

/// The untrimmed top-level arguments of `s`.
pub open spec fn raw_args(s: Seq<UnitView>) -> Seq<Seq<char>> {
    if leftover(s).len() > 0 {
        run(s).args.push(leftover(s))
    } else {
        run(s).args
    }
}

/// `s` is empty or ends with a line break.
pub open spec fn ends_with_break(s: Seq<UnitView>) -> bool {
    s.len() > 0 ==> s.last() is LineBreak
}

/// The result of tokenizing the stream `s`.
pub open spec fn tokenize(s: Seq<UnitView>) -> Tokens {
    Tokens {
        args: raw_args(s).map_values(|a: Seq<char>| trimmed(a)),
        counts: if s.len() > 0 && s.last() is LineBreak {
            run(s).counts
        } else {
            run(s).counts.push(run(s).count)
        },
    }
}

/// An open bracket on the tokenizer's stack.
struct Pending {
    kind: BPairs,
    text: String,
}

spec fn pending_view(bufs: Seq<Pending>) -> Seq<(BPairs, Seq<char>)> {
    bufs.map_values(|p: Pending| (p.kind, p.text@))
}

/// Per-line counts as integers.
pub open spec fn counts_view(v: Seq<usize>) -> Seq<int> {
    v.map_values(|c: usize| c as int)
}

fn ch_is_open_bpair(ch: &String) -> (r: Option<BPairs>)
    ensures
        r == open_kind(ch@),
{
    let kinds = BPairs::array();
    let mut i: usize = 0;
    while i < 3
        invariant
            0 <= i <= 3,
            kinds@ == crate::utils::all_kinds(),
            forall|j: int| 0 <= j < i ==> ch@ != seq![open_glyph(#[trigger] kinds@[j])],
        decreases 3 - i,
    {
        if *ch == kinds[i].to_simple_string_open() {
            return Some(kinds[i]);
        }
        i += 1;
    }
    assert(ch@ != seq![open_glyph(kinds@[0])]);
    assert(ch@ != seq![open_glyph(kinds@[1])]);
    assert(ch@ != seq![open_glyph(kinds@[2])]);
    None
}

fn ch_is_close_bpair(ch: &String, bpair: &BPairs) -> (r: bool)
    ensures
        r == (ch@ == seq![close_glyph(*bpair)]),
{
    bpair.to_simple_string_close() == *ch
}

fn add_char_2_last_buf(bufs: &mut Vec<Pending>, chars: &str)
    requires
        old(bufs)@.len() > 0,
    ensures
        pending_view(final(bufs)@) == pending_view(old(bufs)@).update(
            old(bufs)@.len() - 1,
            (old(bufs)@.last().kind, old(bufs)@.last().text@ + chars@),
        ),
{
    let mut last = bufs.pop().unwrap();
    last.text.append(chars);
    bufs.push(last);
    assert(pending_view(bufs@) =~= pending_view(old(bufs)@).update(
        old(bufs)@.len() - 1,
        (old(bufs)@.last().kind, old(bufs)@.last().text@ + chars@),
    ));
}

fn close_buf(bufs: &mut Vec<Pending>, arg: &mut String, ch: &str)
    requires
        old(bufs)@.len() > 0,
    ensures
        ({
            let st = Scan { stack: pending_view(old(bufs)@), cur: old(arg)@, ..start_scan() };
            let after = close_top(st, ch@);
            pending_view(final(bufs)@) == after.stack && final(arg)@ == after.cur
        }),
{
    let ghost st = Scan { stack: pending_view(old(bufs)@), cur: old(arg)@, ..start_scan() };
    let mut top = bufs.pop().unwrap();
    top.text.append(ch);
    assert(pending_view(bufs@) =~= st.stack.drop_last());
    if bufs.len() == 0 {
        arg.append(top.text.as_str());
    } else {
        add_char_2_last_buf(bufs, top.text.as_str());
    }
}

/// Splits a region's stream into its top-level arguments, each trimmed, and
/// the number of arguments that each source line holds.
pub fn reprocessed_args(arg_chars: &Vec<Unit>) -> (r: (Vec<String>, Vec<usize>))
    requires
        ends_with_break(stream_of(arg_chars@)) || arg_chars@.len() < usize::MAX,
    ensures
        r.0.deep_view() == tokenize(stream_of(arg_chars@)).args,
        counts_view(r.1@) == tokenize(stream_of(arg_chars@)).counts,
        forall|i: int| 0 <= i < r.0@.len() ==> has_no_edge_space(#[trigger] r.0@[i]@),
{
    let ghost s = stream_of(arg_chars@);
    let n = arg_chars.len();
    let comma = ",".to_owned();
    let newline = "\n".to_owned();
    proof {
        reveal_strlit(",");
        reveal_strlit("\n");
    }
    let mut parsed_args: Vec<String> = Vec::new();
    let mut curr_arg: String = String::new();
    let mut bufs: Vec<Pending> = Vec::new();
    let mut count_args: Vec<usize> = Vec::new();
    let mut count: usize = 1;
    let mut i: usize = 0;
    while i < n
        invariant
            n == arg_chars@.len(),
            s == stream_of(arg_chars@),
            ends_with_break(s) || n < usize::MAX,
            comma@ == seq![','],
            newline@ == seq!['\n'],
            i <= n,
            ({
                let st = run(s.take(i as int));
                &&& pending_view(bufs@) == st.stack
                &&& curr_arg@ == st.cur
                &&& parsed_args.deep_view() == st.args
                &&& count as int == st.count
                &&& counts_view(count_args@) == st.counts
            }),
            1 <= count <= i + 1,
        decreases n - i,
    {
        let ghost st = run(s.take(i as int));
        assert(s.take(i as int + 1).drop_last() =~= s.take(i as int));
        assert(s.take(i as int + 1).last() == arg_chars@[i as int]@);
        match &arg_chars[i] {
            Unit::Grapheme(ch) => {
                if let Some(bpair) = ch_is_open_bpair(ch) {
                    bufs.push(Pending { kind: bpair, text: ch.clone() });
                    assert(pending_view(bufs@) =~= st.stack.push((bpair, ch@)));
                } else if bufs.len() == 0 {
                    if *ch == comma {
                        proof {
                            // a stream that ends with a line break has no comma last
                            if ends_with_break(s) {
                                assert(s[n - 1] is LineBreak);
                                assert(i < n - 1);
                            }
                        }
                        parsed_args.push(curr_arg);
                        assert(parsed_args.deep_view() =~= st.args.push(st.cur));
                        count += 1;
                        curr_arg = String::new();
                    } else {
                        curr_arg.append(ch.as_str());
                    }
                } else {
                    let top_kind = bufs[bufs.len() - 1].kind;
                    if ch_is_close_bpair(ch, &top_kind) {
                        close_buf(&mut bufs, &mut curr_arg, ch.as_str());
                    } else {
                        add_char_2_last_buf(&mut bufs, ch.as_str());
                    }
                }
            },
            Unit::LineBreak => {
                if bufs.len() == 0 {
                    if trim_ws(curr_arg.as_str()).is_empty() {
                        count -= 1;
                    }
                    count_args.push(count);
                    assert(counts_view(count_args@) =~= run(s.take(i as int + 1)).counts);
                    count = 1;
                } else {
                    add_char_2_last_buf(&mut bufs, newline.as_str());
                }
            },
        }
        i += 1;
    }
    assert(s.take(n as int) =~= s);
    // brackets left open keep their text in the last argument
    let ghost stack = pending_view(bufs@);
    let mut j: usize = 0;
    while j < bufs.len()
        invariant
            j <= bufs@.len(),
            stack == pending_view(bufs@),
            curr_arg@ == run(s).cur + stack_text(stack.take(j as int)),
        decreases bufs@.len() - j,
    {
        curr_arg.append(bufs[j].text.as_str());
        assert(stack.take(j as int + 1).drop_last() =~= stack.take(j as int));
        j += 1;
    }
    assert(stack.take(bufs@.len() as int) =~= stack);
    if !curr_arg.as_str().is_empty() {
        parsed_args.push(curr_arg);
        assert(parsed_args.deep_view() =~= raw_args(s));
    }
    let ends_with_marker = n > 0 && match &arg_chars[n - 1] {
        Unit::LineBreak => true,
        Unit::Grapheme(_) => false,
    };
    if !ends_with_marker {
        count_args.push(count);
        assert(counts_view(count_args@) =~= run(s).counts.push(run(s).count));
    }
    let mut trimmed_args: Vec<String> = Vec::new();
    let mut k: usize = 0;
    while k < parsed_args.len()
        invariant
            k <= parsed_args@.len(),
            parsed_args.deep_view() == raw_args(s),
            trimmed_args.deep_view() == raw_args(s).take(k as int).map_values(
                |a: Seq<char>| trimmed(a),
            ),
            forall|t: int|
                0 <= t < trimmed_args@.len() ==> has_no_edge_space(#[trigger] trimmed_args@[t]@),
        decreases parsed_args@.len() - k,
    {
        let t = trim_ws(parsed_args[k].as_str()).to_owned();
        assert(parsed_args@[k as int]@ == parsed_args.deep_view()[k as int]);
        proof {
            crate::text::lemma_trimmed_has_no_edge_space(parsed_args@[k as int]@);
        }
        let ghost before = trimmed_args.deep_view();
        trimmed_args.push(t);
        assert(trimmed_args.deep_view() =~= before.push(t@));
        assert(trimmed_args.deep_view() =~= raw_args(s).take(k as int + 1).map_values(
            |a: Seq<char>| trimmed(a),
        ));
        k += 1;
    }
    assert(raw_args(s).take(parsed_args@.len() as int) =~= raw_args(s));
    (trimmed_args, count_args)
}

/// The characters a unit contributes to an argument's text; a line break
/// contributes a newline.
pub open spec fn unit_text(u: UnitView) -> Seq<char> {
    match u {
        UnitView::Grapheme(g) => g,
        UnitView::LineBreak => seq!['\n'],
    }
}

/// The text of a stream.
pub open spec fn text_of(s: Seq<UnitView>) -> Seq<char>
    decreases s.len(),
{
    if s.len() == 0 {
        seq![]
    } else {
        text_of(s.drop_last()) + unit_text(s.last())
    }
}

/// How the kinds of the open brackets change with one unit: an opening
/// glyph opens a bracket, the closing glyph of the innermost one closes it.
pub open spec fn nest_step(ks: Seq<BPairs>, u: UnitView) -> Seq<BPairs> {
    match u {
        UnitView::Grapheme(g) => {
            if open_kind(g) is Some {
                ks.push(open_kind(g)->0)
            } else if ks.len() > 0 && g == seq![close_glyph(ks.last())] {
                ks.drop_last()
            } else {
                ks
            }
        },
        UnitView::LineBreak => ks,
    }
}

/// The kinds of the brackets open after `s`, from none.
pub open spec fn nesting_after(s: Seq<UnitView>) -> Seq<BPairs>
    decreases s.len(),
{
    if s.len() == 0 {
        seq![]
    } else {
        nest_step(nesting_after(s.drop_last()), s.last())
    }
}

/// `b` is one balanced bracket group: it opens with a bracket that stays
/// open until its last unit closes it; anything may stand in between,
/// nested groups, commas and line breaks included.
pub open spec fn is_bracket_group(b: Seq<UnitView>) -> bool {
    &&& b.len() >= 2
    &&& b[0] is Grapheme && open_kind(b[0]->Grapheme_0) is Some
    &&& forall|j: int| 1 <= j < b.len() ==> nesting_after(#[trigger] b.take(j)).len() > 0
    &&& nesting_after(b).len() == 0
}

pub proof fn lemma_stack_text_push(stack: Seq<(BPairs, Seq<char>)>, e: (BPairs, Seq<char>))
    ensures
        stack_text(stack.push(e)) == stack_text(stack) + e.1,
{
    assert(stack.push(e).drop_last() =~= stack);
}

pub proof fn lemma_stack_text_append_last(stack: Seq<(BPairs, Seq<char>)>, g: Seq<char>)
    requires
        stack.len() > 0,
    ensures
        stack_text(stack.update(stack.len() - 1, (stack.last().0, stack.last().1 + g)))
            == stack_text(stack) + g,
{
    let u = stack.update(stack.len() - 1, (stack.last().0, stack.last().1 + g));
    assert(u.drop_last() =~= stack.drop_last());
    assert(stack_text(stack.drop_last()) + (stack.last().1 + g) =~= stack_text(stack.drop_last())
        + stack.last().1 + g);
}

proof fn lemma_run_from_step(st: Scan, s: Seq<UnitView>, j: int)
    requires
        0 <= j < s.len(),
    ensures
        run_from(st, s.take(j + 1)) == step(run_from(st, s.take(j)), s[j]),
{
    assert(s.take(j + 1).drop_last() =~= s.take(j));
}

proof fn lemma_text_of_step(s: Seq<UnitView>, j: int)
    requires
        0 <= j < s.len(),
    ensures
        text_of(s.take(j + 1)) == text_of(s.take(j)) + unit_text(s[j]),
        nesting_after(s.take(j + 1)) == nest_step(nesting_after(s.take(j)), s[j]),
{
    assert(s.take(j + 1).drop_last() =~= s.take(j));
}

/// Inside a bracket group, the tokenizer's stack is the stack it started
/// from with one entry per bracket still open, whose texts together are the
/// group's text so far; nothing else has changed but the count of buried
/// line breaks.
proof fn lemma_group_prefix(st: Scan, b: Seq<UnitView>, j: int)
    requires
        is_bracket_group(b),
        1 <= j < b.len(),
    ensures
        ({
            let after = run_from(st, b.take(j));
            let m = st.stack.len() as int;
            let inner = after.stack.subrange(m, after.stack.len() as int);
            &&& after.stack.len() == m + nesting_after(b.take(j)).len()
            &&& after.stack.take(m) == st.stack
            &&& inner.map_values(|e: (BPairs, Seq<char>)| e.0) == nesting_after(b.take(j))
            &&& stack_text(inner) == text_of(b.take(j))
            &&& after.cur == st.cur
            &&& after.args == st.args
            &&& after.count == st.count
            &&& after.counts == st.counts
            &&& after.spanning == st.spanning
        }),
    decreases j,
{
    let m = st.stack.len() as int;
    if j == 1 {
        lemma_run_from_step(st, b, 0);
        lemma_text_of_step(b, 0);
        assert(b.take(0) =~= Seq::<UnitView>::empty());
        let after = run_from(st, b.take(1));
        let g = b[0]->Grapheme_0;
        assert(after.stack == st.stack.push((open_kind(g)->0, g)));
        let inner = after.stack.subrange(m, after.stack.len() as int);
        assert(inner =~= seq![(open_kind(g)->0, g)]);
        assert(after.stack.take(m) =~= st.stack);
        assert(inner.map_values(|e: (BPairs, Seq<char>)| e.0) =~= nesting_after(b.take(1)));
        assert(stack_text(inner) == stack_text(inner.drop_last()) + g);
        assert(inner.drop_last() =~= Seq::<(BPairs, Seq<char>)>::empty());
        assert(text_of(b.take(0)) =~= Seq::<char>::empty());
    } else {
        lemma_group_prefix(st, b, j - 1);
        lemma_run_from_step(st, b, j - 1);
        lemma_text_of_step(b, j - 1);
        let prev = run_from(st, b.take(j - 1));
        let after = run_from(st, b.take(j));
        let pin = prev.stack.subrange(m, prev.stack.len() as int);
        let ks = nesting_after(b.take(j - 1));
        let u = b[j - 1];
        assert(ks.len() > 0);
        assert(pin.len() == ks.len());
        assert(pin.last().0 == ks.last()) by {
            assert(pin.map_values(|e: (BPairs, Seq<char>)| e.0)[pin.len() - 1] == pin.last().0);
        }
        assert(prev.stack.last() == pin.last());
        let inner = after.stack.subrange(m, after.stack.len() as int);
        match u {
            UnitView::Grapheme(g) => {
                if open_kind(g) is Some {
                    let e = (open_kind(g)->0, g);
                    assert(after.stack == prev.stack.push(e));
                    assert(inner =~= pin.push(e));
                    lemma_stack_text_push(pin, e);
                    assert(after.stack.take(m) =~= prev.stack.take(m));
                    assert(inner.map_values(|e: (BPairs, Seq<char>)| e.0) =~= pin.map_values(
                        |e: (BPairs, Seq<char>)| e.0,
                    ).push(e.0));
                } else if g == seq![close_glyph(ks.last())] {
                    // the group's bracket is closed only by its last unit
                    assert(pin.len() >= 2);
                    let text = pin.last().1 + g;
                    let rest = prev.stack.drop_last();
                    assert(after == append_top(Scan { stack: rest, ..prev }, text));
                    let pin2 = pin.drop_last();
                    assert(rest.subrange(m, rest.len() as int) =~= pin2);
                    assert(inner =~= pin2.update(
                        pin2.len() - 1,
                        (pin2.last().0, pin2.last().1 + text),
                    ));
                    lemma_stack_text_append_last(pin2, text);
                    assert(stack_text(pin) == stack_text(pin2) + pin.last().1);
                    assert(stack_text(inner) =~= stack_text(pin) + g);
                    assert(after.stack.take(m) =~= prev.stack.take(m));
                    assert(inner.map_values(|e: (BPairs, Seq<char>)| e.0) =~= pin.map_values(
                        |e: (BPairs, Seq<char>)| e.0,
                    ).drop_last());
                } else {
                    assert(after == append_top(prev, g));
                    assert(inner =~= pin.update(
                        pin.len() - 1,
                        (pin.last().0, pin.last().1 + g),
                    ));
                    lemma_stack_text_append_last(pin, g);
                    assert(after.stack.take(m) =~= prev.stack.take(m));
                    assert(inner.map_values(|e: (BPairs, Seq<char>)| e.0) =~= pin.map_values(
                        |e: (BPairs, Seq<char>)| e.0,
                    ));
                }
            },
            UnitView::LineBreak => {
                assert(inner =~= pin.update(
                    pin.len() - 1,
                    (pin.last().0, pin.last().1 + seq!['\n']),
                ));
                lemma_stack_text_append_last(pin, seq!['\n']);
                assert(after.stack.take(m) =~= prev.stack.take(m));
                assert(inner.map_values(|e: (BPairs, Seq<char>)| e.0) =~= pin.map_values(
                    |e: (BPairs, Seq<char>)| e.0,
                ));
            },
        }
    }
}

/// A balanced bracket group is never split: its text, with its own
/// brackets, commas and line breaks, joins the argument being gathered (or
/// the bracket around it) verbatim, and no argument or line count is closed
/// on its account.
pub proof fn lemma_group_kept_whole(st: Scan, b: Seq<UnitView>)
    requires
        is_bracket_group(b),
    ensures
        ({
            let after = run_from(st, b);
            &&& after.args == st.args
            &&& after.count == st.count
            &&& after.counts == st.counts
            &&& after.spanning == st.spanning
            &&& if st.stack.len() == 0 {
                after.stack == st.stack && after.cur == st.cur + text_of(b)
            } else {
                after.stack == append_top(st, text_of(b)).stack && after.cur == st.cur
            }
        }),
{
    let n = b.len() as int;
    let m = st.stack.len() as int;
    lemma_group_prefix(st, b, n - 1);
    lemma_run_from_step(st, b, n - 1);
    lemma_text_of_step(b, n - 1);
    assert(b.take(n) =~= b);
    let prev = run_from(st, b.take(n - 1));
    let after = run_from(st, b);
    let pin = prev.stack.subrange(m, prev.stack.len() as int);
    let ks = nesting_after(b.take(n - 1));
    let u = b[n - 1];
    assert(pin.last().0 == ks.last()) by {
        assert(pin.map_values(|e: (BPairs, Seq<char>)| e.0)[pin.len() - 1] == pin.last().0);
    }
    // only the closing glyph of the outer bracket empties the nesting
    assert(ks.len() == 1 && u is Grapheme && !(open_kind(u->Grapheme_0) is Some)
        && u->Grapheme_0 == seq![close_glyph(ks.last())]);
    let g = u->Grapheme_0;
    assert(pin =~= seq![pin[0]]);
    assert(stack_text(pin) == stack_text(pin.drop_last()) + pin[0].1);
    assert(pin.drop_last() =~= Seq::<(BPairs, Seq<char>)>::empty());
    assert(prev.stack =~= st.stack.push(pin[0]));
    assert(prev.stack.drop_last() =~= st.stack);
    assert(pin[0].1 + g =~= text_of(b));
}

proof fn lemma_breaks_only(s: Seq<UnitView>)
    requires
        forall|i: int| 0 <= i < s.len() ==> s[i] is LineBreak,
    ensures
        run(s).stack.len() == 0,
        run(s).cur.len() == 0,
        run(s).args.len() == 0,
    decreases s.len(),
{
    if s.len() > 0 {
        lemma_breaks_only(s.drop_last());
    }
}

/// A region with nothing in it has no arguments.
pub proof fn lemma_empty_region_has_no_args(s: Seq<UnitView>)
    requires
        forall|i: int| 0 <= i < s.len() ==> s[i] is LineBreak,
    ensures
        tokenize(s).args.len() == 0,
{
    lemma_breaks_only(s);
    assert(leftover(s) =~= Seq::<char>::empty());
}

/// No argument starts or ends with whitespace.
pub proof fn lemma_args_have_no_edge_space(s: Seq<UnitView>)
    ensures
        forall|i: int|
            0 <= i < tokenize(s).args.len() ==> has_no_edge_space(#[trigger] tokenize(s).args[i]),
{
    assert forall|i: int| 0 <= i < tokenize(s).args.len() implies has_no_edge_space(
        #[trigger] tokenize(s).args[i],
    ) by {
        crate::text::lemma_trimmed_has_no_edge_space(raw_args(s)[i]);
    }
}

/// The sum of a sequence of counts.
pub open spec fn sum(s: Seq<int>) -> int
    decreases s.len(),
{
    if s.len() == 0 {
        0
    } else {
        sum(s.drop_last()) + s.last()
    }
}

/// The number of line breaks in `s`.
pub open spec fn breaks_in(s: Seq<UnitView>) -> nat
    decreases s.len(),
{
    if s.len() == 0 {
        0
    } else {
        breaks_in(s.drop_last()) + if s.last() is LineBreak {
            1nat
        } else {
            0nat
        }
    }
}

/// What the tokenizer's tallies add up to after any stream: every line
/// break closes a line count or is buried in a bracket, and the counts run
/// one ahead of the arguments for each line break met inside an argument.
pub proof fn lemma_run_tallies(s: Seq<UnitView>)
    ensures
        sum(run(s).counts) + run(s).count == run(s).args.len() + 1 + run(s).spanning,
        run(s).counts.len() + run(s).buried == breaks_in(s),
        s.len() > 0 && s.last() is LineBreak ==> run(s).count == 1 || run(s).buried > run(
            s.drop_last(),
        ).buried,
        s.len() > 0 ==> run(s).buried >= run(s.drop_last()).buried,
    decreases s.len(),
{
    if s.len() > 0 {
        lemma_run_tallies(s.drop_last());
        let prev = run(s.drop_last());
        let after = run(s);
        if after.counts.len() > prev.counts.len() {
            assert(after.counts.drop_last() =~= prev.counts);
        } else {
            assert(after.counts =~= prev.counts);
        }
    }
}

} // verus!
