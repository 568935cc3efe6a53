//! The argument list of a bracketed region: slicing the region out of its
//! lines, tokenizing it, and rebuilding it line by line.

use crate::text::{graphemes, graphemes_of, has_no_edge_space};
use crate::tokenize::{
    breaks_in, counts_view, ends_with_break, leftover, lemma_run_tallies, reprocessed_args, run,
    stream_of, sum, tokenize, Unit, UnitView,
};
use crate::utils::Pos;
use vstd::prelude::*;

verus! {

/// Clamps the zero-based cell range `[from, to)` to a line of `len` cells.
pub open spec fn clamp_range(from: int, to: int, len: int) -> (int, int) {
    let lo = if from < len {
        from
    } else {
        len
    };
    let hi = if to < len {
        to
    } else {
        len
    };
    (lo, if hi < lo {
        lo
    } else {
        hi
    })
}

/// The cells of line `i` that lie strictly between the bracket at `beg` and
/// the bracket at `end`: the first line from just after `beg`, the last line
/// up to just before `end`, the lines between them whole.
pub open spec fn line_cells(lines: Seq<Seq<Seq<char>>>, i: int, beg: Pos, end: Pos) -> Seq<
    Seq<char>,
> {
    let len = lines[i].len() as int;
    let from = if i == 0 {
        beg.col as int
    } else {
        0
    };
    let to = if i == lines.len() - 1 {
        end.col - 1
    } else {
        len
    };
    let r = clamp_range(from, to, len);
    lines[i].subrange(r.0, r.1)
}

/// A line's cells followed by the marker that ends the line.
pub open spec fn line_units(cells: Seq<Seq<char>>) -> Seq<UnitView> {
    cells.map_values(|g: Seq<char>| UnitView::Grapheme(g)).push(UnitView::LineBreak)
}

/// The stream of the region's first `k` lines.
pub open spec fn region_units_upto(lines: Seq<Seq<Seq<char>>>, beg: Pos, end: Pos, k: int) -> Seq<
    UnitView,
>
    decreases k,
{
    if k <= 0 {
        seq![]
    } else {
        region_units_upto(lines, beg, end, k - 1) + line_units(line_cells(lines, k - 1, beg, end))
    }
}

/// The stream of the region between `beg` and `end`.
pub open spec fn region_units(lines: Seq<Seq<Seq<char>>>, beg: Pos, end: Pos) -> Seq<UnitView> {
    region_units_upto(lines, beg, end, lines.len() as int)
}

/// The number of plain spaces that open `line`.
pub open spec fn leading_spaces(line: Seq<Seq<char>>) -> nat
    decreases line.len(),
{
    if line.len() > 0 && line[0] == seq![' '] {
        1 + leading_spaces(line.drop_first())
    } else {
        0
    }
}

/// The column of the first cell of `line` that is not a plain space, or 1
/// where there is none.
pub open spec fn indent_col(line: Seq<Seq<char>>) -> int {
    if leading_spaces(line) < line.len() {
        leading_spaces(line) + 1int
    } else {
        1
    }
}

/// For each line, its number in the buffer and its indentation column.
pub open spec fn indent_positions(lines: Seq<Seq<Seq<char>>>, beg: Pos) -> Seq<Pos> {
    Seq::new(
        lines.len(),
        |i: int| Pos { line: (beg.line + i) as u64, col: indent_col(lines[i]) as u64 },
    )
}

/// The number of arguments counted on line `i`; none past the counts.
pub open spec fn count_at(counts: Seq<int>, i: int) -> int {
    if 0 <= i < counts.len() {
        counts[i]
    } else {
        0
    }
}

/// The number of arguments counted on the lines before line `i`.
pub open spec fn offset(counts: Seq<int>, i: int) -> int
    decreases i,
{
    if i <= 0 {
        0
    } else {
        offset(counts, i - 1) + count_at(counts, i - 1)
    }
}

pub open spec fn min(a: int, b: int) -> int {
    if a < b {
        a
    } else {
        b
    }
}

/// The arguments that line `i` holds; counts that run past the arguments
/// stop at their end.
pub open spec fn line_args(args: Seq<Seq<char>>, counts: Seq<int>, i: int) -> Seq<Seq<char>> {
    args.subrange(
        min(offset(counts, i), args.len() as int),
        min(offset(counts, i + 1), args.len() as int),
    )
}

/// The parts joined, with `sep` between each two.
pub open spec fn join(parts: Seq<Seq<char>>, sep: Seq<char>) -> Seq<char>
    decreases parts.len(),
{
    if parts.len() == 0 {
        seq![]
    } else if parts.len() == 1 {
        parts[0]
    } else {
        join(parts.drop_last(), sep) + sep + parts.last()
    }
}

pub open spec fn comma_space() -> Seq<char> {
    seq![',', ' ']
}

pub open spec fn comma_newline() -> Seq<char> {
    seq![',', '\n']
}

pub open spec fn spaces(n: int) -> Seq<char> {
    Seq::new(n as nat, |i: int| ' ')
}

/// What an argument list is made of, as values.
pub struct ArgsView {
    /// The region's lines, as graphemes.
    pub lines: Seq<Seq<Seq<char>>>,
    /// For each line, its buffer position at its first non-space column.
    pub pos: Seq<Pos>,
    /// The top-level arguments, trimmed.
    pub args: Seq<Seq<char>>,
    /// The number of arguments on each line.
    pub counts: Seq<int>,
    pub beg: Pos,
    pub end: Pos,
}

/// Line `i` of the rebuilt text, before any indentation.
pub open spec fn line_text(v: ArgsView, i: int) -> Seq<char> {
    join(line_args(v.args, v.counts, i), comma_space())
}

/// The lines of the rebuilt text: the first line only where it holds
/// something, then every further line indented to its column in the source.
pub open spec fn rebuilt_lines(v: ArgsView) -> Seq<Seq<char>> {
    let first = if line_text(v, 0).len() > 0 {
        seq![line_text(v, 0)]
    } else {
        seq![]
    };
    let rest = if v.lines.len() >= 2 {
        Seq::new(
            (v.lines.len() - 1) as nat,
            |j: int| spaces(v.pos[j + 1].col - 1) + line_text(v, j + 1),
        )
    } else {
        seq![]
    };
    first + rest
}

/// The argument list rebuilt as text.
pub open spec fn reconstruction(v: ArgsView) -> Seq<char> {
    join(rebuilt_lines(v), comma_newline())
}

/// A region's lines, split into graphemes, with their indentation and
/// their top-level arguments.
pub struct Args {
    lines: Vec<Vec<String>>,
    pos_vec: Vec<Pos>,
    args: Vec<String>,
    counts: Vec<usize>,
    beg_pos: Pos,
    end_pos: Pos,
}

impl View for Args {
    type V = ArgsView;

    closed spec fn view(&self) -> ArgsView {
        ArgsView {
            lines: self.lines.deep_view(),
            pos: self.pos_vec@,
            args: self.args.deep_view(),
            counts: counts_view(self.counts@),
            beg: self.beg_pos,
            end: self.end_pos,
        }
    }
}

proof fn lemma_leading_spaces(line: Seq<Seq<char>>, i: int)
    requires
        0 <= i <= line.len(),
        forall|j: int| 0 <= j < i ==> #[trigger] line[j] == seq![' '],
    ensures
        i < line.len() && line[i] != seq![' '] ==> leading_spaces(line) == i,
        i == line.len() ==> leading_spaces(line) == i,
    decreases i,
{
    if i > 0 {
        let rest = line.drop_first();
        assert forall|j: int| 0 <= j < i - 1 implies #[trigger] rest[j] == seq![' '] by {
            assert(rest[j] == line[j + 1]);
        }
        lemma_leading_spaces(rest, i - 1);
        if i < line.len() {
            assert(rest[i - 1] == line[i]);
        }
    }
}

proof fn lemma_region_ends_with_break(lines: Seq<Seq<Seq<char>>>, beg: Pos, end: Pos, k: int)
    requires
        k >= 0,
    ensures
        ends_with_break(region_units_upto(lines, beg, end, k)),
{
    if k > 0 {
        let a = region_units_upto(lines, beg, end, k - 1);
        let b = line_units(line_cells(lines, k - 1, beg, end));
        assert((a + b).last() == b.last());
    }
}

pub proof fn lemma_join_push(parts: Seq<Seq<char>>, x: Seq<char>, sep: Seq<char>)
    ensures
        join(parts.push(x), sep) == if parts.len() == 0 {
            x
        } else {
            join(parts, sep) + sep + x
        },
{
    assert(parts.push(x).drop_last() =~= parts);
    if parts.len() == 0 {
        assert(parts.push(x)[0] == x);
    }
}

/// Joins `parts[from..to]` with `sep` between each two.
fn join_range(parts: &Vec<String>, from: usize, to: usize, sep: &str) -> (r: String)
    requires
        from <= to <= parts@.len(),
    ensures
        r@ == join(parts.deep_view().subrange(from as int, to as int), sep@),
{
    let mut r = String::new();
    let mut k: usize = from;
    while k < to
        invariant
            from <= k <= to <= parts@.len(),
            r@ == join(parts.deep_view().subrange(from as int, k as int), sep@),
        decreases to - k,
    {
        let ghost before = parts.deep_view().subrange(from as int, k as int);
        proof {
            lemma_join_push(before, parts@[k as int]@, sep@);
            assert(parts.deep_view().subrange(from as int, k + 1) =~= before.push(
                parts@[k as int]@,
            ));
        }
        if k > from {
            r.append(sep);
        }
        r.append(parts[k].as_str());
        k += 1;
    }
    r
}

impl Args {
    /// The lines are split into graphemes; the arguments are those of the
    /// region from just after `beg_pos` to just before `end_pos`, positions
    /// of the two brackets.
    pub fn new(raw_lines: Vec<String>, beg_pos: Pos, end_pos: Pos) -> (r: Args)
        requires
            end_pos.wf(),
            beg_pos.line + raw_lines@.len() <= u64::MAX + 1,
        ensures
            r.wf(),
            r@.lines == raw_lines@.map_values(|s: String| graphemes_of(s@)),
            r@.pos == indent_positions(r@.lines, beg_pos),
            r@.args == tokenize(region_units(r@.lines, beg_pos, end_pos)).args,
            r@.counts == tokenize(region_units(r@.lines, beg_pos, end_pos)).counts,
            r@.beg == beg_pos,
            r@.end == end_pos,
    {
        let lines = Args::parse_lines(&raw_lines);
        let pos_vec = Args::find_pos(&lines, beg_pos);
        let (args, counts) = Args::parse_args(&lines, beg_pos, end_pos);
        Args { lines, pos_vec, args, counts, beg_pos, end_pos }
    }

    /// The invariant that construction sets up: one indentation position per
    /// line, each column counted from 1.
    pub open spec fn wf(&self) -> bool {
        &&& self@.pos.len() == self@.lines.len()
        &&& forall|i: int| 0 <= i < self@.pos.len() ==> (#[trigger] self@.pos[i]).col >= 1
    }

    /// Each line split into its graphemes.
    pub fn parse_lines(lines_vec: &Vec<String>) -> (r: Vec<Vec<String>>)
        ensures
            r.deep_view() == lines_vec@.map_values(|s: String| graphemes_of(s@)),
    {
        let mut sel: Vec<Vec<String>> = Vec::new();
        let mut i: usize = 0;
        while i < lines_vec.len()
            invariant
                i <= lines_vec@.len(),
                sel.deep_view() == lines_vec@.take(i as int).map_values(
                    |s: String| graphemes_of(s@),
                ),
            decreases lines_vec@.len() - i,
        {
            let g = graphemes(lines_vec[i].as_str());
            let ghost before = sel.deep_view();
            sel.push(g);
            assert(sel.deep_view() =~= before.push(g.deep_view()));
            assert(sel.deep_view() =~= lines_vec@.take(i as int + 1).map_values(
                |s: String| graphemes_of(s@),
            ));
            i += 1;
        }
        assert(lines_vec@.take(i as int) =~= lines_vec@);
        sel
    }

    /// The index of the first cell that is not a plain space.
    fn first_not_whitespace(utf8_vec: &Vec<String>) -> (r: Option<usize>)
        ensures
            r == if leading_spaces(utf8_vec.deep_view()) < utf8_vec@.len() {
                Some(leading_spaces(utf8_vec.deep_view()) as usize)
            } else {
                None::<usize>
            },
    {
        let space = " ".to_owned();
        proof {
            reveal_strlit(" ");
        }
        let ghost line = utf8_vec.deep_view();
        let mut i: usize = 0;
        while i < utf8_vec.len()
            invariant
                i <= utf8_vec@.len(),
                line == utf8_vec.deep_view(),
                space@ == seq![' '],
                forall|j: int| 0 <= j < i ==> #[trigger] line[j] == seq![' '],
            decreases utf8_vec@.len() - i,
        {
            assert(line[i as int] == utf8_vec@[i as int]@);
            if utf8_vec[i] != space {
                proof {
                    lemma_leading_spaces(line, i as int);
                }
                return Some(i);
            }
            i += 1;
        }
        proof {
            lemma_leading_spaces(line, i as int);
        }
        None
    }

    /// Finds the first non-space column of every line, with the line's
    /// number in the buffer.
    fn find_pos(parsed_lines: &Vec<Vec<String>>, beg_pos: Pos) -> (r: Vec<Pos>)
        requires
            beg_pos.line + parsed_lines@.len() <= u64::MAX + 1,
        ensures
            r@ == indent_positions(parsed_lines.deep_view(), beg_pos),
            forall|j: int| 0 <= j < r@.len() ==> (#[trigger] r@[j]).col >= 1,
    {
        let mut pos_vec: Vec<Pos> = Vec::new();
        let mut i: usize = 0;
        while i < parsed_lines.len()
            invariant
                i <= parsed_lines@.len(),
                beg_pos.line + parsed_lines@.len() <= u64::MAX + 1,
                pos_vec@ == indent_positions(parsed_lines.deep_view(), beg_pos).take(i as int),
                forall|j: int| 0 <= j < pos_vec@.len() ==> (#[trigger] pos_vec@[j]).col >= 1,
            decreases parsed_lines@.len() - i,
        {
            let ghost line = parsed_lines.deep_view()[i as int];
            assert(parsed_lines@[i as int].deep_view() == line);
            let n: usize = match Args::first_not_whitespace(&parsed_lines[i]) {
                Some(number) => number,
                None => 0,
            };
            let line_len = parsed_lines[i].len();
            assert(line.len() == line_len);
            assert(n < line_len || n == 0);
            let p = Pos::new(i as u64 + beg_pos.line(), n as u64 + 1);
            assert(p.col == indent_col(line) as u64);
            assert(p == indent_positions(parsed_lines.deep_view(), beg_pos)[i as int]);
            let ghost before = pos_vec@;
            pos_vec.push(p);
            assert(pos_vec@ =~= indent_positions(parsed_lines.deep_view(), beg_pos).take(
                i as int + 1,
            ));
            i += 1;
        }
        assert(indent_positions(parsed_lines.deep_view(), beg_pos).take(i as int)
            =~= indent_positions(parsed_lines.deep_view(), beg_pos));
        pos_vec
    }

    /// Slices the region out of its lines and tokenizes it.
    pub fn parse_args(lines: &Vec<Vec<String>>, beg_pos: Pos, end_pos: Pos) -> (r: (
        Vec<String>,
        Vec<usize>,
    ))
        requires
            end_pos.wf(),
        ensures
            r.0.deep_view() == tokenize(region_units(lines.deep_view(), beg_pos, end_pos)).args,
            counts_view(r.1@) == tokenize(region_units(lines.deep_view(), beg_pos, end_pos)).counts,
            forall|i: int| 0 <= i < r.0@.len() ==> has_no_edge_space(#[trigger] r.0@[i]@),
    {
        let ghost ls = lines.deep_view();
        let n_lines = lines.len();
        let (_bl, bc) = beg_pos.get();
        let (_el, ec) = end_pos.to_char_index();
        let mut only_args: Vec<Unit> = Vec::new();
        let mut i: usize = 0;
        while i < n_lines
            invariant
                n_lines == lines@.len(),
                ls == lines.deep_view(),
                bc == beg_pos.col,
                ec == end_pos.col - 1,
                i <= n_lines,
                stream_of(only_args@) == region_units_upto(ls, beg_pos, end_pos, i as int),
            decreases n_lines - i,
        {
            let vs = &lines[i];
            let len = vs.len();
            let from: u64 = if i == 0 {
                bc
            } else {
                0
            };
            let to: u64 = if i == n_lines - 1 {
                ec
            } else {
                len as u64
            };
            let lo: usize = if from < len as u64 {
                from as usize
            } else {
                len
            };
            let hi0: usize = if to < len as u64 {
                to as usize
            } else {
                len
            };
            let hi: usize = if hi0 < lo {
                lo
            } else {
                hi0
            };
            let ghost cells = line_cells(ls, i as int, beg_pos, end_pos);
            assert(vs.deep_view() == ls[i as int]);
            assert(cells == vs.deep_view().subrange(lo as int, hi as int));
            let ghost start = stream_of(only_args@);
            let mut k: usize = lo;
            while k < hi
                invariant
                    lo <= k <= hi <= vs@.len(),
                    cells == vs.deep_view().subrange(lo as int, hi as int),
                    stream_of(only_args@) == start + cells.take(k - lo).map_values(
                        |g: Seq<char>| UnitView::Grapheme(g),
                    ),
                decreases hi - k,
            {
                let ghost prev = only_args@;
                only_args.push(Unit::Grapheme(vs[k].clone()));
                assert(cells[k - lo] == vs@[k as int]@);
                assert(stream_of(only_args@) =~= stream_of(prev).push(
                    UnitView::Grapheme(vs@[k as int]@),
                ));
                assert(cells.take(k - lo + 1) =~= cells.take(k - lo).push(cells[k - lo]));
                assert(stream_of(only_args@) =~= start + cells.take(k - lo + 1).map_values(
                    |g: Seq<char>| UnitView::Grapheme(g),
                ));
                k += 1;
            }
            let ghost prev = only_args@;
            only_args.push(Unit::LineBreak);
            assert(stream_of(only_args@) =~= stream_of(prev).push(UnitView::LineBreak));
            assert(cells.take(hi - lo) =~= cells);
            assert(stream_of(only_args@) =~= region_units_upto(
                ls,
                beg_pos,
                end_pos,
                i as int + 1,
            ));
            i += 1;
        }
        proof {
            lemma_region_ends_with_break(ls, beg_pos, end_pos, n_lines as int);
        }
        reprocessed_args(&only_args)
    }

    /// Rearranging the arguments is not offered yet: the list is left as it is.
    pub fn cycle_args(&mut self)
        ensures
            *final(self) == *old(self),
    {
    }

    /// The number of arguments on the lines before `line`, at most the
    /// number of arguments.
    fn args_offset(&self, line: usize) -> (r: usize)
        ensures
            r == min(offset(self@.counts, line as int), self@.args.len() as int),
    {
        let total = self.args.len();
        let mut acc: usize = 0;
        let mut j: usize = 0;
        while j < line
            invariant
                j <= line,
                total == self@.args.len(),
                acc == min(offset(self@.counts, j as int), total as int),
                offset(self@.counts, j as int) >= 0,
            decreases line - j,
        {
            if j < self.counts.len() {
                let c = self.counts[j];
                if c >= total - acc {
                    acc = total;
                } else {
                    acc = acc + c;
                }
            }
            j += 1;
        }
        acc
    }

    fn first_line(&self) -> (r: String)
        ensures
            r@ == line_text(self@, 0),
    {
        let first_pos = self.args_offset(0);
        let last_pos = self.args_offset(1);
        proof {
            assert(offset(self@.counts, 1) >= offset(self@.counts, 0));
            reveal_strlit(", ");
            assert(", "@ == comma_space());
        }
        join_range(&self.args, first_pos, last_pos, ", ")
    }

    /// Line `line_number` of the rebuilt text, indented to its source
    /// first non-space column.
    fn reconstruct_line(&self, line_number: usize) -> (r: String)
        requires
            self.wf(),
            line_number < self@.lines.len(),
        ensures
            r@ == spaces(self@.pos[line_number as int].col - 1) + line_text(self@, line_number as int),
    {
        // bounds `line_number + 1` by the length of a vector
        let _n_lines = self.lines.len();
        let whitespace_slots: u64 = self.pos_vec[line_number].col();
        let first_pos = self.args_offset(line_number);
        let last_pos = self.args_offset(line_number + 1);
        proof {
            assert(offset(self@.counts, line_number + 1) >= offset(self@.counts, line_number as int));
            reveal_strlit(", ");
            assert(", "@ == comma_space());
        }
        let args = join_range(&self.args, first_pos, last_pos, ", ");
        let mut line = String::new();
        let mut k: u64 = 0;
        while k < whitespace_slots - 1
            invariant
                whitespace_slots >= 1,
                k <= whitespace_slots - 1,
                line@ == spaces(k as int),
            decreases whitespace_slots - 1 - k,
        {
            proof {
                reveal_strlit(" ");
            }
            line.append(" ");
            assert(line@ =~= spaces(k + 1));
            k += 1;
        }
        line.append(args.as_str());
        line
    }

    /// The argument list as text: each line holds the arguments that it held
    /// in the source, joined by ", ", and the lines are joined by ",\n".
    pub fn reconstruct_args(&self) -> (r: String)
        requires
            self.wf(),
        ensures
            r@ == reconstruction(self@),
    {
        let ghost v = self@;
        let mut stringified_args: Vec<String> = Vec::new();
        let first = self.first_line();
        let ghost first_part = if line_text(v, 0).len() > 0 {
            seq![line_text(v, 0)]
        } else {
            seq![]
        };
        if !first.as_str().is_empty() {
            stringified_args.push(first);
        }
        assert(stringified_args.deep_view() =~= first_part);
        let n = self.lines.len();
        if n >= 2 {
            let mut i: usize = 1;
            while i < n
                invariant
                    v == self@,
                    self.wf(),
                    n == v.lines.len(),
                    1 <= i <= n,
                    stringified_args.deep_view() == first_part + Seq::new(
                        (i - 1) as nat,
                        |j: int| spaces(v.pos[j + 1].col - 1) + line_text(v, j + 1),
                    ),
                decreases n - i,
            {
                let recon = self.reconstruct_line(i);
                let ghost before = stringified_args.deep_view();
                stringified_args.push(recon);
                assert(stringified_args.deep_view() =~= before.push(recon@));
                assert(stringified_args.deep_view() =~= first_part + Seq::new(
                    i as nat,
                    |j: int| spaces(v.pos[j + 1].col - 1) + line_text(v, j + 1),
                ));
                i += 1;
            }
            assert(stringified_args.deep_view() =~= rebuilt_lines(v));
        } else {
            assert(stringified_args.deep_view() =~= rebuilt_lines(v));
        }
        proof {
            reveal_strlit(",\n");
        }
        assert(",\n"@ == comma_newline());
        let r = join_range(&stringified_args, 0, stringified_args.len(), ",\n");
        assert(stringified_args.deep_view().subrange(0, stringified_args@.len() as int)
            =~= stringified_args.deep_view());
        r
    }
}

proof fn lemma_region_breaks(lines: Seq<Seq<Seq<char>>>, beg: Pos, end: Pos, k: int)
    requires
        k >= 0,
    ensures
        breaks_in(region_units_upto(lines, beg, end, k)) == k,
    decreases k,
{
    if k > 0 {
        lemma_region_breaks(lines, beg, end, k - 1);
        let a = region_units_upto(lines, beg, end, k - 1);
        let cells = line_cells(lines, k - 1, beg, end);
        let graphs = cells.map_values(|g: Seq<char>| UnitView::Grapheme(g));
        lemma_breaks_append(a, graphs);
        lemma_no_breaks(graphs);
        lemma_breaks_append(a + graphs, seq![UnitView::LineBreak]);
        assert(line_units(cells) =~= graphs + seq![UnitView::LineBreak]);
        assert(a + line_units(cells) =~= (a + graphs) + seq![UnitView::LineBreak]);
        let one = seq![UnitView::LineBreak];
        assert(one.drop_last() =~= Seq::<UnitView>::empty());
        assert(breaks_in(one.drop_last()) == 0);
        assert(one.last() is LineBreak);
        assert(breaks_in(one) == 1);
    }
}

proof fn lemma_no_breaks(s: Seq<UnitView>)
    requires
        forall|i: int| 0 <= i < s.len() ==> s[i] is Grapheme,
    ensures
        breaks_in(s) == 0,
    decreases s.len(),
{
    if s.len() > 0 {
        lemma_no_breaks(s.drop_last());
    }
}

proof fn lemma_breaks_append(a: Seq<UnitView>, b: Seq<UnitView>)
    ensures
        breaks_in(a + b) == breaks_in(a) + breaks_in(b),
    decreases b.len(),
{
    if b.len() > 0 {
        lemma_breaks_append(a, b.drop_last());
        assert((a + b).drop_last() =~= a + b.drop_last());
    } else {
        assert(a + b =~= a);
    }
}

/// The counts give each line of the region one count and add up to the
/// number of arguments exactly when no line break falls inside a bracket,
/// and the line breaks met while an argument held more than whitespace
/// number one where text is left over for a last argument, none otherwise.
pub proof fn lemma_counts_match_lines(lines: Seq<Seq<Seq<char>>>, beg: Pos, end: Pos)
    requires
        lines.len() >= 1,
    ensures
        ({
            let s = region_units(lines, beg, end);
            let t = tokenize(s);
            (t.counts.len() == lines.len() && sum(t.counts) == t.args.len()) <==> (run(s).buried
                == 0 && run(s).spanning == if leftover(s).len() > 0 {
                1nat
            } else {
                0nat
            })
        }),
{
    let s = region_units(lines, beg, end);
    lemma_region_breaks(lines, beg, end, lines.len() as int);
    lemma_region_ends_with_break(lines, beg, end, lines.len() as int);
    lemma_run_tallies(s);
    lemma_region_units_nonempty(lines, beg, end, lines.len() as int);
    if run(s).buried == 0 {
        lemma_run_tallies(s.drop_last());
    }
}

proof fn lemma_region_units_nonempty(lines: Seq<Seq<Seq<char>>>, beg: Pos, end: Pos, k: int)
    requires
        k >= 1,
    ensures
        region_units_upto(lines, beg, end, k).len() > 0,
{
}

} // verus!
