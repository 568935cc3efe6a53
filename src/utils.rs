//! Buffer positions and the bracket kinds the parser knows about.

use std::cmp::Ordering;
use vstd::prelude::*;

verus! {

/// A (line, column) position in a text buffer, both counted from 1.
#[derive(Debug, Clone, Copy, Eq)]
pub struct Pos {
    pub line: u64,
    pub col: u64,
}

/// Lexicographic order on positions: first by line, then by column.
pub open spec fn pos_cmp(a: Pos, b: Pos) -> Ordering {
    if a.line < b.line {
        Ordering::Less
    } else if a.line > b.line {
        Ordering::Greater
    } else if a.col < b.col {
        Ordering::Less
    } else if a.col > b.col {
        Ordering::Greater
    } else {
        Ordering::Equal
    }
}

impl Pos {
    /// Both coordinates are counted from 1.
    pub open spec fn wf(self) -> bool {
        self.line >= 1 && self.col >= 1
    }

    pub fn new(line: u64, col: u64) -> (r: Self)
        ensures
            r.line == line,
            r.col == col,
    {
        Self { line, col }
    }

    pub fn line(&self) -> (r: u64)
        ensures
            r == self.line,
    {
        self.line
    }

    pub fn col(&self) -> (r: u64)
        ensures
            r == self.col,
    {
        self.col
    }

    pub fn get(&self) -> (r: (u64, u64))
        ensures
            r == (self.line, self.col),
    {
        (self.line, self.col)
    }

    /// The one conversion from buffer coordinates to zero-based indices.
    pub fn to_char_index(&self) -> (r: (u64, u64))
        requires
            self.wf(),
        ensures
            r.0 == self.line - 1,
            r.1 == self.col - 1,
    {
        (self.line - 1, self.col - 1)
    }
}

impl PartialEq for Pos {
    fn eq(&self, other: &Pos) -> (r: bool) {
        self.col == other.col && self.line == other.line
    }
}

impl vstd::std_specs::cmp::PartialEqSpecImpl for Pos {
    open spec fn obeys_eq_spec() -> bool {
        true
    }

    open spec fn eq_spec(&self, other: &Pos) -> bool {
        self.line == other.line && self.col == other.col
    }
}

impl PartialOrd for Pos {
    fn partial_cmp(&self, other: &Pos) -> (r: Option<Ordering>) {
        if self.line < other.line {
            Some(Ordering::Less)
        } else if self.line > other.line {
            Some(Ordering::Greater)
        } else if self.col < other.col {
            Some(Ordering::Less)
        } else if self.col > other.col {
            Some(Ordering::Greater)
        } else {
            Some(Ordering::Equal)
        }
    }
}

impl vstd::std_specs::cmp::PartialOrdSpecImpl for Pos {
    open spec fn obeys_partial_cmp_spec() -> bool {
        true
    }

    open spec fn partial_cmp_spec(&self, other: &Pos) -> Option<Ordering> {
        Some(pos_cmp(*self, *other))
    }
}

/// The three bracket kinds: square, round and curly.
#[derive(Debug, Clone, Copy, PartialEq, Eq, Structural)]
pub enum BPairs {
    Brack,
    Paren,
    Curly,
}

/// The character that opens a bracket of kind `k`.
pub open spec fn open_glyph(k: BPairs) -> char {
    match k {
        BPairs::Brack => '[',
        BPairs::Paren => '(',
        BPairs::Curly => '{',
    }
}

/// The character that closes a bracket of kind `k`.
pub open spec fn close_glyph(k: BPairs) -> char {
    match k {
        BPairs::Brack => ']',
        BPairs::Paren => ')',
        BPairs::Curly => '}',
    }
}

/// The pair of search patterns for kind `k`; the square bracket is escaped,
/// as the editor's pattern language gives it a meaning of its own.
pub open spec fn pattern_pair(k: BPairs) -> (Seq<char>, Seq<char>) {
    match k {
        BPairs::Brack => (seq!['\\', '['], seq!['\\', ']']),
        BPairs::Paren => (seq!['('], seq![')']),
        BPairs::Curly => (seq!['{'], seq!['}']),
    }
}

/// Every kind, in the order in which the kinds are tried.
pub open spec fn all_kinds() -> Seq<BPairs> {
    seq![BPairs::Brack, BPairs::Paren, BPairs::Curly]
}

impl BPairs {
    pub fn to_string_pair(&self) -> (r: (String, String))
        ensures
            (r.0@, r.1@) == pattern_pair(*self),
    {
        match self {
            BPairs::Brack => {
                proof {
                    reveal_strlit("\\[");
                    reveal_strlit("\\]");
                }
                ("\\[".to_owned(), "\\]".to_owned())
            },
            BPairs::Paren => {
                proof {
                    reveal_strlit("(");
                    reveal_strlit(")");
                }
                ("(".to_owned(), ")".to_owned())
            },
            BPairs::Curly => {
                proof {
                    reveal_strlit("{");
                    reveal_strlit("}");
                }
                ("{".to_owned(), "}".to_owned())
            },
        }
    }

    pub fn to_simple_string_open(&self) -> (r: String)
        ensures
            r@ == seq![open_glyph(*self)],
    {
        match self {
            BPairs::Brack => {
                proof {
                    reveal_strlit("[");
                }
                "[".to_owned()
            },
            BPairs::Paren => {
                proof {
                    reveal_strlit("(");
                }
                "(".to_owned()
            },
            BPairs::Curly => {
                proof {
                    reveal_strlit("{");
                }
                "{".to_owned()
            },
        }
    }

    pub fn to_simple_string_close(&self) -> (r: String)
        ensures
            r@ == seq![close_glyph(*self)],
    {
        match self {
            BPairs::Brack => {
                proof {
                    reveal_strlit("]");
                }
                "]".to_owned()
            },
            BPairs::Paren => {
                proof {
                    reveal_strlit(")");
                }
                ")".to_owned()
            },
            BPairs::Curly => {
                proof {
                    reveal_strlit("}");
                }
                "}".to_owned()
            },
        }
    }

    pub fn array() -> (r: [BPairs; 3])
        ensures
            r@ == all_kinds(),
    {
        let r = [BPairs::Brack, BPairs::Paren, BPairs::Curly];
        assert(r@ =~= all_kinds());
        r
    }
}

/// What the editor's bracket search reports as a position: line and column
/// 0 both stand for "not found".
pub fn found_at(line: u64, col: u64) -> (r: Option<Pos>)
    ensures
        r == if line != 0 && col != 0 {
            Some(Pos { line, col })
        } else {
            None::<Pos>
        },
{
    if line != 0 && col != 0 {
        Some(Pos::new(line, col))
    } else {
        None
    }
}

/// `found[i]` is a match at `p` that no match of `found` lies after, and
/// every match listed before it lies before it.
pub open spec fn is_closest_at(found: Seq<(BPairs, Option<Pos>)>, i: int, p: Pos) -> bool {
    &&& 0 <= i < found.len()
    &&& found[i].1 == Some(p)
    &&& forall|j: int|
        0 <= j < found.len() && #[trigger] found[j].1 is Some ==> pos_cmp(found[j].1->0, p)
            != Ordering::Greater
    &&& forall|j: int|
        0 <= j < i && #[trigger] found[j].1 is Some ==> pos_cmp(found[j].1->0, p)
            == Ordering::Less
}

/// Of the opening brackets found before the cursor, one per kind, the one
/// closest to the cursor: the one at the greatest position, the first
/// listed among equals. None where no kind was found.
pub fn closest_bpair(found: &Vec<(BPairs, Option<Pos>)>) -> (r: Option<(BPairs, Pos)>)
    ensures
        r is None <==> forall|j: int| 0 <= j < found@.len() ==> #[trigger] found@[j].1 is None,
        r matches Some((k, p)) ==> exists|i: int|
            is_closest_at(found@, i, p) && #[trigger] found@[i].0 == k,
{
    let mut dual: Option<(BPairs, Pos)> = None;
    let ghost mut at: int = 0;
    let mut i: usize = 0;
    while i < found.len()
        invariant
            i <= found@.len(),
            dual is None <==> forall|j: int| 0 <= j < i ==> #[trigger] found@[j].1 is None,
            dual matches Some((k, p)) ==> {
                &&& 0 <= at < i
                &&& found@[at] == (k, Some(p))
                &&& forall|j: int|
                    0 <= j < i && #[trigger] found@[j].1 is Some ==> pos_cmp(found@[j].1->0, p)
                        != Ordering::Greater
                &&& forall|j: int|
                    0 <= j < at && #[trigger] found@[j].1 is Some ==> pos_cmp(found@[j].1->0, p)
                        == Ordering::Less
            },
        decreases found@.len() - i,
    {
        let (bpair, search) = found[i];
        if let Some(pos) = search {
            dual = match dual {
                Some((old_bpair, old_pos)) => {
                    if pos > old_pos {
                        proof {
                            at = i as int;
                        }
                        Some((bpair, pos))
                    } else {
                        Some((old_bpair, old_pos))
                    }
                },
                None => {
                    proof {
                        at = i as int;
                    }
                    Some((bpair, pos))
                },
            };
        }
        i += 1;
    }
    proof {
        if let Some((k, p)) = dual {
            assert(is_closest_at(found@, at, p) && found@[at].0 == k);
        }
    }
    dual
}

/// Something that takes the notes a caller leaves on its way; by default
/// it drops them.
pub trait Logger {
    fn log(&mut self, string: &str) {
    }

    fn log_err<T: std::fmt::Debug>(&mut self, string: &str, err: T) {
    }
}

} // verus!
