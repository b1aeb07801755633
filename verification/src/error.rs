use vstd::prelude::*;

verus! {

/// The named rules of the filter grammar. A syntax error reports which of
/// these were expected at the failing position.
#[derive(Clone, Copy, Debug, PartialEq, Eq)]
pub enum Rule {
    Filter,
    Segment,
    Name,
    QuotedName,
    Label,
    NumericIndex,
}

/// A location in the input, for diagnostic display: a character offset and
/// the 1-based line and column it falls on.
#[derive(Clone, Copy, Debug, PartialEq, Eq)]
pub struct Position {
    pub offset: usize,
    pub line: usize,
    pub column: usize,
}

/// The single error surface of the parser.
///
/// `Syntax` comes from the grammar: no rule alternative matched at `pos`.
/// `IndexOverflow` comes from the reducer: a numeric index does not fit the
/// platform's index range. `UnsupportedConstruct` is the reducer's defensive
/// variant for a parse-tree node kind it does not recognize; the tree is a
/// closed set of node kinds, so nothing in this crate produces it.
#[derive(Clone, Debug, PartialEq)]
pub enum FilterError {
    Syntax { pos: Position, expected: Vec<Rule> },
    IndexOverflow { pos: Position },
    UnsupportedConstruct { pos: Position },
}

/// The mathematical value of a [`FilterError`]: the kind, the character
/// offset, and for syntax errors the expected rules.
pub enum SpecError {
    Syntax { at: int, expected: Seq<Rule> },
    IndexOverflow { at: int },
    UnsupportedConstruct { at: int },
}

impl View for FilterError {
    type V = SpecError;

    open spec fn view(&self) -> SpecError {
        match self {
            FilterError::Syntax { pos, expected } => SpecError::Syntax {
                at: pos.offset as int,
                expected: expected@,
            },
            FilterError::IndexOverflow { pos } => SpecError::IndexOverflow { at: pos.offset as int },
            FilterError::UnsupportedConstruct { pos } => SpecError::UnsupportedConstruct {
                at: pos.offset as int,
            },
        }
    }
}

/// The 1-based line number of character offset `off` in `s`: one more than
/// the number of newlines strictly before `off`.
pub open spec fn spec_line(s: Seq<char>, off: int) -> int
    decreases off,
{
    if off <= 0 {
        1
    } else {
        spec_line(s, off - 1) + if s[off - 1] == '\n' {
            1int
        } else {
            0int
        }
    }
}

/// The offset of the first character of the line that offset `off` falls on.
pub open spec fn spec_line_start(s: Seq<char>, off: int) -> int
    decreases off,
{
    if off <= 0 {
        0
    } else if s[off - 1] == '\n' {
        off
    } else {
        spec_line_start(s, off - 1)
    }
}

/// The 1-based column of character offset `off` in `s`, counted in characters.
pub open spec fn spec_column(s: Seq<char>, off: int) -> int {
    off - spec_line_start(s, off) + 1
}

/// Saturation at the largest machine-representable value, for line and
/// column numbers of inputs near the machine's size limit.
pub open spec fn cap_usize(x: int) -> int {
    if x > usize::MAX as int {
        usize::MAX as int
    } else {
        x
    }
}

/// A position whose line and column are correct for `s` (saturating at
/// `usize::MAX`).
pub open spec fn position_wf(s: Seq<char>, p: Position) -> bool {
    &&& p.line as int == cap_usize(spec_line(s, p.offset as int))
    &&& p.column as int == cap_usize(spec_column(s, p.offset as int))
}

/// The position carried by an error.
pub open spec fn err_position(e: FilterError) -> Position {
    match e {
        FilterError::Syntax { pos, .. } => pos,
        FilterError::IndexOverflow { pos } => pos,
        FilterError::UnsupportedConstruct { pos } => pos,
    }
}

/// An error whose position's line and column are correct for `s`.
pub open spec fn err_position_wf(s: Seq<char>, e: FilterError) -> bool {
    position_wf(s, err_position(e))
}

proof fn lemma_line_start_le(s: Seq<char>, off: int)
    requires
        0 <= off,
    ensures
        0 <= spec_line_start(s, off) <= off,
    decreases off,
{
    if off > 0 && s[off - 1] != '\n' {
        lemma_line_start_le(s, off - 1);
    }
}

/// Compute the [`Position`] of character offset `offset` in `input`.
pub fn position_of(input: &str, offset: usize) -> (p: Position)
    requires
        offset <= input@.len(),
    ensures
        p.offset == offset,
        position_wf(input@, p),
{
    let mut i: usize = 0;
    let mut line: usize = 1;
    let mut start: usize = 0;
    while i < offset
        invariant
            offset <= input@.len(),
            i <= offset,
            start <= i,
            line as int == cap_usize(spec_line(input@, i as int)),
            start as int == spec_line_start(input@, i as int),
        decreases offset - i,
    {
        let c = input.get_char(i);
        proof {
            assert(spec_line(input@, i + 1) == spec_line(input@, i as int) + if input@[i as int]
                == '\n' {
                1int
            } else {
                0int
            });
            assert(spec_line_start(input@, i + 1) == if input@[i as int] == '\n' {
                i + 1
            } else {
                spec_line_start(input@, i as int)
            });
        }
        if c == '\n' {
            if line < usize::MAX {
                line = line + 1;
            }
            start = i + 1;
        }
        i = i + 1;
    }
    proof {
        lemma_line_start_le(input@, offset as int);
    }
    let diff = offset - start;
    let column = if diff == usize::MAX {
        usize::MAX
    } else {
        diff + 1
    };
    Position { offset, line, column }
}

/// A syntax error at `at` expecting the one rule `r`.
pub(crate) fn syntax_error1(input: &str, at: usize, r: Rule) -> (e: FilterError)
    requires
        at <= input@.len(),
    ensures
        e@ == (SpecError::Syntax { at: at as int, expected: seq![r] }),
        err_position_wf(input@, e),
{
    let pos = position_of(input, at);
    let mut expected: Vec<Rule> = Vec::new();
    expected.push(r);
    proof {
        assert(expected@ =~= seq![r]);
    }
    FilterError::Syntax { pos, expected }
}

/// A syntax error at `at` expecting either of the rules `r1` and `r2`.
pub(crate) fn syntax_error2(input: &str, at: usize, r1: Rule, r2: Rule) -> (e: FilterError)
    requires
        at <= input@.len(),
    ensures
        e@ == (SpecError::Syntax { at: at as int, expected: seq![r1, r2] }),
        err_position_wf(input@, e),
{
    let pos = position_of(input, at);
    let mut expected: Vec<Rule> = Vec::new();
    expected.push(r1);
    expected.push(r2);
    proof {
        assert(expected@ =~= seq![r1, r2]);
    }
    FilterError::Syntax { pos, expected }
}

/// An index-overflow error at `at`.
pub(crate) fn overflow_error(input: &str, at: usize) -> (e: FilterError)
    requires
        at <= input@.len(),
    ensures
        e@ == (SpecError::IndexOverflow { at: at as int }),
        err_position_wf(input@, e),
{
    let pos = position_of(input, at);
    FilterError::IndexOverflow { pos }
}

} // verus!
