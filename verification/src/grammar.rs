use vstd::prelude::*;

verus! {

use crate::error::{FilterError, Rule, SpecError, err_position_wf, syntax_error1, syntax_error2};

// ---------------------------------------------------------------------------
// The filter language, informally:
//
//   filter        ::= segment+
//   segment       ::= "." (name | quoted_name) qualifier*
//   qualifier     ::= "{" quoted_name "}"        (a label)
//                   | "[" numeric_index "]"      (an index)
//   name          ::= (ALPHA | "_") (ALPHA | DIGIT | "_")*
//   quoted_name   ::= '"' (any char except '"')* '"'
//   numeric_index ::= DIGIT+
//
// No whitespace is skipped anywhere, and the whole input must be consumed.
// ---------------------------------------------------------------------------

/// An ASCII decimal digit.
pub open spec fn is_digit(c: char) -> bool {
    48 <= c as u32 && c as u32 <= 57
}

/// A character that may begin a bare name: an ASCII letter or an underscore.
pub open spec fn is_name_start(c: char) -> bool {
    (97 <= c as u32 && c as u32 <= 122) || (65 <= c as u32 && c as u32 <= 90) || c == '_'
}

/// A character that may continue a bare name.
pub open spec fn is_name_char(c: char) -> bool {
    is_name_start(c) || is_digit(c)
}

/// Every character of `s` is an ASCII decimal digit.
pub open spec fn all_digits(s: Seq<char>) -> bool {
    forall|j: int| 0 <= j < s.len() ==> is_digit(s[j])
}

fn digit_char(c: char) -> (b: bool)
    ensures
        b == is_digit(c),
{
    let u = c as u32;
    48 <= u && u <= 57
}

fn name_start_char(c: char) -> (b: bool)
    ensures
        b == is_name_start(c),
{
    let u = c as u32;
    (97 <= u && u <= 122) || (65 <= u && u <= 90) || c == '_'
}

fn name_char(c: char) -> (b: bool)
    ensures
        b == is_name_char(c),
{
    name_start_char(c) || digit_char(c)
}

// ---------------------------------------------------------------------------
// Maximal scans. Each returns the first position at or after `i` where its
// character class ends.
// ---------------------------------------------------------------------------

/// The end of the run of name characters starting at `i`.
pub open spec fn name_run_end(s: Seq<char>, i: int) -> int
    decreases s.len() - i,
{
    if i < s.len() && is_name_char(s[i]) {
        name_run_end(s, i + 1)
    } else {
        i
    }
}

/// The end of the run of non-quote characters starting at `i`.
pub open spec fn nonquote_run_end(s: Seq<char>, i: int) -> int
    decreases s.len() - i,
{
    if i < s.len() && s[i] != '"' {
        nonquote_run_end(s, i + 1)
    } else {
        i
    }
}

/// The end of the run of digits starting at `i`.
pub open spec fn digit_run_end(s: Seq<char>, i: int) -> int
    decreases s.len() - i,
{
    if i < s.len() && is_digit(s[i]) {
        digit_run_end(s, i + 1)
    } else {
        i
    }
}

pub proof fn lemma_name_run_end(s: Seq<char>, i: int)
    requires
        0 <= i <= s.len(),
    ensures
        i <= name_run_end(s, i) <= s.len(),
        forall|j: int| i <= j < name_run_end(s, i) ==> is_name_char(s[j]),
        name_run_end(s, i) < s.len() ==> !is_name_char(s[name_run_end(s, i)]),
    decreases s.len() - i,
{
    if i < s.len() && is_name_char(s[i]) {
        lemma_name_run_end(s, i + 1);
    }
}

pub proof fn lemma_nonquote_run_end(s: Seq<char>, i: int)
    requires
        0 <= i <= s.len(),
    ensures
        i <= nonquote_run_end(s, i) <= s.len(),
        forall|j: int| i <= j < nonquote_run_end(s, i) ==> s[j] != '"',
        nonquote_run_end(s, i) < s.len() ==> s[nonquote_run_end(s, i)] == '"',
    decreases s.len() - i,
{
    if i < s.len() && s[i] != '"' {
        lemma_nonquote_run_end(s, i + 1);
    }
}

pub proof fn lemma_digit_run_end(s: Seq<char>, i: int)
    requires
        0 <= i <= s.len(),
    ensures
        i <= digit_run_end(s, i) <= s.len(),
        forall|j: int| i <= j < digit_run_end(s, i) ==> is_digit(s[j]),
        digit_run_end(s, i) < s.len() ==> !is_digit(s[digit_run_end(s, i)]),
    decreases s.len() - i,
{
    if i < s.len() && is_digit(s[i]) {
        lemma_digit_run_end(s, i + 1);
    }
}

// ---------------------------------------------------------------------------
// The parse tree: a segment is a list of tagged child nodes in document
// order. The node kinds are a closed set; a consumer that matches on them
// exhaustively is forced to handle any kind added later.
// ---------------------------------------------------------------------------

/// A half-open character range `[start, end)` in the input.
#[derive(Clone, Copy, Debug, PartialEq, Eq)]
pub struct Span {
    pub start: usize,
    pub end: usize,
}

/// One child of a segment. `text` is the matched content without its
/// delimiters: the name without quotes, the label without braces and quotes,
/// the index digits without brackets. `span` is the character range of that
/// content.
#[derive(Clone, Debug, PartialEq)]
pub enum Node {
    Name { text: String, span: Span },
    QuotedName { text: String, span: Span },
    Label { text: String, span: Span },
    NumericIndex { text: String, span: Span },
}

/// One top-level segment of the parse tree.
#[derive(Clone, Debug, PartialEq)]
pub struct Segment {
    pub nodes: Vec<Node>,
}

/// The mathematical value of a [`Node`].
pub enum SpecNode {
    Name { text: Seq<char>, start: int, end: int },
    QuotedName { text: Seq<char>, start: int, end: int },
    Label { text: Seq<char>, start: int, end: int },
    NumericIndex { text: Seq<char>, start: int, end: int },
}

/// The mathematical value of a [`Segment`].
pub struct SpecSegment {
    pub nodes: Seq<SpecNode>,
}

impl View for Node {
    type V = SpecNode;

    open spec fn view(&self) -> SpecNode {
        match self {
            Node::Name { text, span } => SpecNode::Name {
                text: text@,
                start: span.start as int,
                end: span.end as int,
            },
            Node::QuotedName { text, span } => SpecNode::QuotedName {
                text: text@,
                start: span.start as int,
                end: span.end as int,
            },
            Node::Label { text, span } => SpecNode::Label {
                text: text@,
                start: span.start as int,
                end: span.end as int,
            },
            Node::NumericIndex { text, span } => SpecNode::NumericIndex {
                text: text@,
                start: span.start as int,
                end: span.end as int,
            },
        }
    }
}

/// The views of a sequence of nodes.
pub open spec fn nodes_view(ns: Seq<Node>) -> Seq<SpecNode> {
    ns.map_values(|n: Node| n@)
}

impl View for Segment {
    type V = SpecSegment;

    open spec fn view(&self) -> SpecSegment {
        SpecSegment { nodes: nodes_view(self.nodes@) }
    }
}

/// The views of a sequence of segments.
pub open spec fn tree_view(t: Seq<Segment>) -> Seq<SpecSegment> {
    t.map_values(|g: Segment| g@)
}

/// A node is well formed for input `s` when its text is exactly the spanned
/// characters of `s`, and an index node holds one or more digits.
pub open spec fn node_wf(n: SpecNode, s: Seq<char>) -> bool {
    match n {
        SpecNode::Name { text, start, end } => 0 <= start <= end <= s.len() && text == s.subrange(
            start,
            end,
        ),
        SpecNode::QuotedName { text, start, end } => 0 <= start <= end <= s.len() && text
            == s.subrange(start, end),
        SpecNode::Label { text, start, end } => 0 <= start <= end <= s.len() && text == s.subrange(
            start,
            end,
        ),
        SpecNode::NumericIndex { text, start, end } => 0 <= start < end <= s.len() && text
            == s.subrange(start, end) && all_digits(text),
    }
}

pub open spec fn nodes_wf(ns: Seq<SpecNode>, s: Seq<char>) -> bool {
    forall|j: int| 0 <= j < ns.len() ==> node_wf(ns[j], s)
}

pub open spec fn seg_wf(g: SpecSegment, s: Seq<char>) -> bool {
    nodes_wf(g.nodes, s)
}

pub open spec fn tree_wf(t: Seq<SpecSegment>, s: Seq<char>) -> bool {
    forall|k: int| 0 <= k < t.len() ==> seg_wf(t[k], s)
}

// ---------------------------------------------------------------------------
// The specification parser: a deterministic single forward pass, defined
// recursively over the input characters. The executable parser is proved to
// return exactly its result.
// ---------------------------------------------------------------------------

/// The outcome of parsing one segment (or its trailing qualifiers): the
/// segment and the position after it, or the failure position and the rules
/// expected there.
pub enum SegParse {
    Match { seg: SpecSegment, next: int },
    Fail { at: int, expected: Seq<Rule> },
}

/// The outcome of parsing a whole filter.
pub enum TreeParse {
    Match(Seq<SpecSegment>),
    Fail { at: int, expected: Seq<Rule> },
}

/// Parse the qualifiers (`{"label"}` or `[index]`) that follow position `i`,
/// extending `nodes`; the segment ends at the first character that opens
/// neither.
pub open spec fn spec_parse_quals(s: Seq<char>, i: int, nodes: Seq<SpecNode>) -> SegParse
    decreases s.len() - i,
        via spec_parse_quals_decreases
{
    if 0 <= i && i < s.len() && s[i] == '{' {
        if i + 1 < s.len() && s[i + 1] == '"' {
            let q = nonquote_run_end(s, i + 2);
            if q < s.len() {
                if q + 1 < s.len() && s[q + 1] == '}' {
                    spec_parse_quals(
                        s,
                        q + 2,
                        nodes.push(
                            SpecNode::Label { text: s.subrange(i + 2, q), start: i + 2, end: q },
                        ),
                    )
                } else {
                    SegParse::Fail { at: q + 1, expected: seq![Rule::Label] }
                }
            } else {
                SegParse::Fail { at: s.len() as int, expected: seq![Rule::QuotedName] }
            }
        } else {
            SegParse::Fail { at: i + 1, expected: seq![Rule::QuotedName] }
        }
    } else if 0 <= i && i < s.len() && s[i] == '[' {
        let q = digit_run_end(s, i + 1);
        if q == i + 1 {
            SegParse::Fail { at: i + 1, expected: seq![Rule::NumericIndex] }
        } else if q < s.len() && s[q] == ']' {
            spec_parse_quals(
                s,
                q + 1,
                nodes.push(
                    SpecNode::NumericIndex { text: s.subrange(i + 1, q), start: i + 1, end: q },
                ),
            )
        } else {
            SegParse::Fail { at: q, expected: seq![Rule::NumericIndex] }
        }
    } else {
        SegParse::Match { seg: SpecSegment { nodes }, next: i }
    }
}

#[via_fn]
proof fn spec_parse_quals_decreases(s: Seq<char>, i: int, nodes: Seq<SpecNode>) {
    if 0 <= i && i < s.len() && s[i] == '{' {
        if i + 1 < s.len() && s[i + 1] == '"' {
            lemma_nonquote_run_end(s, i + 2);
        }
    } else if 0 <= i && i < s.len() && s[i] == '[' {
        lemma_digit_run_end(s, i + 1);
    }
}

/// Parse one segment at position `i`, which must hold the leading dot.
pub open spec fn spec_parse_segment(s: Seq<char>, i: int) -> SegParse
    recommends
        0 <= i < s.len(),
        s[i] == '.',
{
    let j = i + 1;
    if j < s.len() && is_name_start(s[j]) {
        let k = name_run_end(s, j + 1);
        spec_parse_quals(s, k, seq![SpecNode::Name { text: s.subrange(j, k), start: j, end: k }])
    } else if j < s.len() && s[j] == '"' {
        let q = nonquote_run_end(s, j + 1);
        if q < s.len() {
            spec_parse_quals(
                s,
                q + 1,
                seq![SpecNode::QuotedName { text: s.subrange(j + 1, q), start: j + 1, end: q }],
            )
        } else {
            SegParse::Fail { at: s.len() as int, expected: seq![Rule::QuotedName] }
        }
    } else {
        SegParse::Fail { at: j, expected: seq![Rule::Name, Rule::QuotedName] }
    }
}

/// Bounds of the qualifier parse.
pub proof fn lemma_parse_quals_bounds(s: Seq<char>, i: int, nodes: Seq<SpecNode>)
    requires
        0 <= i <= s.len(),
    ensures
        (match spec_parse_quals(s, i, nodes) {
            SegParse::Match { seg, next } => i <= next <= s.len(),
            SegParse::Fail { at, .. } => 0 <= at <= s.len(),
        }),
    decreases s.len() - i,
{
    if 0 <= i && i < s.len() && s[i] == '{' {
        if i + 1 < s.len() && s[i + 1] == '"' {
            lemma_nonquote_run_end(s, i + 2);
            let q = nonquote_run_end(s, i + 2);
            if q < s.len() && q + 1 < s.len() && s[q + 1] == '}' {
                let node = SpecNode::Label { text: s.subrange(i + 2, q), start: i + 2, end: q };
                lemma_parse_quals_bounds(s, q + 2, nodes.push(node));
            }
        }
    } else if 0 <= i && i < s.len() && s[i] == '[' {
        lemma_digit_run_end(s, i + 1);
        let q = digit_run_end(s, i + 1);
        if q != i + 1 && q < s.len() && s[q] == ']' {
            let node = SpecNode::NumericIndex { text: s.subrange(i + 1, q), start: i + 1, end: q };
            lemma_parse_quals_bounds(s, q + 1, nodes.push(node));
        }
    }
}

/// Bounds of the segment parse: a matched segment consumes at least the
/// dot and one further character.
pub proof fn lemma_parse_segment_bounds(s: Seq<char>, i: int)
    requires
        0 <= i < s.len(),
        s[i] == '.',
    ensures
        (match spec_parse_segment(s, i) {
            SegParse::Match { seg, next } => i + 2 <= next <= s.len(),
            SegParse::Fail { at, .. } => 0 <= at <= s.len(),
        }),
{
    let j = i + 1;
    if j < s.len() && is_name_start(s[j]) {
        lemma_name_run_end(s, j + 1);
        let k = name_run_end(s, j + 1);
        let node = SpecNode::Name { text: s.subrange(j, k), start: j, end: k };
        lemma_parse_quals_bounds(s, k, seq![node]);
    } else if j < s.len() && s[j] == '"' {
        lemma_nonquote_run_end(s, j + 1);
        let q = nonquote_run_end(s, j + 1);
        if q < s.len() {
            let node = SpecNode::QuotedName { text: s.subrange(j + 1, q), start: j + 1, end: q };
            lemma_parse_quals_bounds(s, q + 1, seq![node]);
        }
    }
}

/// Parse segments from position `i` to the end of the input, extending
/// `acc`; every segment must open with a dot.
pub open spec fn spec_parse_segments(s: Seq<char>, i: int, acc: Seq<SpecSegment>) -> TreeParse
    decreases s.len() - i,
        via spec_parse_segments_decreases
{
    if 0 <= i && i < s.len() && s[i] == '.' {
        match spec_parse_segment(s, i) {
            SegParse::Fail { at, expected } => TreeParse::Fail { at, expected },
            SegParse::Match { seg, next } => {
                if next >= s.len() {
                    TreeParse::Match(acc.push(seg))
                } else {
                    spec_parse_segments(s, next, acc.push(seg))
                }
            },
        }
    } else {
        TreeParse::Fail { at: i, expected: seq![Rule::Segment] }
    }
}

#[via_fn]
proof fn spec_parse_segments_decreases(s: Seq<char>, i: int, acc: Seq<SpecSegment>) {
    if 0 <= i && i < s.len() && s[i] == '.' {
        lemma_parse_segment_bounds(s, i);
    }
}

/// Parse a whole filter: one or more segments covering the entire input.
pub open spec fn spec_parse_filter(s: Seq<char>) -> TreeParse {
    spec_parse_segments(s, 0, Seq::empty())
}

// ---------------------------------------------------------------------------
// Shape laws: what the grammar guarantees of every tree it yields.
// ---------------------------------------------------------------------------

/// The shape the grammar guarantees of a node's text: a bare name is
/// nonempty, begins with a letter or an underscore — never a digit — and
/// holds only name characters; a quoted name or a label holds no quote; an
/// index holds one or more digits.
pub open spec fn node_shaped(n: SpecNode) -> bool {
    match n {
        SpecNode::Name { text, .. } => text.len() > 0 && is_name_start(text[0]) && !is_digit(
            text[0],
        ) && (forall|j: int| 0 <= j < text.len() ==> is_name_char(text[j])),
        SpecNode::QuotedName { text, .. } => forall|j: int| 0 <= j < text.len() ==> text[j] != '"',
        SpecNode::Label { text, .. } => forall|j: int| 0 <= j < text.len() ==> text[j] != '"',
        SpecNode::NumericIndex { text, .. } => text.len() > 0 && all_digits(text),
    }
}

pub open spec fn nodes_shaped(ns: Seq<SpecNode>) -> bool {
    forall|j: int| 0 <= j < ns.len() ==> node_shaped(#[trigger] ns[j])
}

pub open spec fn tree_shaped(t: Seq<SpecSegment>) -> bool {
    forall|k: int| 0 <= k < t.len() ==> nodes_shaped(#[trigger] t[k].nodes)
}

proof fn lemma_quals_shape(s: Seq<char>, i: int, nodes: Seq<SpecNode>)
    requires
        0 <= i <= s.len(),
        nodes_shaped(nodes),
    ensures
        (match spec_parse_quals(s, i, nodes) {
            SegParse::Match { seg, .. } => nodes_shaped(seg.nodes),
            SegParse::Fail { .. } => true,
        }),
    decreases s.len() - i,
{
    if 0 <= i && i < s.len() && s[i] == '{' {
        if i + 1 < s.len() && s[i + 1] == '"' {
            lemma_nonquote_run_end(s, i + 2);
            let q = nonquote_run_end(s, i + 2);
            if q < s.len() && q + 1 < s.len() && s[q + 1] == '}' {
                let node = SpecNode::Label { text: s.subrange(i + 2, q), start: i + 2, end: q };
                assert(node_shaped(node));
                assert(nodes_shaped(nodes.push(node)));
                lemma_quals_shape(s, q + 2, nodes.push(node));
            }
        }
    } else if 0 <= i && i < s.len() && s[i] == '[' {
        lemma_digit_run_end(s, i + 1);
        let q = digit_run_end(s, i + 1);
        if q != i + 1 && q < s.len() && s[q] == ']' {
            let node = SpecNode::NumericIndex { text: s.subrange(i + 1, q), start: i + 1, end: q };
            assert(node_shaped(node));
            assert(nodes_shaped(nodes.push(node)));
            lemma_quals_shape(s, q + 1, nodes.push(node));
        }
    }
}

proof fn lemma_segment_shape(s: Seq<char>, i: int)
    requires
        0 <= i < s.len(),
        s[i] == '.',
    ensures
        (match spec_parse_segment(s, i) {
            SegParse::Match { seg, .. } => nodes_shaped(seg.nodes),
            SegParse::Fail { .. } => true,
        }),
{
    let j = i + 1;
    if j < s.len() && is_name_start(s[j]) {
        lemma_name_run_end(s, j + 1);
        let k = name_run_end(s, j + 1);
        let node = SpecNode::Name { text: s.subrange(j, k), start: j, end: k };
        assert(node_shaped(node));
        assert(nodes_shaped(seq![node]));
        lemma_quals_shape(s, k, seq![node]);
    } else if j < s.len() && s[j] == '"' {
        lemma_nonquote_run_end(s, j + 1);
        let q = nonquote_run_end(s, j + 1);
        if q < s.len() {
            let node = SpecNode::QuotedName { text: s.subrange(j + 1, q), start: j + 1, end: q };
            assert(node_shaped(node));
            assert(nodes_shaped(seq![node]));
            lemma_quals_shape(s, q + 1, seq![node]);
        }
    }
}

proof fn lemma_segments_shape(s: Seq<char>, i: int, acc: Seq<SpecSegment>)
    requires
        0 <= i <= s.len(),
        tree_shaped(acc),
    ensures
        (match spec_parse_segments(s, i, acc) {
            TreeParse::Match(t) => tree_shaped(t),
            TreeParse::Fail { .. } => true,
        }),
    decreases s.len() - i,
{
    if 0 <= i && i < s.len() && s[i] == '.' {
        lemma_parse_segment_bounds(s, i);
        lemma_segment_shape(s, i);
        match spec_parse_segment(s, i) {
            SegParse::Fail { .. } => {},
            SegParse::Match { seg, next } => {
                assert(tree_shaped(acc.push(seg)));
                if next < s.len() {
                    lemma_segments_shape(s, next, acc.push(seg));
                }
            },
        }
    }
}

/// Every parse tree the grammar yields is shaped as the grammar describes:
/// in particular, no name it ever produces starts with a digit, and no
/// index it produces is empty or non-numeric.
pub proof fn lemma_parse_tree_shaped(s: Seq<char>, t: Seq<SpecSegment>)
    requires
        spec_parse_filter(s) == TreeParse::Match(t),
    ensures
        tree_shaped(t),
{
    lemma_segments_shape(s, 0, Seq::empty());
}

proof fn lemma_quals_formed(s: Seq<char>, i: int, nodes: Seq<SpecNode>)
    requires
        0 <= i <= s.len(),
        nodes.len() >= 1,
        nodes[0] is Name || nodes[0] is QuotedName,
        forall|j: int| 1 <= j < nodes.len() ==> qual_node(#[trigger] nodes[j]),
    ensures
        (match spec_parse_quals(s, i, nodes) {
            SegParse::Match { seg, .. } => seg_formed(seg),
            SegParse::Fail { .. } => true,
        }),
    decreases s.len() - i,
{
    if 0 <= i && i < s.len() && s[i] == '{' {
        if i + 1 < s.len() && s[i + 1] == '"' {
            lemma_nonquote_run_end(s, i + 2);
            let q = nonquote_run_end(s, i + 2);
            if q < s.len() && q + 1 < s.len() && s[q + 1] == '}' {
                let node = SpecNode::Label { text: s.subrange(i + 2, q), start: i + 2, end: q };
                assert(nodes.push(node)[0] == nodes[0]);
                assert(forall|j: int|
                    1 <= j < nodes.push(node).len() ==> qual_node(#[trigger] nodes.push(node)[j]));
                lemma_quals_formed(s, q + 2, nodes.push(node));
            }
        }
    } else if 0 <= i && i < s.len() && s[i] == '[' {
        lemma_digit_run_end(s, i + 1);
        let q = digit_run_end(s, i + 1);
        if q != i + 1 && q < s.len() && s[q] == ']' {
            let node = SpecNode::NumericIndex { text: s.subrange(i + 1, q), start: i + 1, end: q };
            assert(nodes.push(node)[0] == nodes[0]);
            assert(forall|j: int|
                1 <= j < nodes.push(node).len() ==> qual_node(#[trigger] nodes.push(node)[j]));
            lemma_quals_formed(s, q + 1, nodes.push(node));
        }
    }
}

proof fn lemma_segment_formed(s: Seq<char>, i: int)
    requires
        0 <= i < s.len(),
        s[i] == '.',
    ensures
        (match spec_parse_segment(s, i) {
            SegParse::Match { seg, .. } => seg_formed(seg),
            SegParse::Fail { .. } => true,
        }),
{
    let j = i + 1;
    if j < s.len() && is_name_start(s[j]) {
        let k = name_run_end(s, j + 1);
        lemma_name_run_end(s, j + 1);
        let node = SpecNode::Name { text: s.subrange(j, k), start: j, end: k };
        lemma_quals_formed(s, k, seq![node]);
    } else if j < s.len() && s[j] == '"' {
        lemma_nonquote_run_end(s, j + 1);
        let q = nonquote_run_end(s, j + 1);
        if q < s.len() {
            let node = SpecNode::QuotedName { text: s.subrange(j + 1, q), start: j + 1, end: q };
            lemma_quals_formed(s, q + 1, seq![node]);
        }
    }
}

proof fn lemma_segments_formed(s: Seq<char>, i: int, acc: Seq<SpecSegment>)
    requires
        0 <= i <= s.len(),
        tree_formed(acc),
    ensures
        (match spec_parse_segments(s, i, acc) {
            TreeParse::Match(t) => tree_formed(t),
            TreeParse::Fail { .. } => true,
        }),
    decreases s.len() - i,
{
    if 0 <= i && i < s.len() && s[i] == '.' {
        lemma_parse_segment_bounds(s, i);
        lemma_segment_formed(s, i);
        match spec_parse_segment(s, i) {
            SegParse::Fail { .. } => {},
            SegParse::Match { seg, next } => {
                assert(tree_formed(acc.push(seg)));
                if next < s.len() {
                    lemma_segments_formed(s, next, acc.push(seg));
                }
            },
        }
    }
}

/// Every parse tree the grammar yields is formed as the grammar demands:
/// each segment opens with a name or a quoted name, and everything after it
/// is a label or an index qualifier.
pub proof fn lemma_parse_tree_formed(s: Seq<char>, t: Seq<SpecSegment>)
    requires
        spec_parse_filter(s) == TreeParse::Match(t),
    ensures
        tree_formed(t),
{
    lemma_segments_formed(s, 0, Seq::empty());
}

/// A segment whose character after the dot is a digit is rejected: a name
/// must not start with a digit, and an index may stand only behind a name.
pub proof fn lemma_digit_cannot_start_name(s: Seq<char>, i: int)
    requires
        0 <= i < s.len(),
        s[i] == '.',
        i + 1 < s.len(),
        is_digit(s[i + 1]),
    ensures
        spec_parse_segment(s, i) matches SegParse::Fail { .. },
{
    assert(!is_name_start(s[i + 1]));
    assert(s[i + 1] != '"');
}

// ---------------------------------------------------------------------------
// Soundness: a matched tree, written back out with its delimiters, is the
// input, character for character. The parser therefore accepts an input
// only by reading the whole of it as dotted, quoted, braced and bracketed
// segments; nothing is skipped and nothing is invented.
// ---------------------------------------------------------------------------

/// A node's concrete syntax: its text with the delimiters the grammar
/// demands around it.
pub open spec fn render_node(n: SpecNode) -> Seq<char> {
    match n {
        SpecNode::Name { text, .. } => text,
        SpecNode::QuotedName { text, .. } => seq!['"'] + text + seq!['"'],
        SpecNode::Label { text, .. } => seq!['{', '"'] + text + seq!['"', '}'],
        SpecNode::NumericIndex { text, .. } => seq!['['] + text + seq![']'],
    }
}

/// The concrete syntax of a node sequence.
pub open spec fn render_nodes(ns: Seq<SpecNode>) -> Seq<char>
    decreases ns.len(),
{
    if ns.len() == 0 {
        Seq::empty()
    } else {
        render_node(ns[0]) + render_nodes(ns.drop_first())
    }
}

/// The concrete syntax of a segment: a dot, then its nodes.
pub open spec fn render_segment(g: SpecSegment) -> Seq<char> {
    seq!['.'] + render_nodes(g.nodes)
}

/// The concrete syntax of a whole tree.
pub open spec fn render_tree(t: Seq<SpecSegment>) -> Seq<char>
    decreases t.len(),
{
    if t.len() == 0 {
        Seq::empty()
    } else {
        render_segment(t[0]) + render_tree(t.drop_first())
    }
}

proof fn lemma_render_nodes_single(n: SpecNode)
    ensures
        render_nodes(seq![n]) == render_node(n),
{
    assert(seq![n].drop_first() =~= Seq::<SpecNode>::empty());
    assert(seq![n][0] == n);
    assert(render_nodes(Seq::<SpecNode>::empty()) == Seq::<char>::empty());
    assert(render_node(n) + Seq::<char>::empty() =~= render_node(n));
}

proof fn lemma_render_nodes_push(ns: Seq<SpecNode>, n: SpecNode)
    ensures
        render_nodes(ns.push(n)) == render_nodes(ns) + render_node(n),
    decreases ns.len(),
{
    if ns.len() == 0 {
        assert(ns.push(n) =~= seq![n]);
        lemma_render_nodes_single(n);
        assert(Seq::<char>::empty() + render_node(n) =~= render_node(n));
    } else {
        assert(ns.push(n)[0] == ns[0]);
        assert(ns.push(n).drop_first() =~= ns.drop_first().push(n));
        lemma_render_nodes_push(ns.drop_first(), n);
        assert(render_node(ns[0]) + (render_nodes(ns.drop_first()) + render_node(n)) =~= (
        render_node(ns[0]) + render_nodes(ns.drop_first())) + render_node(n));
    }
}

proof fn lemma_render_tree_push(t: Seq<SpecSegment>, g: SpecSegment)
    ensures
        render_tree(t.push(g)) == render_tree(t) + render_segment(g),
    decreases t.len(),
{
    if t.len() == 0 {
        assert(t.push(g)[0] == g);
        assert(t.push(g).drop_first() =~= Seq::<SpecSegment>::empty());
        assert(render_tree(Seq::<SpecSegment>::empty()) == Seq::<char>::empty());
        assert(render_segment(g) + Seq::<char>::empty() =~= render_segment(g));
        assert(Seq::<char>::empty() + render_segment(g) =~= render_segment(g));
    } else {
        assert(t.push(g)[0] == t[0]);
        assert(t.push(g).drop_first() =~= t.drop_first().push(g));
        lemma_render_tree_push(t.drop_first(), g);
        assert(render_segment(t[0]) + (render_tree(t.drop_first()) + render_segment(g)) =~= (
        render_segment(t[0]) + render_tree(t.drop_first())) + render_segment(g));
    }
}

proof fn lemma_quals_render(s: Seq<char>, i: int, nodes: Seq<SpecNode>)
    requires
        0 <= i <= s.len(),
    ensures
        (match spec_parse_quals(s, i, nodes) {
            SegParse::Match { seg, next } => render_nodes(seg.nodes) == render_nodes(nodes)
                + s.subrange(i, next),
            SegParse::Fail { .. } => true,
        }),
    decreases s.len() - i,
{
    if 0 <= i && i < s.len() && s[i] == '{' {
        if i + 1 < s.len() && s[i + 1] == '"' {
            lemma_nonquote_run_end(s, i + 2);
            let q = nonquote_run_end(s, i + 2);
            if q < s.len() && q + 1 < s.len() && s[q + 1] == '}' {
                let node = SpecNode::Label { text: s.subrange(i + 2, q), start: i + 2, end: q };
                lemma_quals_render(s, q + 2, nodes.push(node));
                lemma_parse_quals_bounds(s, q + 2, nodes.push(node));
                match spec_parse_quals(s, q + 2, nodes.push(node)) {
                    SegParse::Match { seg, next } => {
                        lemma_render_nodes_push(nodes, node);
                        assert(render_node(node) =~= s.subrange(i, q + 2));
                        assert((render_nodes(nodes) + s.subrange(i, q + 2)) + s.subrange(
                            q + 2,
                            next,
                        ) =~= render_nodes(nodes) + (s.subrange(i, q + 2) + s.subrange(
                            q + 2,
                            next,
                        )));
                        assert(s.subrange(i, q + 2) + s.subrange(q + 2, next) =~= s.subrange(
                            i,
                            next,
                        ));
                    },
                    SegParse::Fail { .. } => {},
                }
            }
        }
    } else if 0 <= i && i < s.len() && s[i] == '[' {
        lemma_digit_run_end(s, i + 1);
        let q = digit_run_end(s, i + 1);
        if q != i + 1 && q < s.len() && s[q] == ']' {
            let node = SpecNode::NumericIndex { text: s.subrange(i + 1, q), start: i + 1, end: q };
            lemma_quals_render(s, q + 1, nodes.push(node));
            lemma_parse_quals_bounds(s, q + 1, nodes.push(node));
            match spec_parse_quals(s, q + 1, nodes.push(node)) {
                SegParse::Match { seg, next } => {
                    lemma_render_nodes_push(nodes, node);
                    assert(render_node(node) =~= s.subrange(i, q + 1));
                    assert((render_nodes(nodes) + s.subrange(i, q + 1)) + s.subrange(q + 1, next)
                        =~= render_nodes(nodes) + (s.subrange(i, q + 1) + s.subrange(q + 1, next)));
                    assert(s.subrange(i, q + 1) + s.subrange(q + 1, next) =~= s.subrange(i, next));
                },
                SegParse::Fail { .. } => {},
            }
        }
    } else {
        assert(s.subrange(i, i) =~= Seq::<char>::empty());
        assert(render_nodes(nodes) + Seq::<char>::empty() =~= render_nodes(nodes));
    }
}

proof fn lemma_segment_render(s: Seq<char>, i: int)
    requires
        0 <= i < s.len(),
        s[i] == '.',
    ensures
        (match spec_parse_segment(s, i) {
            SegParse::Match { seg, next } => render_segment(seg) == s.subrange(i, next),
            SegParse::Fail { .. } => true,
        }),
{
    let j = i + 1;
    if j < s.len() && is_name_start(s[j]) {
        lemma_name_run_end(s, j + 1);
        let k = name_run_end(s, j + 1);
        let node = SpecNode::Name { text: s.subrange(j, k), start: j, end: k };
        lemma_quals_render(s, k, seq![node]);
        lemma_parse_quals_bounds(s, k, seq![node]);
        match spec_parse_quals(s, k, seq![node]) {
            SegParse::Match { seg, next } => {
                lemma_render_nodes_single(node);
                assert(seq!['.'] + (s.subrange(j, k) + s.subrange(k, next)) =~= s.subrange(
                    i,
                    next,
                ));
                assert(seq!['.'] + (render_node(node) + s.subrange(k, next)) =~= seq!['.'] + (
                s.subrange(j, k) + s.subrange(k, next)));
            },
            SegParse::Fail { .. } => {},
        }
    } else if j < s.len() && s[j] == '"' {
        lemma_nonquote_run_end(s, j + 1);
        let q = nonquote_run_end(s, j + 1);
        if q < s.len() {
            let node = SpecNode::QuotedName { text: s.subrange(j + 1, q), start: j + 1, end: q };
            lemma_quals_render(s, q + 1, seq![node]);
            lemma_parse_quals_bounds(s, q + 1, seq![node]);
            match spec_parse_quals(s, q + 1, seq![node]) {
                SegParse::Match { seg, next } => {
                    lemma_render_nodes_single(node);
                    assert(s[j as int] == '"');
                    assert(s[q] == '"');
                    assert(render_node(node) =~= s.subrange(j, q + 1));
                    assert(seq!['.'] + (s.subrange(j, q + 1) + s.subrange(q + 1, next))
                        =~= s.subrange(i, next));
                    assert(seq!['.'] + (render_node(node) + s.subrange(q + 1, next)) =~= seq!['.']
                        + (s.subrange(j, q + 1) + s.subrange(q + 1, next)));
                },
                SegParse::Fail { .. } => {},
            }
        }
    }
}

proof fn lemma_segments_render(s: Seq<char>, i: int, acc: Seq<SpecSegment>)
    requires
        0 <= i <= s.len(),
    ensures
        (match spec_parse_segments(s, i, acc) {
            TreeParse::Match(t) => render_tree(t) == render_tree(acc) + s.subrange(i, s.len() as int),
            TreeParse::Fail { .. } => true,
        }),
    decreases s.len() - i,
{
    if 0 <= i && i < s.len() && s[i] == '.' {
        lemma_parse_segment_bounds(s, i);
        lemma_segment_render(s, i);
        match spec_parse_segment(s, i) {
            SegParse::Fail { .. } => {},
            SegParse::Match { seg, next } => {
                lemma_render_tree_push(acc, seg);
                if next >= s.len() {
                    assert(next == s.len());
                } else {
                    lemma_segments_render(s, next, acc.push(seg));
                    assert((render_tree(acc) + s.subrange(i, next)) + s.subrange(
                        next,
                        s.len() as int,
                    ) =~= render_tree(acc) + (s.subrange(i, next) + s.subrange(
                        next,
                        s.len() as int,
                    )));
                    assert(s.subrange(i, next) + s.subrange(next, s.len() as int) =~= s.subrange(
                        i,
                        s.len() as int,
                    ));
                }
            },
        }
    }
}

/// Soundness of the grammar: whatever tree a parse yields, writing it back
/// out with its delimiters gives the input, character for character.
pub proof fn lemma_parse_round_trip(s: Seq<char>, t: Seq<SpecSegment>)
    requires
        spec_parse_filter(s) == TreeParse::Match(t),
    ensures
        render_tree(t) == s,
{
    lemma_segments_render(s, 0, Seq::empty());
    assert(s.subrange(0, s.len() as int) =~= s);
    assert(Seq::<char>::empty() + s =~= s);
}

// ---------------------------------------------------------------------------
// Completeness: every filter that can be written in the concrete syntax is
// accepted. Together with soundness above, the accepted strings are exactly
// the renderings of the shaped, well-formed trees: the parser accepts the
// described language and nothing else.
// ---------------------------------------------------------------------------

/// A node of qualifier kind.
pub open spec fn qual_node(n: SpecNode) -> bool {
    n is Label || n is NumericIndex
}

/// A segment formed as the grammar demands: a name or quoted name first,
/// qualifiers after it.
pub open spec fn seg_formed(g: SpecSegment) -> bool {
    &&& g.nodes.len() >= 1
    &&& (g.nodes[0] is Name || g.nodes[0] is QuotedName)
    &&& forall|j: int| 1 <= j < g.nodes.len() ==> qual_node(#[trigger] g.nodes[j])
}

pub open spec fn tree_formed(t: Seq<SpecSegment>) -> bool {
    forall|k: int| 0 <= k < t.len() ==> seg_formed(#[trigger] t[k])
}

proof fn lemma_name_run_exact(s: Seq<char>, i: int, e: int)
    requires
        0 <= i <= e <= s.len(),
        forall|j: int| i <= j < e ==> is_name_char(s[j]),
        e == s.len() || !is_name_char(s[e]),
    ensures
        name_run_end(s, i) == e,
    decreases e - i,
{
    if i < e {
        lemma_name_run_exact(s, i + 1, e);
    }
}

proof fn lemma_nonquote_run_exact(s: Seq<char>, i: int, e: int)
    requires
        0 <= i <= e <= s.len(),
        forall|j: int| i <= j < e ==> s[j] != '"',
        e == s.len() || s[e] == '"',
    ensures
        nonquote_run_end(s, i) == e,
    decreases e - i,
{
    if i < e {
        lemma_nonquote_run_exact(s, i + 1, e);
    }
}

proof fn lemma_digit_run_exact(s: Seq<char>, i: int, e: int)
    requires
        0 <= i <= e <= s.len(),
        forall|j: int| i <= j < e ==> is_digit(s[j]),
        e == s.len() || !is_digit(s[e]),
    ensures
        digit_run_end(s, i) == e,
    decreases e - i,
{
    if i < e {
        lemma_digit_run_exact(s, i + 1, e);
    }
}

proof fn lemma_split_suffix(s: Seq<char>, i: int, a: Seq<char>, b: Seq<char>)
    requires
        0 <= i,
        i + a.len() + b.len() <= s.len(),
        s.subrange(i, i + a.len() + b.len()) == a + b,
    ensures
        s.subrange(i, i + a.len()) == a,
        s.subrange(i + a.len(), i + a.len() + b.len()) == b,
{
    assert forall|m: int| 0 <= m < a.len() implies s.subrange(i, i + a.len())[m] == a[m] by {
        assert(s.subrange(i, i + a.len() + b.len())[m] == s[i + m]);
        assert((a + b)[m] == a[m]);
    }
    assert(s.subrange(i, i + a.len()) =~= a);
    assert forall|m: int|
        0 <= m < b.len() implies s.subrange(i + a.len(), i + a.len() + b.len())[m] == b[m] by {
        assert(s.subrange(i, i + a.len() + b.len())[a.len() + m] == s[i + a.len() + m]);
        assert((a + b)[a.len() + m] == b[m]);
    }
    assert(s.subrange(i + a.len(), i + a.len() + b.len()) =~= b);
}

proof fn lemma_subrange_char(s: Seq<char>, i: int, e: int, t: Seq<char>, m: int)
    requires
        0 <= i <= e <= s.len(),
        e - i == t.len(),
        s.subrange(i, e) == t,
        0 <= m < t.len(),
    ensures
        s[i + m] == t[m],
{
    assert(s.subrange(i, e)[m] == s[i + m]);
}

proof fn lemma_quals_complete(s: Seq<char>, i: int, nodes: Seq<SpecNode>, rest: Seq<SpecNode>)
    requires
        0 <= i <= s.len(),
        forall|j: int|
            0 <= j < rest.len() ==> qual_node(#[trigger] rest[j]) && node_shaped(rest[j]),
        i + render_nodes(rest).len() <= s.len(),
        s.subrange(i, i + render_nodes(rest).len()) == render_nodes(rest),
        i + render_nodes(rest).len() == s.len() || (s[i + render_nodes(rest).len()] != '{' && s[i
            + render_nodes(rest).len()] != '['),
    ensures
        spec_parse_quals(s, i, nodes) matches SegParse::Match { seg, next } && next == i
            + render_nodes(rest).len(),
    decreases rest.len(),
{
    let e = i + render_nodes(rest).len();
    if rest.len() == 0 {
        assert(render_nodes(rest).len() == 0);
    } else {
        let r0 = rest[0];
        let tail = rest.drop_first();
        assert(forall|j: int| 0 <= j < tail.len() ==> #[trigger] tail[j] == rest[j + 1]);
        assert(render_nodes(rest) == render_node(r0) + render_nodes(tail));
        lemma_split_suffix(s, i, render_node(r0), render_nodes(tail));
        let mid = i + render_node(r0).len();
        match r0 {
            SpecNode::Label { text, .. } => {
                let rn = render_node(r0);
                assert(rn == seq!['{', '"'] + text + seq!['"', '}']);
                assert(rn.len() == text.len() + 4);
                lemma_subrange_char(s, i, mid, rn, 0);
                lemma_subrange_char(s, i, mid, rn, 1);
                lemma_subrange_char(s, i, mid, rn, 2 + text.len() as int);
                lemma_subrange_char(s, i, mid, rn, 3 + text.len() as int);
                assert(rn[0] == '{');
                assert(rn[1] == '"');
                assert(rn[2 + text.len() as int] == '"');
                assert(rn[3 + text.len() as int] == '}');
                assert forall|j: int| i + 2 <= j < i + 2 + text.len() implies s[j] != '"' by {
                    lemma_subrange_char(s, i, mid, rn, j - i);
                    assert(rn[j - i] == text[j - i - 2]);
                }
                lemma_nonquote_run_exact(s, i + 2, i + 2 + text.len());
                let q = i + 2 + text.len();
                assert(s[i] == '{' && s[i + 1] == '"' && s[q] == '"' && s[q + 1] == '}');
                lemma_quals_complete(
                    s,
                    q + 2,
                    nodes.push(SpecNode::Label { text: s.subrange(i + 2, q), start: i + 2, end: q }),
                    tail,
                );
            },
            SpecNode::NumericIndex { text, .. } => {
                let rn = render_node(r0);
                assert(rn == seq!['['] + text + seq![']']);
                assert(rn.len() == text.len() + 2);
                lemma_subrange_char(s, i, mid, rn, 0);
                lemma_subrange_char(s, i, mid, rn, 1 + text.len() as int);
                assert(rn[0] == '[');
                assert(rn[1 + text.len() as int] == ']');
                assert forall|j: int| i + 1 <= j < i + 1 + text.len() implies is_digit(s[j]) by {
                    lemma_subrange_char(s, i, mid, rn, j - i);
                    assert(rn[j - i] == text[j - i - 1]);
                }
                lemma_digit_run_exact(s, i + 1, i + 1 + text.len());
                let q = i + 1 + text.len();
                assert(s[i] == '[' && s[q] == ']');
                assert(text.len() >= 1);
                lemma_quals_complete(
                    s,
                    q + 1,
                    nodes.push(
                        SpecNode::NumericIndex { text: s.subrange(i + 1, q), start: i + 1, end: q },
                    ),
                    tail,
                );
            },
            SpecNode::Name { .. } => {
                assert(false);
            },
            SpecNode::QuotedName { .. } => {
                assert(false);
            },
        }
    }
}

proof fn lemma_segment_complete(s: Seq<char>, i: int, g: SpecSegment)
    requires
        0 <= i < s.len(),
        nodes_shaped(g.nodes),
        seg_formed(g),
        i + render_segment(g).len() <= s.len(),
        s.subrange(i, i + render_segment(g).len()) == render_segment(g),
        i + render_segment(g).len() == s.len() || s[i + render_segment(g).len()] == '.',
    ensures
        spec_parse_segment(s, i) matches SegParse::Match { seg, next } && next == i
            + render_segment(g).len(),
{
    let e = i + render_segment(g).len();
    let head = g.nodes[0];
    let quals = g.nodes.drop_first();
    assert(forall|j: int| 0 <= j < quals.len() ==> #[trigger] quals[j] == g.nodes[j + 1]);
    assert(render_nodes(g.nodes) == render_node(head) + render_nodes(quals));
    assert(render_segment(g) == seq!['.'] + (render_node(head) + render_nodes(quals)));
    assert(seq!['.'] + (render_node(head) + render_nodes(quals)) =~= (seq!['.'] + render_node(
        head,
    )) + render_nodes(quals));
    lemma_split_suffix(s, i, seq!['.'] + render_node(head), render_nodes(quals));
    let mid = i + 1 + render_node(head).len();
    assert(e == mid + render_nodes(quals).len());
    assert(e == s.len() || (s[e] != '{' && s[e] != '['));
    match head {
        SpecNode::Name { text, .. } => {
            let hn = seq!['.'] + render_node(head);
            assert(hn.len() == text.len() + 1);
            lemma_subrange_char(s, i, mid, hn, 0);
            assert(hn[0] == '.');
            assert forall|j: int| i + 1 <= j < i + 1 + text.len() implies s[j] == text[j - i
                - 1] by {
                lemma_subrange_char(s, i, mid, hn, j - i);
                assert(hn[j - i] == text[j - i - 1]);
            }
            assert(is_name_start(s[i + 1]));
            assert forall|j: int| i + 2 <= j < i + 1 + text.len() implies is_name_char(s[j]) by {
                assert(is_name_char(text[j - i - 1]));
            }
            if mid < s.len() {
                if mid == e {
                } else {
                    assert(render_nodes(quals).len() > 0);
                    assert(quals.len() > 0);
                    let q0 = quals[0];
                    assert(qual_node(q0));
                    assert(render_nodes(quals) == render_node(q0) + render_nodes(
                        quals.drop_first(),
                    ));
                    lemma_subrange_char(s, mid, e, render_nodes(quals), 0);
                    assert(render_nodes(quals)[0] == render_node(q0)[0]);
                    assert(render_node(q0)[0] == '{' || render_node(q0)[0] == '[');
                }
                assert(!is_name_char(s[mid]));
            }
            lemma_name_run_exact(s, i + 2, mid);
            lemma_quals_complete(
                s,
                mid,
                seq![
                    SpecNode::Name {
                        text: s.subrange(i + 1, mid),
                        start: i + 1,
                        end: mid,
                    },
                ],
                quals,
            );
        },
        SpecNode::QuotedName { text, .. } => {
            let hn = seq!['.'] + render_node(head);
            assert(render_node(head) == seq!['"'] + text + seq!['"']);
            assert(hn.len() == text.len() + 3);
            lemma_subrange_char(s, i, mid, hn, 0);
            lemma_subrange_char(s, i, mid, hn, 1);
            lemma_subrange_char(s, i, mid, hn, 2 + text.len() as int);
            assert(hn[0] == '.');
            assert(hn[1] == '"');
            assert(hn[2 + text.len() as int] == '"');
            assert(!is_name_start('"')) by {
                assert('"' as u32 == 34);
            }
            assert forall|j: int| i + 2 <= j < i + 2 + text.len() implies s[j] != '"' by {
                lemma_subrange_char(s, i, mid, hn, j - i);
                assert(hn[j - i] == text[j - i - 2]);
            }
            lemma_nonquote_run_exact(s, i + 2, i + 2 + text.len());
            let q = i + 2 + text.len();
            assert(s[i] == '.' && s[i + 1] == '"' && s[q] == '"');
            assert(mid == q + 1);
            lemma_quals_complete(
                s,
                q + 1,
                seq![
                    SpecNode::QuotedName {
                        text: s.subrange(i + 2, q),
                        start: i + 2,
                        end: q,
                    },
                ],
                quals,
            );
        },
        SpecNode::Label { .. } => {
            assert(false);
        },
        SpecNode::NumericIndex { .. } => {
            assert(false);
        },
    }
}

proof fn lemma_segments_complete(s: Seq<char>, i: int, acc: Seq<SpecSegment>, rest: Seq<SpecSegment>)
    requires
        0 <= i <= s.len(),
        rest.len() > 0,
        forall|k: int| 0 <= k < rest.len() ==> nodes_shaped(#[trigger] rest[k].nodes),
        forall|k: int| 0 <= k < rest.len() ==> seg_formed(#[trigger] rest[k]),
        s.subrange(i, s.len() as int) == render_tree(rest),
    ensures
        spec_parse_segments(s, i, acc) is Match,
    decreases rest.len(),
{
    let g0 = rest[0];
    let tail = rest.drop_first();
    assert(forall|k: int| 0 <= k < tail.len() ==> #[trigger] tail[k] == rest[k + 1]);
    assert(render_tree(rest) == render_segment(g0) + render_tree(tail));
    assert(i + render_segment(g0).len() + render_tree(tail).len() == s.len());
    lemma_split_suffix(s, i, render_segment(g0), render_tree(tail));
    let e = i + render_segment(g0).len();
    assert(render_segment(g0).len() >= 1);
    lemma_subrange_char(s, i, e, render_segment(g0), 0);
    assert(render_segment(g0)[0] == '.');
    assert(s[i] == '.');
    if tail.len() == 0 {
        assert(render_tree(tail).len() == 0);
        assert(e == s.len());
        lemma_segment_complete(s, i, g0);
    } else {
        let g1 = tail[0];
        assert(render_tree(tail) == render_segment(g1) + render_tree(tail.drop_first()));
        lemma_subrange_char(s, e, s.len() as int, render_tree(tail), 0);
        assert(render_tree(tail)[0] == render_segment(g1)[0]);
        assert(s[e] == '.');
        lemma_segment_complete(s, i, g0);
        lemma_parse_segment_bounds(s, i);
        match spec_parse_segment(s, i) {
            SegParse::Match { seg, next } => {
                assert(next == e);
                lemma_segments_complete(s, e, acc.push(seg), tail);
            },
            SegParse::Fail { .. } => {
                assert(false);
            },
        }
    }
}

/// Completeness of the grammar: any filter that can be written at all — one
/// or more segments, each a name or quoted name with its qualifiers, shaped
/// as the grammar describes — is accepted by the parser.
pub proof fn lemma_rendered_filter_accepted(t: Seq<SpecSegment>)
    requires
        t.len() > 0,
        tree_shaped(t),
        tree_formed(t),
    ensures
        spec_parse_filter(render_tree(t)) is Match,
{
    let s = render_tree(t);
    assert(s.subrange(0, s.len() as int) =~= s);
    lemma_segments_complete(s, 0, Seq::empty(), t);
}

// ---------------------------------------------------------------------------
// The executable parser.
// ---------------------------------------------------------------------------

/// The characters of `input`, one element per `char`.
fn to_chars(input: &str) -> (v: Vec<char>)
    ensures
        v@ == input@,
{
    let n = input.unicode_len();
    let mut v: Vec<char> = Vec::new();
    let mut i: usize = 0;
    while i < n
        invariant
            n == input@.len(),
            i <= n,
            v@ == input@.subrange(0, i as int),
        decreases n - i,
    {
        let c = input.get_char(i);
        v.push(c);
        proof {
            assert(input@.subrange(0, i + 1) =~= input@.subrange(0, i as int).push(
                input@[i as int],
            ));
        }
        i = i + 1;
    }
    proof {
        assert(input@.subrange(0, n as int) =~= input@);
    }
    v
}

/// The owned text of the character range `[from, to)` of `input`.
fn substring(input: &str, from: usize, to: usize) -> (t: String)
    requires
        from <= to <= input@.len(),
    ensures
        t@ == input@.subrange(from as int, to as int),
{
    input.substring_char(from, to).to_owned()
}

fn scan_name(v: &Vec<char>, from: usize) -> (end: usize)
    requires
        from <= v@.len(),
    ensures
        end as int == name_run_end(v@, from as int),
        from <= end <= v@.len(),
{
    let n = v.len();
    let mut j = from;
    while j < n && name_char(v[j])
        invariant
            from <= j <= n,
            n == v@.len(),
            name_run_end(v@, from as int) == name_run_end(v@, j as int),
        decreases n - j,
    {
        proof {
            assert(name_run_end(v@, j as int) == name_run_end(v@, j + 1));
        }
        j = j + 1;
    }
    proof {
        assert(name_run_end(v@, j as int) == j as int);
    }
    j
}

fn scan_nonquote(v: &Vec<char>, from: usize) -> (end: usize)
    requires
        from <= v@.len(),
    ensures
        end as int == nonquote_run_end(v@, from as int),
        from <= end <= v@.len(),
{
    let n = v.len();
    let mut j = from;
    while j < n && v[j] != '"'
        invariant
            from <= j <= n,
            n == v@.len(),
            nonquote_run_end(v@, from as int) == nonquote_run_end(v@, j as int),
        decreases n - j,
    {
        proof {
            assert(nonquote_run_end(v@, j as int) == nonquote_run_end(v@, j + 1));
        }
        j = j + 1;
    }
    proof {
        assert(nonquote_run_end(v@, j as int) == j as int);
    }
    j
}

fn scan_digits(v: &Vec<char>, from: usize) -> (end: usize)
    requires
        from <= v@.len(),
    ensures
        end as int == digit_run_end(v@, from as int),
        from <= end <= v@.len(),
{
    let n = v.len();
    let mut j = from;
    while j < n && digit_char(v[j])
        invariant
            from <= j <= n,
            n == v@.len(),
            digit_run_end(v@, from as int) == digit_run_end(v@, j as int),
        decreases n - j,
    {
        proof {
            assert(digit_run_end(v@, j as int) == digit_run_end(v@, j + 1));
        }
        j = j + 1;
    }
    proof {
        assert(digit_run_end(v@, j as int) == j as int);
    }
    j
}

/// Parse one segment at position `start`, which must hold the leading dot:
/// the segment's name, then its qualifiers until the first character that
/// opens no qualifier.
fn parse_segment(input: &str, v: &Vec<char>, start: usize) -> (r: Result<
    (Segment, usize),
    FilterError,
>)
    requires
        v@ == input@,
        start < v@.len(),
        v@[start as int] == '.',
    ensures
        (match r {
            Ok((seg, next)) => {
                &&& spec_parse_segment(v@, start as int) == (SegParse::Match {
                    seg: seg@,
                    next: next as int,
                })
                &&& start < next <= v@.len()
                &&& seg_wf(seg@, v@)
            },
            Err(e) => spec_parse_segment(v@, start as int) matches SegParse::Fail {
                at,
                expected,
            } && e@ == (SpecError::Syntax { at, expected }) && err_position_wf(v@, e),
        }),
{
    let ghost s = v@;
    let n = v.len();
    let j = start + 1;
    let mut nodes: Vec<Node> = Vec::new();
    let mut p: usize;
    if j < n && name_start_char(v[j]) {
        let k = scan_name(v, j + 1);
        let text = substring(input, j, k);
        let node = Node::Name { text, span: Span { start: j, end: k } };
        nodes.push(node);
        proof {
            assert(nodes_view(nodes@) =~= seq![node@]);
            assert(node_wf(node@, s));
            assert(spec_parse_segment(s, start as int) == spec_parse_quals(
                s,
                k as int,
                nodes_view(nodes@),
            ));
        }
        p = k;
    } else if j < n && v[j] == '"' {
        let q = scan_nonquote(v, j + 1);
        if q >= n {
            proof {
                assert(spec_parse_segment(s, start as int) == (SegParse::Fail {
                    at: s.len() as int,
                    expected: seq![Rule::QuotedName],
                }));
            }
            return Err(syntax_error1(input, n, Rule::QuotedName));
        }
        let text = substring(input, j + 1, q);
        let node = Node::QuotedName { text, span: Span { start: j + 1, end: q } };
        nodes.push(node);
        proof {
            assert(nodes_view(nodes@) =~= seq![node@]);
            assert(node_wf(node@, s));
            assert(spec_parse_segment(s, start as int) == spec_parse_quals(
                s,
                q + 1,
                nodes_view(nodes@),
            ));
        }
        p = q + 1;
    } else {
        proof {
            assert(spec_parse_segment(s, start as int) == (SegParse::Fail {
                at: j as int,
                expected: seq![Rule::Name, Rule::QuotedName],
            }));
        }
        return Err(syntax_error2(input, j, Rule::Name, Rule::QuotedName));
    }
    loop
        invariant
            v@ == input@,
            s == v@,
            n == v@.len(),
            start + 2 <= p <= n,
            nodes_wf(nodes_view(nodes@), s),
            spec_parse_segment(s, start as int) == spec_parse_quals(
                s,
                p as int,
                nodes_view(nodes@),
            ),
        decreases n - p,
    {
        let ghost pre = nodes_view(nodes@);
        if p < n && v[p] == '{' {
            if p + 1 < n && v[p + 1] == '"' {
                let q = scan_nonquote(v, p + 2);
                if q < n {
                    if q + 1 < n && v[q + 1] == '}' {
                        let text = substring(input, p + 2, q);
                        let node = Node::Label { text, span: Span { start: p + 2, end: q } };
                        proof {
                            assert(node_wf(node@, s));
                        }
                        nodes.push(node);
                        proof {
                            assert(nodes_view(nodes@) =~= pre.push(node@));
                            assert(spec_parse_quals(s, p as int, pre) == spec_parse_quals(
                                s,
                                q + 2,
                                nodes_view(nodes@),
                            ));
                        }
                        p = q + 2;
                    } else {
                        proof {
                            assert(spec_parse_quals(s, p as int, pre) == (SegParse::Fail {
                                at: q + 1,
                                expected: seq![Rule::Label],
                            }));
                        }
                        return Err(syntax_error1(input, q + 1, Rule::Label));
                    }
                } else {
                    proof {
                        assert(spec_parse_quals(s, p as int, pre) == (SegParse::Fail {
                            at: s.len() as int,
                            expected: seq![Rule::QuotedName],
                        }));
                    }
                    return Err(syntax_error1(input, n, Rule::QuotedName));
                }
            } else {
                proof {
                    assert(spec_parse_quals(s, p as int, pre) == (SegParse::Fail {
                        at: p + 1,
                        expected: seq![Rule::QuotedName],
                    }));
                }
                return Err(syntax_error1(input, p + 1, Rule::QuotedName));
            }
        } else if p < n && v[p] == '[' {
            let q = scan_digits(v, p + 1);
            if q == p + 1 {
                proof {
                    assert(spec_parse_quals(s, p as int, pre) == (SegParse::Fail {
                        at: p + 1,
                        expected: seq![Rule::NumericIndex],
                    }));
                }
                return Err(syntax_error1(input, p + 1, Rule::NumericIndex));
            } else if q < n && v[q] == ']' {
                let text = substring(input, p + 1, q);
                let node = Node::NumericIndex { text, span: Span { start: p + 1, end: q } };
                proof {
                    lemma_digit_run_end(s, p + 1);
                    assert(all_digits(node@->NumericIndex_text));
                    assert(node_wf(node@, s));
                }
                nodes.push(node);
                proof {
                    assert(nodes_view(nodes@) =~= pre.push(node@));
                    assert(spec_parse_quals(s, p as int, pre) == spec_parse_quals(
                        s,
                        q + 1,
                        nodes_view(nodes@),
                    ));
                }
                p = q + 1;
            } else {
                proof {
                    assert(spec_parse_quals(s, p as int, pre) == (SegParse::Fail {
                        at: q as int,
                        expected: seq![Rule::NumericIndex],
                    }));
                }
                return Err(syntax_error1(input, q, Rule::NumericIndex));
            }
        } else {
            let ghost nv = nodes_view(nodes@);
            let seg = Segment { nodes };
            proof {
                assert(nodes_view(seg.nodes@) == nv);
                assert(spec_parse_quals(s, p as int, nv) == (SegParse::Match {
                    seg: seg@,
                    next: p as int,
                }));
            }
            return Ok((seg, p));
        }
    }
}

/// The grammar of the filter language.
pub struct Filter {}

impl Filter {
    /// Parse `input` into its parse tree: one [`Segment`] per dotted
    /// segment, in source order, or the grammar's syntax error.
    pub fn parse(input: &str) -> (r: Result<Vec<Segment>, FilterError>)
        ensures
            (match r {
                Ok(tree) => {
                    &&& spec_parse_filter(input@) == TreeParse::Match(tree_view(tree@))
                    &&& tree_wf(tree_view(tree@), input@)
                },
                Err(e) => spec_parse_filter(input@) matches TreeParse::Fail {
                    at,
                    expected,
                } && e@ == (SpecError::Syntax { at, expected }) && err_position_wf(input@, e),
            }),
    {
        let v = to_chars(input);
        let ghost s = v@;
        let n = v.len();
        if n == 0 {
            proof {
                assert(spec_parse_filter(s) == (TreeParse::Fail {
                    at: 0,
                    expected: seq![Rule::Segment],
                }));
            }
            return Err(syntax_error1(input, 0, Rule::Segment));
        }
        let mut segs: Vec<Segment> = Vec::new();
        let mut i: usize = 0;
        proof {
            assert(tree_view(segs@) =~= Seq::<SpecSegment>::empty());
        }
        loop
            invariant
                v@ == input@,
                s == v@,
                n == v@.len(),
                i < n,
                tree_wf(tree_view(segs@), s),
                spec_parse_filter(s) == spec_parse_segments(s, i as int, tree_view(segs@)),
            decreases n - i,
        {
            let ghost acc = tree_view(segs@);
            if v[i] != '.' {
                proof {
                    assert(spec_parse_segments(s, i as int, acc) == (TreeParse::Fail {
                        at: i as int,
                        expected: seq![Rule::Segment],
                    }));
                }
                return Err(syntax_error1(input, i, Rule::Segment));
            }
            match parse_segment(input, &v, i) {
                Err(e) => {
                    return Err(e);
                },
                Ok((seg, next)) => {
                    segs.push(seg);
                    proof {
                        assert(tree_view(segs@) =~= acc.push(seg@));
                        assert(tree_wf(tree_view(segs@), s));
                    }
                    if next >= n {
                        proof {
                            assert(spec_parse_segments(s, i as int, acc) == TreeParse::Match(
                                tree_view(segs@),
                            ));
                        }
                        return Ok(segs);
                    }
                    i = next;
                },
            }
        }
    }
}

} // verus!
