use vstd::prelude::*;

verus! {

use crate::error::{FilterError, SpecError, err_position_wf, overflow_error};
use crate::field::{Field, SpecField, fields_view, index_view, labels_view};
use crate::grammar::{
    Node, Segment, SpecNode, SpecSegment, all_digits, is_digit, node_wf, nodes_wf, seg_wf,
    tree_view, tree_wf,
};

// ---------------------------------------------------------------------------
// Digit strings as numbers.
// ---------------------------------------------------------------------------

/// The value of a digit string read in base ten.
pub open spec fn digits_val(s: Seq<char>) -> int
    decreases s.len(),
{
    if s.len() == 0 {
        0
    } else {
        digits_val(s.drop_last()) * 10 + (s.last() as u32 - 48)
    }
}

pub proof fn lemma_digits_val_nonneg(s: Seq<char>)
    requires
        all_digits(s),
    ensures
        digits_val(s) >= 0,
    decreases s.len(),
{
    if s.len() > 0 {
        assert(all_digits(s.drop_last()));
        lemma_digits_val_nonneg(s.drop_last());
    }
}

/// A longer digit prefix never has a smaller value.
pub proof fn lemma_digits_val_prefix_le(s: Seq<char>, i: int, j: int)
    requires
        all_digits(s),
        0 <= i <= j <= s.len(),
    ensures
        digits_val(s.subrange(0, i)) <= digits_val(s.subrange(0, j)),
    decreases j - i,
{
    if i < j {
        lemma_digits_val_prefix_le(s, i, j - 1);
        let a = s.subrange(0, j - 1);
        let b = s.subrange(0, j);
        assert(b.drop_last() =~= a);
        assert(all_digits(a));
        lemma_digits_val_nonneg(a);
        assert(digits_val(b) == digits_val(a) * 10 + (s[j - 1] as u32 - 48));
    }
}

// ---------------------------------------------------------------------------
// The reduction of a parse tree to fields, in specification.
// ---------------------------------------------------------------------------

/// The outcome of reducing one segment: a field, nothing (a segment whose
/// reduced name is empty is dropped), or a failure.
pub enum SegReduce {
    Emit(SpecField),
    Skip,
    Fail(SpecError),
}

/// The outcome of reducing a whole parse tree.
pub enum SpecOutcome {
    Fields(Seq<SpecField>),
    Fail(SpecError),
}

/// Fold a segment's remaining nodes, in document order, over the
/// accumulated name, labels and index. A name node overwrites the name, a
/// label node appends, an index node overwrites the index and fails when its
/// value exceeds the machine's index range.
pub open spec fn spec_reduce_nodes(
    nodes: Seq<SpecNode>,
    name: Seq<char>,
    labels: Seq<Seq<char>>,
    index: Option<int>,
) -> SegReduce
    decreases nodes.len(),
{
    if nodes.len() == 0 {
        if name.len() == 0 {
            SegReduce::Skip
        } else {
            SegReduce::Emit(SpecField { name, labels, index })
        }
    } else {
        match nodes[0] {
            SpecNode::Name { text, .. } => spec_reduce_nodes(
                nodes.drop_first(),
                text,
                labels,
                index,
            ),
            SpecNode::QuotedName { text, .. } => spec_reduce_nodes(
                nodes.drop_first(),
                text,
                labels,
                index,
            ),
            SpecNode::Label { text, .. } => spec_reduce_nodes(
                nodes.drop_first(),
                name,
                labels.push(text),
                index,
            ),
            SpecNode::NumericIndex { text, start, .. } => {
                if digits_val(text) > usize::MAX as int {
                    SegReduce::Fail(SpecError::IndexOverflow { at: start })
                } else {
                    spec_reduce_nodes(nodes.drop_first(), name, labels, Some(digits_val(text)))
                }
            },
        }
    }
}

/// Reduce one segment from empty accumulators.
pub open spec fn spec_reduce_segment(seg: SpecSegment) -> SegReduce {
    spec_reduce_nodes(seg.nodes, Seq::empty(), Seq::empty(), None)
}

/// Reduce a parse tree to its fields in segment order, stopping at the
/// first failing segment.
pub open spec fn spec_reduce(t: Seq<SpecSegment>) -> SpecOutcome
    decreases t.len(),
{
    if t.len() == 0 {
        SpecOutcome::Fields(Seq::empty())
    } else {
        match spec_reduce_segment(t[0]) {
            SegReduce::Fail(e) => SpecOutcome::Fail(e),
            SegReduce::Skip => spec_reduce(t.drop_first()),
            SegReduce::Emit(f) => match spec_reduce(t.drop_first()) {
                SpecOutcome::Fail(e) => SpecOutcome::Fail(e),
                SpecOutcome::Fields(fs) => SpecOutcome::Fields(seq![f] + fs),
            },
        }
    }
}

// ---------------------------------------------------------------------------
// The executable reducer.
// ---------------------------------------------------------------------------

/// Read a digit string as a machine index, or report that its value does
/// not fit.
fn parse_index(text: &String) -> (r: Option<usize>)
    requires
        all_digits(text@),
    ensures
        (match r {
            Some(val) => val as int == digits_val(text@) && digits_val(text@) <= usize::MAX as int,
            None => digits_val(text@) > usize::MAX as int,
        }),
{
    let s = text.as_str();
    let n = s.unicode_len();
    let mut val: usize = 0;
    let mut i: usize = 0;
    while i < n
        invariant
            s@ == text@,
            n == text@.len(),
            i <= n,
            all_digits(text@),
            val as int == digits_val(text@.subrange(0, i as int)),
        decreases n - i,
    {
        let c = s.get_char(i);
        proof {
            assert(is_digit(text@[i as int]));
        }
        let d = (c as u32 - 48) as usize;
        let cap10 = usize::MAX / 10;
        let rem10 = usize::MAX % 10;
        proof {
            lemma_div_mod_ten();
        }
        if val > cap10 || (val == cap10 && d > rem10) {
            proof {
                let pre = text@.subrange(0, i as int);
                let ext = text@.subrange(0, i + 1);
                assert(ext.drop_last() =~= pre);
                assert(digits_val(ext) == digits_val(pre) * 10 + d);
                assert(digits_val(ext) > usize::MAX as int);
                lemma_digits_val_prefix_le(text@, i + 1, n as int);
                assert(text@.subrange(0, n as int) =~= text@);
            }
            return None;
        }
        proof {
            let pre = text@.subrange(0, i as int);
            let ext = text@.subrange(0, i + 1);
            assert(ext.drop_last() =~= pre);
            assert(digits_val(ext) == digits_val(pre) * 10 + d);
            assert(val * 10 + d <= usize::MAX);
        }
        val = val * 10 + d;
        i = i + 1;
    }
    proof {
        assert(text@.subrange(0, n as int) =~= text@);
    }
    Some(val)
}

proof fn lemma_div_mod_ten()
    ensures
        usize::MAX as int == (usize::MAX as int / 10) * 10 + (usize::MAX as int) % 10,
        0 <= (usize::MAX as int) % 10 < 10,
{
    let m = usize::MAX as int;
    assert(m == (m / 10) * 10 + m % 10) by (nonlinear_arith);
    assert(0 <= m % 10 < 10) by (nonlinear_arith);
}

/// Reduce one segment of the parse tree: its field, `None` when the reduced
/// name is empty, or the error of its first unrepresentable index.
pub fn reduce_segment(input: &str, seg: &Segment) -> (r: Result<Option<Field>, FilterError>)
    requires
        seg_wf(seg@, input@),
    ensures
        (match r {
            Ok(Some(f)) => spec_reduce_segment(seg@) == SegReduce::Emit(f@),
            Ok(None) => spec_reduce_segment(seg@) == SegReduce::Skip,
            Err(e) => spec_reduce_segment(seg@) == SegReduce::Fail(e@) && err_position_wf(
                input@,
                e,
            ),
        }),
{
    let ghost all = seg@.nodes;
    let mut name = String::new();
    let mut labels: Vec<String> = Vec::new();
    let mut index: Option<usize> = None;
    let m = seg.nodes.len();
    let mut i: usize = 0;
    proof {
        assert(all.skip(0) =~= all);
        assert(labels_view(labels@) =~= Seq::<Seq<char>>::empty());
    }
    while i < m
        invariant
            seg_wf(seg@, input@),
            m == seg.nodes@.len(),
            all == seg@.nodes,
            i <= m,
            spec_reduce_nodes(all, Seq::empty(), Seq::empty(), None) == spec_reduce_nodes(
                all.skip(i as int),
                name@,
                labels_view(labels@),
                index_view(index),
            ),
        decreases m - i,
    {
        proof {
            assert(all.skip(i as int)[0] == all[i as int]);
            assert(all[i as int] == seg.nodes@[i as int]@);
            assert(all.skip(i as int).drop_first() =~= all.skip(i + 1));
            assert(node_wf(all[i as int], input@));
        }
        let ghost pre_labels = labels_view(labels@);
        match &seg.nodes[i] {
            Node::Name { text, .. } => {
                name = text.clone();
            },
            Node::QuotedName { text, .. } => {
                name = text.clone();
            },
            Node::Label { text, .. } => {
                labels.push(text.clone());
                proof {
                    assert(labels_view(labels@) =~= pre_labels.push(text@));
                }
            },
            Node::NumericIndex { text, span } => {
                match parse_index(text) {
                    Some(val) => {
                        index = Some(val);
                    },
                    None => {
                        return Err(overflow_error(input, span.start));
                    },
                }
            },
        }
        i = i + 1;
    }
    proof {
        assert(all.skip(m as int) =~= Seq::empty());
    }
    if name.as_str().is_empty() {
        Ok(None)
    } else {
        let f = Field { name, labels, index };
        Ok(Some(f))
    }
}

/// Reduce a parse tree to its fields, in segment order.
pub fn reduce(input: &str, tree: &Vec<Segment>) -> (r: Result<Vec<Field>, FilterError>)
    requires
        tree_wf(tree_view(tree@), input@),
    ensures
        (match r {
            Ok(fields) => spec_reduce(tree_view(tree@)) == SpecOutcome::Fields(
                fields_view(fields@),
            ),
            Err(e) => spec_reduce(tree_view(tree@)) == SpecOutcome::Fail(e@) && err_position_wf(
                input@,
                e,
            ),
        }),
{
    let ghost tv = tree_view(tree@);
    let len = tree.len();
    let mut out: Vec<Field> = Vec::new();
    let mut k: usize = 0;
    proof {
        assert(tv.skip(0) =~= tv);
        assert(fields_view(out@) =~= Seq::<SpecField>::empty());
        match spec_reduce(tv) {
            SpecOutcome::Fields(rest) => {
                assert(Seq::<SpecField>::empty() + rest =~= rest);
            },
            SpecOutcome::Fail(_) => {},
        }
    }
    while k < len
        invariant
            tree_wf(tv, input@),
            tv == tree_view(tree@),
            len == tree@.len(),
            k <= len,
            (match spec_reduce(tv.skip(k as int)) {
                SpecOutcome::Fields(rest) => spec_reduce(tv) == SpecOutcome::Fields(
                    fields_view(out@) + rest,
                ),
                SpecOutcome::Fail(e) => spec_reduce(tv) == SpecOutcome::Fail(e),
            }),
        decreases len - k,
    {
        proof {
            assert(tv.skip(k as int)[0] == tv[k as int]);
            assert(tv[k as int] == tree@[k as int]@);
            assert(tv.skip(k as int).drop_first() =~= tv.skip(k + 1));
            assert(seg_wf(tv[k as int], input@));
        }
        let ghost pre_out = fields_view(out@);
        match reduce_segment(input, &tree[k]) {
            Err(e) => {
                return Err(e);
            },
            Ok(None) => {},
            Ok(Some(f)) => {
                out.push(f);
                proof {
                    assert(fields_view(out@) =~= pre_out.push(f@));
                    match spec_reduce(tv.skip(k + 1)) {
                        SpecOutcome::Fields(fs) => {
                            assert(pre_out + (seq![f@] + fs) =~= fields_view(out@) + fs);
                        },
                        SpecOutcome::Fail(_) => {},
                    }
                }
            },
        }
        k = k + 1;
    }
    proof {
        assert(tv.skip(len as int) =~= Seq::empty());
        assert(fields_view(out@) + Seq::<SpecField>::empty() =~= fields_view(out@));
    }
    Ok(out)
}

// ---------------------------------------------------------------------------
// Laws of the reduction.
// ---------------------------------------------------------------------------

/// The label texts of a node sequence, in document order.
pub open spec fn label_texts(nodes: Seq<SpecNode>) -> Seq<Seq<char>>
    decreases nodes.len(),
{
    if nodes.len() == 0 {
        Seq::empty()
    } else {
        match nodes[0] {
            SpecNode::Label { text, .. } => seq![text] + label_texts(nodes.drop_first()),
            _ => label_texts(nodes.drop_first()),
        }
    }
}

proof fn lemma_reduce_nodes_labels(
    nodes: Seq<SpecNode>,
    name: Seq<char>,
    labels: Seq<Seq<char>>,
    index: Option<int>,
    f: SpecField,
)
    requires
        spec_reduce_nodes(nodes, name, labels, index) == SegReduce::Emit(f),
    ensures
        f.labels == labels + label_texts(nodes),
    decreases nodes.len(),
{
    if nodes.len() == 0 {
        assert(labels + label_texts(nodes) =~= labels);
    } else {
        match nodes[0] {
            SpecNode::Name { text, .. } => {
                lemma_reduce_nodes_labels(nodes.drop_first(), text, labels, index, f);
            },
            SpecNode::QuotedName { text, .. } => {
                lemma_reduce_nodes_labels(nodes.drop_first(), text, labels, index, f);
            },
            SpecNode::Label { text, .. } => {
                lemma_reduce_nodes_labels(nodes.drop_first(), name, labels.push(text), index, f);
                assert(labels.push(text) + label_texts(nodes.drop_first()) =~= labels + (seq![text]
                    + label_texts(nodes.drop_first())));
            },
            SpecNode::NumericIndex { text, .. } => {
                if digits_val(text) <= usize::MAX as int {
                    lemma_reduce_nodes_labels(
                        nodes.drop_first(),
                        name,
                        labels,
                        Some(digits_val(text)),
                        f,
                    );
                }
            },
        }
    }
}

/// Every label of a segment is retained, in written order: an emitted
/// field's labels are exactly the segment's label texts, left to right.
pub proof fn lemma_labels_in_order(seg: SpecSegment, f: SpecField)
    requires
        spec_reduce_segment(seg) == SegReduce::Emit(f),
    ensures
        f.labels == label_texts(seg.nodes),
{
    lemma_reduce_nodes_labels(seg.nodes, Seq::empty(), Seq::empty(), None, f);
    assert(Seq::<Seq<char>>::empty() + label_texts(seg.nodes) =~= label_texts(seg.nodes));
}

/// Fields are emitted in segment order: when every segment of a tree
/// reduces to a field, the reduction succeeds with exactly those fields,
/// one per segment, in the segments' order.
pub proof fn lemma_fields_follow_segments(t: Seq<SpecSegment>, fs: Seq<SpecField>)
    requires
        spec_reduce(t) == SpecOutcome::Fields(fs),
        forall|k: int| 0 <= k < t.len() ==> spec_reduce_segment(#[trigger] t[k]) is Emit,
    ensures
        fs.len() == t.len(),
        forall|k: int| 0 <= k < t.len() ==> spec_reduce_segment(#[trigger] t[k]) == SegReduce::Emit(
            fs[k],
        ),
    decreases t.len(),
{
    if t.len() > 0 {
        let rest = t.drop_first();
        assert(forall|k: int| 0 <= k < rest.len() ==> #[trigger] rest[k] == t[k + 1]);
        match spec_reduce_segment(t[0]) {
            SegReduce::Emit(f) => {
                match spec_reduce(rest) {
                    SpecOutcome::Fields(gs) => {
                        assert(fs == seq![f] + gs);
                        lemma_fields_follow_segments(rest, gs);
                        assert(fs[0] == f);
                        assert forall|k: int| 1 <= k < t.len() implies spec_reduce_segment(
                            #[trigger] t[k],
                        ) == SegReduce::Emit(fs[k]) by {
                            assert(rest[k - 1] == t[k]);
                            assert(spec_reduce_segment(rest[k - 1]) == SegReduce::Emit(gs[k - 1]));
                            assert(fs[k] == gs[k - 1]);
                        }
                    },
                    SpecOutcome::Fail(_) => {
                        assert(false);
                    },
                }
            },
            SegReduce::Skip => {
                assert(false);
            },
            SegReduce::Fail(_) => {
                assert(false);
            },
        }
    }
}

proof fn lemma_reduce_nodes_fail_is_overflow(
    nodes: Seq<SpecNode>,
    name: Seq<char>,
    labels: Seq<Seq<char>>,
    index: Option<int>,
)
    ensures
        (match spec_reduce_nodes(nodes, name, labels, index) {
            SegReduce::Fail(e) => e is IndexOverflow,
            _ => true,
        }),
    decreases nodes.len(),
{
    if nodes.len() > 0 {
        match nodes[0] {
            SpecNode::Name { text, .. } => {
                lemma_reduce_nodes_fail_is_overflow(nodes.drop_first(), text, labels, index);
            },
            SpecNode::QuotedName { text, .. } => {
                lemma_reduce_nodes_fail_is_overflow(nodes.drop_first(), text, labels, index);
            },
            SpecNode::Label { text, .. } => {
                lemma_reduce_nodes_fail_is_overflow(
                    nodes.drop_first(),
                    name,
                    labels.push(text),
                    index,
                );
            },
            SpecNode::NumericIndex { text, .. } => {
                if digits_val(text) <= usize::MAX as int {
                    lemma_reduce_nodes_fail_is_overflow(
                        nodes.drop_first(),
                        name,
                        labels,
                        Some(digits_val(text)),
                    );
                }
            },
        }
    }
}

proof fn lemma_reduce_nodes_overflow(
    nodes: Seq<SpecNode>,
    name: Seq<char>,
    labels: Seq<Seq<char>>,
    index: Option<int>,
    j: int,
)
    requires
        0 <= j < nodes.len(),
        nodes[j] matches SpecNode::NumericIndex { text, .. } && digits_val(text)
            > usize::MAX as int,
    ensures
        spec_reduce_nodes(nodes, name, labels, index) matches SegReduce::Fail(
            SpecError::IndexOverflow { .. },
        ),
    decreases nodes.len(),
{
    match nodes[0] {
        SpecNode::Name { text, .. } => {
            assert(nodes.drop_first()[j - 1] == nodes[j]);
            lemma_reduce_nodes_overflow(nodes.drop_first(), text, labels, index, j - 1);
        },
        SpecNode::QuotedName { text, .. } => {
            assert(nodes.drop_first()[j - 1] == nodes[j]);
            lemma_reduce_nodes_overflow(nodes.drop_first(), text, labels, index, j - 1);
        },
        SpecNode::Label { text, .. } => {
            assert(nodes.drop_first()[j - 1] == nodes[j]);
            lemma_reduce_nodes_overflow(nodes.drop_first(), name, labels.push(text), index, j - 1);
        },
        SpecNode::NumericIndex { text, .. } => {
            if digits_val(text) <= usize::MAX as int {
                assert(j != 0);
                assert(nodes.drop_first()[j - 1] == nodes[j]);
                lemma_reduce_nodes_overflow(
                    nodes.drop_first(),
                    name,
                    labels,
                    Some(digits_val(text)),
                    j - 1,
                );
            }
        },
    }
}

/// An index literal whose value exceeds the machine's index range makes the
/// whole reduction fail with an index-overflow error: it is never wrapped or
/// truncated.
pub proof fn lemma_index_overflow_detected(t: Seq<SpecSegment>, k: int, j: int)
    requires
        0 <= k < t.len(),
        0 <= j < t[k].nodes.len(),
        t[k].nodes[j] matches SpecNode::NumericIndex { text, .. } && digits_val(text)
            > usize::MAX as int,
    ensures
        spec_reduce(t) matches SpecOutcome::Fail(SpecError::IndexOverflow { .. }),
    decreases t.len(),
{
    if k == 0 {
        lemma_reduce_nodes_overflow(t[0].nodes, Seq::empty(), Seq::empty(), None, j);
    } else {
        assert(t.drop_first()[k - 1] == t[k]);
        lemma_index_overflow_detected(t.drop_first(), k - 1, j);
        lemma_reduce_nodes_fail_is_overflow(t[0].nodes, Seq::empty(), Seq::empty(), None);
    }
}

proof fn lemma_reduce_nodes_index_range(
    s: Seq<char>,
    nodes: Seq<SpecNode>,
    name: Seq<char>,
    labels: Seq<Seq<char>>,
    index: Option<int>,
    f: SpecField,
)
    requires
        nodes_wf(nodes, s),
        (index matches Some(v) ==> 0 <= v <= usize::MAX as int),
        spec_reduce_nodes(nodes, name, labels, index) == SegReduce::Emit(f),
    ensures
        f.index matches Some(v) ==> 0 <= v <= usize::MAX as int,
    decreases nodes.len(),
{
    if nodes.len() > 0 {
        assert(node_wf(nodes[0], s));
        assert(forall|j: int|
            0 <= j < nodes.drop_first().len() ==> nodes.drop_first()[j] == nodes[j + 1]);
        match nodes[0] {
            SpecNode::Name { text, .. } => {
                lemma_reduce_nodes_index_range(s, nodes.drop_first(), text, labels, index, f);
            },
            SpecNode::QuotedName { text, .. } => {
                lemma_reduce_nodes_index_range(s, nodes.drop_first(), text, labels, index, f);
            },
            SpecNode::Label { text, .. } => {
                lemma_reduce_nodes_index_range(
                    s,
                    nodes.drop_first(),
                    name,
                    labels.push(text),
                    index,
                    f,
                );
            },
            SpecNode::NumericIndex { text, .. } => {
                if digits_val(text) <= usize::MAX as int {
                    lemma_digits_val_nonneg(text);
                    lemma_reduce_nodes_index_range(
                        s,
                        nodes.drop_first(),
                        name,
                        labels,
                        Some(digits_val(text)),
                        f,
                    );
                }
            },
        }
    }
}

/// An emitted field's index is within the machine's index range.
pub proof fn lemma_emitted_index_in_range(s: Seq<char>, seg: SpecSegment, f: SpecField)
    requires
        seg_wf(seg, s),
        spec_reduce_segment(seg) == SegReduce::Emit(f),
    ensures
        f.index matches Some(v) ==> 0 <= v <= usize::MAX as int,
{
    lemma_reduce_nodes_index_range(s, seg.nodes, Seq::empty(), Seq::empty(), None, f);
}

} // verus!
