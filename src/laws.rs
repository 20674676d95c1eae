//! Algebraic laws of lowering, proved over `Instruction::lowered`.
use vstd::prelude::*;

use crate::ast::{lower_list, repeat_seq, Action, Instruction};

verus! {

/// A single action lowers to the one-element trace holding it.
pub proof fn lemma_leaf_identity(a: Action)
    ensures
        Instruction::Action(a).lowered() == seq![a],
{
}

/// Repeating any instruction zero times yields the empty trace, whatever the
/// instruction holds.
pub proof fn lemma_zero_repetition(i: Instruction)
    ensures
        Instruction::Repetition(Box::new(i), 0).lowered() == Seq::<Action>::empty(),
{
}

/// `n` copies of `s` have `n * |s|` actions, and the action at position `k`
/// is the one at position `k % |s|` of `s`.
proof fn lemma_repeat_seq_shape(s: Seq<Action>, n: nat)
    ensures
        repeat_seq(s, n).len() == n * s.len(),
        forall|k: int|
            0 <= k < n * s.len() ==> #[trigger] repeat_seq(s, n)[k] == s[k % (s.len() as int)],
    decreases n,
{
    if n > 0 {
        let m = (n - 1) as nat;
        lemma_repeat_seq_shape(s, m);
        assert(n * s.len() == m * s.len() + s.len()) by (nonlinear_arith)
            requires
                m == n - 1,
        ;
        assert forall|k: int| 0 <= k < n * s.len() implies #[trigger] repeat_seq(s, n)[k] == s[k
            % (s.len() as int)] by {
            if k >= m * s.len() {
                let j = k - m * s.len();
                assert(k % (s.len() as int) == j) by (nonlinear_arith)
                    requires
                        k == j + m * s.len(),
                        0 <= j < s.len(),
                ;
            }
        }
    }
}

/// Repeating an instruction `n` times lowers to `n` copies of its trace in a
/// row: the trace is `n` times as long, and each position repeats the inner
/// trace cyclically.
pub proof fn lemma_repetition_linearity(i: Instruction, n: usize)
    ensures
        Instruction::Repetition(Box::new(i), n).lowered() == repeat_seq(i.lowered(), n as nat),
        Instruction::Repetition(Box::new(i), n).lowered().len() == n * i.lowered().len(),
        forall|k: int|
            0 <= k < n * i.lowered().len() ==> #[trigger] Instruction::Repetition(
                Box::new(i),
                n,
            ).lowered()[k] == i.lowered()[k % (i.lowered().len() as int)],
{
    lemma_repeat_seq_shape(i.lowered(), n as nat);
}

/// The trace of a concatenation of two lists of instructions is the trace of
/// the first followed by the trace of the second.
pub proof fn lemma_lower_list_concat(a: Seq<Instruction>, b: Seq<Instruction>)
    ensures
        lower_list(a + b) == lower_list(a) + lower_list(b),
    decreases b.len(),
{
    if b.len() == 0 {
        assert(a + b =~= a);
        assert(lower_list(a) + lower_list(b) =~= lower_list(a));
    } else {
        assert((a + b).drop_last() =~= a + b.drop_last());
        lemma_lower_list_concat(a, b.drop_last());
        assert(lower_list(a + b) =~= lower_list(a) + lower_list(b));
    }
}

/// `lower_list` is the concatenation of the members' traces, in order.
proof fn lemma_lower_list_flatten(s: Seq<Instruction>)
    ensures
        lower_list(s) == s.map_values(|i: Instruction| i.lowered()).flatten_alt(),
    decreases s.len(),
{
    if s.len() > 0 {
        lemma_lower_list_flatten(s.drop_last());
        assert(s.drop_last().map_values(|i: Instruction| i.lowered()) =~= s.map_values(
            |i: Instruction| i.lowered(),
        ).drop_last());
    }
}

/// A list lowers to the traces of its members concatenated in list order;
/// the empty list lowers to the empty trace.
pub proof fn lemma_list_concatenation(items: Vec<Instruction>)
    ensures
        Instruction::List(items).lowered() == items@.map_values(
            |i: Instruction| i.lowered(),
        ).flatten(),
        items@.len() == 0 ==> Instruction::List(items).lowered() == Seq::<Action>::empty(),
{
    lemma_lower_list_flatten(items@);
    items@.map_values(|i: Instruction| i.lowered()).lemma_flatten_and_flatten_alt_are_equivalent();
}

/// Flattening a nested list into the list around it never changes the trace:
/// `outer` holds `inner` as a `List` member at some position, and `flat` holds
/// the members of `inner` in its place.
pub proof fn lemma_nesting_associative(
    outer: Vec<Instruction>,
    inner: Vec<Instruction>,
    flat: Vec<Instruction>,
    before: Seq<Instruction>,
    after: Seq<Instruction>,
)
    requires
        outer@ == before + seq![Instruction::List(inner)] + after,
        flat@ == before + inner@ + after,
    ensures
        Instruction::List(outer).lowered() == Instruction::List(flat).lowered(),
{
    let nested = Instruction::List(inner);
    lemma_lower_list_concat(before + seq![nested], after);
    lemma_lower_list_concat(before, seq![nested]);
    lemma_lower_list_concat(before + inner@, after);
    lemma_lower_list_concat(before, inner@);
    assert(seq![nested].drop_last() =~= Seq::<Instruction>::empty());
    assert(lower_list(Seq::<Instruction>::empty()) == Seq::<Action>::empty());
    assert(seq![nested].last() == nested);
    assert(lower_list(seq![nested]) =~= nested.lowered());
}

/// Lowering has no hidden state: equal trees lower to equal traces.
pub proof fn lemma_determinism(a: Instruction, b: Instruction)
    requires
        a == b,
    ensures
        a.lowered() == b.lowered(),
{
}

} // verus!
