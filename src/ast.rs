use vstd::prelude::*;

verus! {

/// The side towards which an action is performed.
#[derive(Debug, PartialEq, Eq, Hash, Clone, Copy, Structural)]
pub enum Direction {
    Left,
    Right,
}

/// A primitive, directed command: the terminal alphabet of the language.
#[derive(Debug, PartialEq, Eq, Hash, Clone, Copy, Structural)]
pub enum Action {
    Jump(Direction),
    Walk(Direction),
    Punch(Direction),
}

/// One action, handed out a fixed number of times.
#[derive(Debug, PartialEq, Eq, Hash, Clone)]
pub struct Repeat {
    action: Action,
    count: usize,
}

impl View for Repeat {
    /// The actions still to be handed out, in order.
    type V = Seq<Action>;

    closed spec fn view(&self) -> Seq<Action> {
        Seq::new(self.count as nat, |_i: int| self.action)
    }
}

impl Repeat {
    /// A source that hands out `action` exactly `count` times.
    pub fn new(action: Action, count: usize) -> (r: Repeat)
        ensures
            r@ == Seq::new(count as nat, |_i: int| action),
    {
        Repeat { action, count }
    }

    /// Hands out the next action, or `None` once all have been handed out.
    pub fn next(&mut self) -> (r: Option<Action>)
        ensures
            old(self)@.len() == 0 ==> r is None && final(self)@ == old(self)@,
            old(self)@.len() > 0 ==> r == Some(old(self)@[0]) && final(self)@ == old(
                self,
            )@.drop_first(),
    {
        if self.count != 0 {
            self.count = self.count - 1;
            assert(self@ =~= old(self)@.drop_first());
            return Some(self.action);
        }
        None
    }
}

/// `n` copies of `s`, one after the other.
pub open spec fn repeat_seq(s: Seq<Action>, n: nat) -> Seq<Action>
    decreases n,
{
    if n == 0 {
        Seq::empty()
    } else {
        repeat_seq(s, (n - 1) as nat) + s
    }
}

/// A tree describing how actions compose.
#[derive(Debug, PartialEq, Eq, Hash)]
pub enum Instruction {
    /// A single action.
    Action(Action),
    /// The inner instruction's trace, `count` times in a row.
    Repetition(Box<Instruction>, usize),
    /// The children's traces, one after the other in list order.
    List(Vec<Instruction>),
}

impl Instruction {
    /// The flat action trace that this instruction stands for.
    pub open spec fn lowered(self) -> Seq<Action>
        decreases self, 0nat,
    {
        match self {
            Instruction::Action(a) => seq![a],
            Instruction::Repetition(inner, n) => repeat_seq(inner.lowered(), n as nat),
            Instruction::List(items) => lower_list(items@),
        }
    }

    /// Lowers this instruction into the ordered sequence of actions it describes.
    pub fn lower(&self) -> (r: Vec<Action>)
        ensures
            r@ == self.lowered(),
        decreases self,
    {
        match self {
            Instruction::Action(a) => {
                let mut r: Vec<Action> = Vec::new();
                r.push(*a);
                r
            },
            Instruction::Repetition(inner, n) => {
                let once = inner.lower();
                let mut r: Vec<Action> = Vec::new();
                let mut k: usize = 0;
                while k < *n
                    invariant
                        k <= *n,
                        once@ == inner.lowered(),
                        r@ == repeat_seq(once@, k as nat),
                    decreases *n - k,
                {
                    append_all(&mut r, &once);
                    k = k + 1;
                }
                r
            },
            Instruction::List(items) => {
                let mut r: Vec<Action> = Vec::new();
                let mut k: usize = 0;
                while k < items.len()
                    invariant
                        k <= items@.len(),
                        *self == Instruction::List(*items),
                        r@ == lower_list(items@.subrange(0, k as int)),
                    decreases items@.len() - k,
                {
                    proof {
                        assert(decreases_to!(self => self->List_0));
                        assert(decreases_to!(self => items@[k as int]));
                    }
                    let part = items[k].lower();
                    append_all(&mut r, &part);
                    assert(items@.subrange(0, k + 1).drop_last() =~= items@.subrange(0, k as int));
                    k = k + 1;
                }
                assert(items@.subrange(0, items@.len() as int) =~= items@);
                r
            },
        }
    }
}

/// Lowering, for callers that write `let actions: Vec<Action> = instruction.into();`.
impl From<Instruction> for Vec<Action> {
    fn from(instruction: Instruction) -> (r: Vec<Action>)
        ensures
            r@ == instruction.lowered(),
    {
        instruction.lower()
    }
}

impl vstd::std_specs::convert::FromSpecImpl<Instruction> for Vec<Action> {
    /// A `Vec` is not a spec value that can be built from a trace, so the
    /// result is described by the `ensures` of `from` instead.
    open spec fn obeys_from_spec() -> bool {
        false
    }

    open spec fn from_spec(v: Instruction) -> Vec<Action> {
        arbitrary()
    }
}

/// A deep copy, member by member; it lowers to the same trace as the original.
impl Clone for Instruction {
    fn clone(&self) -> (r: Self)
        ensures
            r.lowered() == self.lowered(),
        decreases self,
    {
        match self {
            Instruction::Action(a) => Instruction::Action(*a),
            Instruction::Repetition(inner, n) => {
                let copy: Instruction = (**inner).clone();
                Instruction::Repetition(Box::new(copy), *n)
            },
            Instruction::List(items) => {
                let mut copies: Vec<Instruction> = Vec::new();
                let mut k: usize = 0;
                while k < items.len()
                    invariant
                        k <= items@.len(),
                        *self == Instruction::List(*items),
                        copies@.len() == k,
                        forall|j: int| 0 <= j < k ==> #[trigger] copies@[j].lowered() == items@[j].lowered(),
                    decreases items@.len() - k,
                {
                    proof {
                        assert(decreases_to!(self => self->List_0));
                        assert(decreases_to!(self => items@[k as int]));
                    }
                    let copy: Instruction = items[k].clone();
                    copies.push(copy);
                    k = k + 1;
                }
                proof {
                    lemma_lower_list_pointwise(copies@, items@);
                }
                Instruction::List(copies)
            },
        }
    }
}

/// The traces of `items`, concatenated in order.
pub open spec fn lower_list(items: Seq<Instruction>) -> Seq<Action>
    decreases items, 1nat,
{
    if items.len() == 0 {
        Seq::empty()
    } else {
        lower_list(items.drop_last()) + items.last().lowered()
    }
}

/// Lists whose members lower alike lower alike.
proof fn lemma_lower_list_pointwise(a: Seq<Instruction>, b: Seq<Instruction>)
    requires
        a.len() == b.len(),
        forall|j: int| 0 <= j < a.len() ==> #[trigger] a[j].lowered() == b[j].lowered(),
    ensures
        lower_list(a) == lower_list(b),
    decreases a.len(),
{
    if a.len() > 0 {
        lemma_lower_list_pointwise(a.drop_last(), b.drop_last());
        assert(a.last().lowered() == b.last().lowered());
    }
}

/// Appends every action of `src` to `dst`, in order.
fn append_all(dst: &mut Vec<Action>, src: &Vec<Action>)
    ensures
        final(dst)@ == old(dst)@ + src@,
{
    let mut k: usize = 0;
    while k < src.len()
        invariant
            k <= src@.len(),
            dst@ == old(dst)@ + src@.subrange(0, k as int),
        decreases src@.len() - k,
    {
        dst.push(src[k]);
        assert(src@.subrange(0, k + 1) =~= src@.subrange(0, k as int).push(src@[k as int]));
        k = k + 1;
    }
    assert(src@.subrange(0, src@.len() as int) =~= src@);
}

} // verus!
