//! A node of the search: the numbers left, the operations done so far and
//! their running result.
use vstd::prelude::*;

use crate::number_list::{lemma_one_pick_per_value, pick_view, possibilities, sorted, NumberList};
use crate::operation::Operation;
use crate::text::{decimal, push_chars, push_decimal, string_of};

verus! {

/// What has been done so far on a branch of the search.
#[derive(Clone, Debug, PartialEq, Eq)]
pub enum OpsList {
    /// No number has been picked yet.
    Empty,
    /// One number has been picked; no operation can be formed yet.
    OneOperand(u32),
    /// The operations performed so far, in order.
    Ops(Vec<Operation>),
}

/// The mathematical model of an [`OpsList`].
pub enum History {
    Empty,
    One(u32),
    Ops(Seq<Operation>),
}

impl View for OpsList {
    type V = History;

    open spec fn view(&self) -> History {
        match self {
            OpsList::Empty => History::Empty,
            OpsList::OneOperand(v) => History::One(*v),
            OpsList::Ops(ops) => History::Ops(ops@),
        }
    }
}

/// The mathematical model of a [`Candidate`].
pub struct CandidateModel {
    pub numbers: Seq<u32>,
    pub history: History,
    pub result: u32,
}

/// A candidate solution: the numbers left to use, the operations carried out
/// so far, and their result.
#[derive(Clone, Debug, PartialEq, Eq)]
pub struct Candidate {
    pub numbers: NumberList,
    pub ops: OpsList,
    pub result: u32,
}

impl View for Candidate {
    type V = CandidateModel;

    open spec fn view(&self) -> CandidateModel {
        CandidateModel { numbers: self.numbers@, history: self.ops@, result: self.result }
    }
}

/// How many source numbers a history has used up.
pub open spec fn consumed(h: History) -> nat {
    match h {
        History::Empty => 0,
        History::One(_) => 1,
        History::Ops(ops) => ops.len() + 1,
    }
}

/// Absolute difference between `x` and `goal`.
pub open spec fn abs_diff(x: u32, goal: u32) -> u32 {
    if x >= goal {
        (x - goal) as u32
    } else {
        (goal - x) as u32
    }
}

/// The number that the next operation combines with the newly picked one:
/// the single number picked so far, or the running result.
pub open spec fn left_operand(c: CandidateModel) -> u32 {
    match c.history {
        History::One(v) => v,
        _ => c.result,
    }
}

/// The history after `op` is applied.
pub open spec fn grow(h: History, op: Operation) -> History {
    match h {
        History::Ops(ops) => History::Ops(ops.push(op)),
        _ => History::Ops(seq![op]),
    }
}

/// The children of `c` obtained from the first `n` of `ops`, each leaving
/// `rest`; operations without a defined result give none.
pub open spec fn extend(c: CandidateModel, rest: Seq<u32>, ops: Seq<Operation>, n: int) -> Seq<
    CandidateModel,
>
    decreases n,
{
    if n <= 0 {
        Seq::empty()
    } else {
        extend(c, rest, ops, n - 1) + match ops[n - 1].outcome() {
            Some(v) => seq![CandidateModel { numbers: rest, history: grow(c.history, ops[n - 1]), result: v }],
            None => Seq::empty(),
        }
    }
}

/// The children of `c` for one pick `(value, rest)`.
pub open spec fn children(c: CandidateModel, pick: (u32, Seq<u32>)) -> Seq<CandidateModel> {
    match c.history {
        History::Empty => seq![CandidateModel { numbers: pick.1, history: History::One(pick.0), result: pick.0 }],
        _ => {
            let ops = Operation::possible_ops(left_operand(c), pick.0);
            extend(c, pick.1, ops, ops.len() as int)
        },
    }
}

/// The children of `c` for the first `n` of `picks`, in order.
pub open spec fn generation(c: CandidateModel, picks: Seq<(u32, Seq<u32>)>, n: int) -> Seq<CandidateModel>
    decreases n,
{
    if n <= 0 {
        Seq::empty()
    } else {
        generation(c, picks, n - 1) + children(c, picks[n - 1])
    }
}

/// Every child of `c`: for each pick of its numbers in turn, every way of
/// combining the picked number with the current state.
pub open spec fn next_gen_of(c: CandidateModel) -> Seq<CandidateModel> {
    let picks = possibilities(c.numbers);
    generation(c, picks, picks.len() as int)
}

/// A candidate seen through its model.
pub open spec fn candidate_view(c: Candidate) -> CandidateModel {
    c@
}

proof fn lemma_extend_count(c: CandidateModel, rest: Seq<u32>, ops: Seq<Operation>, n: int)
    requires
        !(c.history is Empty),
        0 <= n <= ops.len(),
    ensures
        forall|i: int|
            0 <= i < extend(c, rest, ops, n).len() ==> (#[trigger] extend(c, rest, ops, n)[i]).numbers == rest
                && consumed(extend(c, rest, ops, n)[i].history) == consumed(c.history) + 1,
    decreases n,
{
    if n > 0 {
        lemma_extend_count(c, rest, ops, n - 1);
        let prev = extend(c, rest, ops, n - 1);
        let cur = extend(c, rest, ops, n);
        assert forall|i: int| 0 <= i < cur.len() implies (#[trigger] cur[i]).numbers == rest && consumed(
            cur[i].history,
        ) == consumed(c.history) + 1 by {
            if i < prev.len() {
                assert(cur[i] == prev[i]);
            }
        }
    }
}

proof fn lemma_generation_count(c: CandidateModel, picks: Seq<(u32, Seq<u32>)>, n: int)
    requires
        0 <= n <= picks.len(),
        forall|k: int| 0 <= k < picks.len() ==> (#[trigger] picks[k]).1.len() + 1 == c.numbers.len(),
    ensures
        forall|i: int|
            0 <= i < generation(c, picks, n).len() ==> (#[trigger] generation(c, picks, n)[i]).numbers.len()
                + consumed(generation(c, picks, n)[i].history) == c.numbers.len() + consumed(c.history),
    decreases n,
{
    if n > 0 {
        lemma_generation_count(c, picks, n - 1);
        let prev = generation(c, picks, n - 1);
        let kids = children(c, picks[n - 1]);
        let cur = generation(c, picks, n);
        if !(c.history is Empty) {
            let ops = Operation::possible_ops(left_operand(c), picks[n - 1].0);
            lemma_extend_count(c, picks[n - 1].1, ops, ops.len() as int);
        }
        assert forall|i: int| 0 <= i < cur.len() implies (#[trigger] cur[i]).numbers.len() + consumed(
            cur[i].history,
        ) == c.numbers.len() + consumed(c.history) by {
            if i < prev.len() {
                assert(cur[i] == prev[i]);
            } else {
                assert(cur[i] == kids[i - prev.len()]);
            }
        }
    }
}

/// Expanding a candidate never loses or invents a number: for every child,
/// the numbers used by its history plus the numbers it has left equal the
/// same count for the parent.
pub proof fn lemma_next_gen_keeps_count(c: CandidateModel)
    requires
        sorted(c.numbers),
    ensures
        forall|i: int|
            0 <= i < next_gen_of(c).len() ==> (#[trigger] next_gen_of(c)[i]).numbers.len() + consumed(
                next_gen_of(c)[i].history,
            ) == c.numbers.len() + consumed(c.history),
{
    let picks = possibilities(c.numbers);
    lemma_one_pick_per_value(c.numbers);
    lemma_generation_count(c, picks, picks.len() as int);
}

/// The text of the first `n` operations of `ops`, each followed by `", "`.
pub open spec fn ops_text(ops: Seq<Operation>, n: int) -> Seq<char>
    decreases n,
{
    if n <= 0 {
        Seq::empty()
    } else {
        ops_text(ops, n - 1) + ops[n - 1].text() + seq![',', ' ']
    }
}

/// The text of a history: `None` before any pick, the number and a space
/// after one pick, else the operations.
pub open spec fn history_text(h: History) -> Seq<char> {
    match h {
        History::Empty => seq!['N', 'o', 'n', 'e'],
        History::One(v) => decimal(v as nat).push(' '),
        History::Ops(ops) => ops_text(ops, ops.len() as int),
    }
}

/// The mark of a distance: ` ***` for an exact match, then
/// `[dist = d] **` up to 5, `[dist = d] *` up to 10, `[dist = d]` beyond.
pub open spec fn distance_text(d: u32) -> Seq<char> {
    if d == 0 {
        seq![' ', '*', '*', '*']
    } else {
        seq!['[', 'd', 'i', 's', 't', ' ', '=', ' '] + decimal(d as nat) + if d <= 5 {
            seq![']', ' ', '*', '*']
        } else if d <= 10 {
            seq![']', ' ', '*']
        } else {
            seq![']']
        }
    }
}

/// The text of a candidate measured against `goal`.
pub open spec fn candidate_text(c: CandidateModel, goal: u32) -> Seq<char> {
    history_text(c.history) + distance_text(abs_diff(c.result, goal))
}

impl Candidate {
    /// The candidate as text: its history, then how close it comes to
    /// `goal`.
    pub fn render(&self, goal: u32) -> (r: String)
        ensures
            r@ == candidate_text(self@, goal),
    {
        let mut out: Vec<char> = Vec::new();
        match &self.ops {
            OpsList::Empty => push_chars(&mut out, &['N', 'o', 'n', 'e']),
            OpsList::OneOperand(v) => {
                push_decimal(&mut out, *v);
                out.push(' ');
            },
            OpsList::Ops(ops) => {
                let mut i: usize = 0;
                while i < ops.len()
                    invariant
                        i <= ops@.len(),
                        out@ == ops_text(ops@, i as int),
                    decreases ops@.len() - i,
                {
                    ops[i].write_to(&mut out);
                    push_chars(&mut out, &[',', ' ']);
                    i = i + 1;
                }
            },
        }
        proof {
            assert(out@ =~= history_text(self.ops@));
        }
        let ghost head = out@;
        let d = self.distance(goal);
        if d == 0 {
            push_chars(&mut out, &[' ', '*', '*', '*']);
        } else {
            push_chars(&mut out, &['[', 'd', 'i', 's', 't', ' ', '=', ' ']);
            push_decimal(&mut out, d);
            if d <= 5 {
                push_chars(&mut out, &[']', ' ', '*', '*']);
            } else if d <= 10 {
                push_chars(&mut out, &[']', ' ', '*']);
            } else {
                push_chars(&mut out, &[']']);
            }
        }
        proof {
            assert(out@ =~= head + distance_text(d));
        }
        string_of(out)
    }

    /// Well formed: the remaining numbers are sorted.
    pub open spec fn wf(&self) -> bool {
        self.numbers.wf()
    }

    /// The root of the search: all the numbers, nothing picked yet.
    pub fn new(numbers: NumberList) -> (r: Candidate)
        ensures
            r@ == (CandidateModel { numbers: numbers@, history: History::Empty, result: 0 }),
            r.wf() == numbers.wf(),
    {
        Candidate { ops: OpsList::Empty, numbers, result: 0 }
    }

    /// Distance from the result so far to `goal`.
    pub fn distance(&self, goal: u32) -> (r: u32)
        ensures
            r == abs_diff(self.result, goal),
    {
        if self.result >= goal {
            self.result - goal
        } else {
            goal - self.result
        }
    }

    /// The next generation: every child reachable by picking one more number
    /// (one pick per distinct value) and combining it with the current state
    /// in every possible way.
    pub fn next_gen(self) -> (r: Vec<Candidate>)
        requires
            self.wf(),
        ensures
            r@.map_values(|c: Candidate| candidate_view(c)) == next_gen_of(self@),
            forall|i: int| 0 <= i < r@.len() ==> (#[trigger] r@[i]).wf(),
    {
        self.successors()
    }

    /// A copy of the candidate.
    pub fn duplicate(&self) -> (r: Candidate)
        ensures
            r@ == self@,
            r.wf() == self.wf(),
    {
        let ops = match &self.ops {
            OpsList::Empty => OpsList::Empty,
            OpsList::OneOperand(v) => OpsList::OneOperand(*v),
            OpsList::Ops(h) => {
                let h2 = h.clone();
                proof {
                    assert(h2@ =~= h@);
                }
                OpsList::Ops(h2)
            },
        };
        Candidate { numbers: self.numbers.duplicate(), ops, result: self.result }
    }

    /// The children of the candidate, as [`Candidate::next_gen`] gives them,
    /// leaving the candidate itself in place.
    pub fn successors(&self) -> (r: Vec<Candidate>)
        requires
            self.wf(),
        ensures
            r@.map_values(|c: Candidate| candidate_view(c)) == next_gen_of(self@),
            forall|i: int| 0 <= i < r@.len() ==> (#[trigger] r@[i]).wf(),
    {
        let poss = self.numbers.build_possibilities();
        let ghost picks = possibilities(self.numbers@);
        let mut output: Vec<Candidate> = Vec::new();
        let mut i: usize = 0;
        while i < poss.len()
            invariant
                i <= poss@.len(),
                self.wf(),
                picks == possibilities(self.numbers@),
                poss@.map_values(|p: (u32, NumberList)| pick_view(p)) == picks,
                forall|k: int| 0 <= k < poss@.len() ==> (#[trigger] poss@[k]).1.wf(),
                output@.map_values(|c: Candidate| candidate_view(c)) == generation(self@, picks, i as int),
                forall|k: int| 0 <= k < output@.len() ==> (#[trigger] output@[k]).wf(),
            decreases poss@.len() - i,
        {
            let op2 = poss[i].0;
            let rest = &poss[i].1;
            let ghost before = output@.map_values(|c: Candidate| candidate_view(c));
            proof {
                assert(picks[i as int] == pick_view(poss@[i as int]));
                assert(rest.wf());
            }
            match &self.ops {
                OpsList::Empty => {
                    let child = Candidate { numbers: rest.duplicate(), ops: OpsList::OneOperand(op2), result: op2 };
                    output.push(child);
                    proof {
                        assert(output@.map_values(|c: Candidate| candidate_view(c)) =~= before.push(child@));
                    }
                },
                OpsList::OneOperand(a) => {
                    let ops = Operation::create_all_possible_ops(*a, op2);
                    self.push_children(&mut output, &ops, rest);
                },
                OpsList::Ops(_) => {
                    let ops = Operation::create_all_possible_ops(self.result, op2);
                    self.push_children(&mut output, &ops, rest);
                },
            }
            proof {
                assert(generation(self@, picks, i + 1) == generation(self@, picks, i as int) + children(
                    self@,
                    picks[i as int],
                ));
            }
            i = i + 1;
        }
        proof {
            assert(poss@.len() == picks.len());
        }
        output
    }

    /// Appends to `out` the children obtained from each of `ops` that has a
    /// defined result, each leaving `rest`.
    fn push_children(&self, out: &mut Vec<Candidate>, ops: &Vec<Operation>, rest: &NumberList)
        requires
            !(self.ops@ is Empty),
            rest.wf(),
            forall|i: int| 0 <= i < old(out)@.len() ==> (#[trigger] old(out)@[i]).wf(),
        ensures
            final(out)@.map_values(|c: Candidate| candidate_view(c)) == old(out)@.map_values(
                |c: Candidate| candidate_view(c),
            ) + extend(self@, rest@, ops@, ops@.len() as int),
            forall|i: int| 0 <= i < final(out)@.len() ==> (#[trigger] final(out)@[i]).wf(),
    {
        let ghost start = old(out)@.map_values(|c: Candidate| candidate_view(c));
        let mut j: usize = 0;
        while j < ops.len()
            invariant
                j <= ops@.len(),
                !(self.ops@ is Empty),
                rest.wf(),
                out@.map_values(|c: Candidate| candidate_view(c)) == start + extend(
                    self@,
                    rest@,
                    ops@,
                    j as int,
                ),
                forall|i: int| 0 <= i < out@.len() ==> (#[trigger] out@[i]).wf(),
            decreases ops@.len() - j,
        {
            let op = ops[j];
            let ghost before = out@.map_values(|c: Candidate| candidate_view(c));
            match op.result() {
                Some(v) => {
                    let history = match &self.ops {
                        OpsList::Ops(h) => {
                            let mut h2 = h.clone();
                            proof {
                                assert(h2@ =~= h@);
                            }
                            h2.push(op);
                            h2
                        },
                        _ => {
                            let mut h2: Vec<Operation> = Vec::new();
                            h2.push(op);
                            h2
                        },
                    };
                    proof {
                        assert(OpsList::Ops(history)@ == grow(self.ops@, op)) by {
                            assert(history@ =~= match self.ops@ {
                                History::Ops(s) => s.push(op),
                                _ => seq![op],
                            });
                        }
                    }
                    let child = Candidate { numbers: rest.duplicate(), ops: OpsList::Ops(history), result: v };
                    out.push(child);
                    proof {
                        assert(out@.map_values(|c: Candidate| candidate_view(c)) =~= before.push(child@));
                    }
                },
                None => {},
            }
            proof {
                assert(start + extend(self@, rest@, ops@, j + 1) =~= before + match op.outcome() {
                    Some(v) => seq![CandidateModel { numbers: rest@, history: grow(self.ops@, op), result: v }],
                    None => Seq::<CandidateModel>::empty(),
                });
            }
            j = j + 1;
        }
    }
}

} // verus!
