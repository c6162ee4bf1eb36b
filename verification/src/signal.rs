//! Tri-state signals and the rules that turn a gate's inputs into an output.

use vstd::prelude::*;

verus! {

/// The value carried by an input or an output of a logic gate.
///
/// `Unknown` means that the value is not determined yet, for example because
/// a gate has not received a value on each input. `High` is logical one,
/// `Low` is logical zero. The values are compared for equality only.
#[derive(Debug, Clone, Copy, PartialEq, Eq, Hash, Structural)]
pub enum State {
    Unknown,
    High,
    Low,
}

/// The rule that computes one output of a gate from that gate's whole
/// input vector. A gate holds one rule per output.
#[derive(Debug, Clone, Copy, PartialEq, Eq, Hash, Structural)]
pub enum Transition {
    /// Inverts the first input; an undetermined input stays undetermined.
    Not,
    /// `Low` as soon as one input is `Low`, `High` when every input is `High`.
    And,
    /// `High` as soon as one input is `High`, `Low` when every input is `Low`.
    Or,
    /// Always the given value, whatever the inputs are.
    Constant(State),
}

/// The inverse of a signal: `High` and `Low` swap, `Unknown` stays `Unknown`.
pub open spec fn inverse(s: State) -> State {
    match s {
        State::Unknown => State::Unknown,
        State::High => State::Low,
        State::Low => State::High,
    }
}

/// Logical AND over tri-state values: a single `Low` decides the result,
/// otherwise a single `Unknown` leaves it undetermined, otherwise it is `High`.
pub open spec fn conjunction(inputs: Seq<State>) -> State {
    if inputs.contains(State::Low) {
        State::Low
    } else if inputs.contains(State::Unknown) {
        State::Unknown
    } else {
        State::High
    }
}

/// Logical OR over tri-state values: a single `High` decides the result,
/// otherwise a single `Unknown` leaves it undetermined, otherwise it is `Low`.
pub open spec fn disjunction(inputs: Seq<State>) -> State {
    if inputs.contains(State::High) {
        State::High
    } else if inputs.contains(State::Unknown) {
        State::Unknown
    } else {
        State::Low
    }
}

/// The result of reading `inputs` from left to right as an AND gate does:
/// start from `High`, let a `Unknown` lower the running value to `Unknown`, and
/// stop with `Low` at the first `Low`.
pub open spec fn and_scan(inputs: Seq<State>, acc: State) -> State
    decreases inputs.len(),
{
    if inputs.len() == 0 {
        acc
    } else {
        match inputs[0] {
            State::Unknown => and_scan(inputs.drop_first(), State::Unknown),
            State::Low => State::Low,
            State::High => and_scan(inputs.drop_first(), acc),
        }
    }
}

/// The result of reading `inputs` from left to right as an OR gate does:
/// start from `Low`, let a `Unknown` change the running value to `Unknown`, and
/// stop with `High` at the first `High`.
pub open spec fn or_scan(inputs: Seq<State>, acc: State) -> State
    decreases inputs.len(),
{
    if inputs.len() == 0 {
        acc
    } else {
        match inputs[0] {
            State::Unknown => or_scan(inputs.drop_first(), State::Unknown),
            State::High => State::High,
            State::Low => or_scan(inputs.drop_first(), acc),
        }
    }
}

impl State {
    /// Inverts the signal.
    pub fn invert(self) -> (r: State)
        ensures
            r == inverse(self),
    {
        match self {
            State::Unknown => State::Unknown,
            State::High => State::Low,
            State::Low => State::High,
        }
    }
}

impl Transition {
    /// The value this rule gives for the input vector `inputs`.
    ///
    /// The rule is total: `Not` on an empty vector is `Unknown`, `And` of no
    /// input is `High` and `Or` of no input is `Low`.
    pub open spec fn eval(self, inputs: Seq<State>) -> State {
        match self {
            Transition::Not => if inputs.len() == 0 {
                State::Unknown
            } else {
                inverse(inputs[0])
            },
            Transition::And => conjunction(inputs),
            Transition::Or => disjunction(inputs),
            Transition::Constant(s) => s,
        }
    }

    /// Computes the output for the given inputs.
    pub fn apply(&self, inputs: &[State]) -> (r: State)
        ensures
            r == self.eval(inputs@),
    {
        match self {
            Transition::Not => not_gate(inputs),
            Transition::And => and_gate(inputs),
            Transition::Or => or_gate(inputs),
            Transition::Constant(s) => *s,
        }
    }
}

/// Output of a NOT gate: the inverse of the first input.
pub fn not_gate(inputs: &[State]) -> (r: State)
    ensures
        r == Transition::Not.eval(inputs@),
{
    if inputs.len() == 0 {
        State::Unknown
    } else {
        inputs[0].invert()
    }
}

/// Output of an AND gate, found by one pass over the inputs that stops at
/// the first `Low`.
pub fn and_gate(inputs: &[State]) -> (r: State)
    ensures
        r == conjunction(inputs@),
{
    let mut ret = State::High;
    let mut i: usize = 0;
    while i < inputs.len()
        invariant
            i <= inputs.len(),
            forall|x: int| 0 <= x < i ==> inputs@[x] != State::Low,
            ret == State::Unknown <==> exists|x: int| 0 <= x < i && inputs@[x] == State::Unknown,
            ret != State::Low,
        decreases inputs.len() - i,
    {
        match inputs[i] {
            State::Unknown => {
                ret = State::Unknown;
            },
            State::Low => {
                return State::Low;
            },
            State::High => {},
        }
        i += 1;
    }
    ret
}

/// Output of an OR gate, found by one pass over the inputs that stops at
/// the first `High`.
pub fn or_gate(inputs: &[State]) -> (r: State)
    ensures
        r == disjunction(inputs@),
{
    let mut ret = State::Low;
    let mut i: usize = 0;
    while i < inputs.len()
        invariant
            i <= inputs.len(),
            forall|x: int| 0 <= x < i ==> inputs@[x] != State::High,
            ret == State::Unknown <==> exists|x: int| 0 <= x < i && inputs@[x] == State::Unknown,
            ret != State::High,
        decreases inputs.len() - i,
    {
        match inputs[i] {
            State::Unknown => {
                ret = State::Unknown;
            },
            State::High => {
                return State::High;
            },
            State::Low => {},
        }
        i += 1;
    }
    ret
}

/// A rule is a function of its arguments alone: equal input vectors give
/// equal outputs.
pub proof fn lemma_eval_deterministic(t: Transition, a: Seq<State>, b: Seq<State>)
    requires
        a =~= b,
    ensures
        t.eval(a) == t.eval(b),
{
}

/// AND dominance: one `Low` input forces `Low`, whatever the other inputs
/// are; without a `Low`, one `Unknown` leaves the output undetermined; the
/// output is `High` exactly when every input is `High`.
pub proof fn lemma_and_dominance(inputs: Seq<State>)
    ensures
        (exists|i: int| 0 <= i < inputs.len() && inputs[i] == State::Low) ==> conjunction(inputs)
            == State::Low,
        conjunction(inputs) == State::High <==> (forall|i: int|
            0 <= i < inputs.len() ==> inputs[i] == State::High),
        conjunction(inputs) == State::Unknown <==> (forall|i: int|
            0 <= i < inputs.len() ==> inputs[i] != State::Low) && (exists|i: int|
            0 <= i < inputs.len() && inputs[i] == State::Unknown),
{
    if conjunction(inputs) == State::High {
        assert forall|i: int| 0 <= i < inputs.len() implies inputs[i] == State::High by {
            assert(!inputs.contains(inputs[i]) || inputs[i] == State::High);
        }
    }
}

/// OR dominance: one `High` input forces `High`, whatever the other inputs
/// are; without a `High`, one `Unknown` leaves the output undetermined; the
/// output is `Low` exactly when every input is `Low`.
pub proof fn lemma_or_dominance(inputs: Seq<State>)
    ensures
        (exists|i: int| 0 <= i < inputs.len() && inputs[i] == State::High) ==> disjunction(inputs)
            == State::High,
        disjunction(inputs) == State::Low <==> (forall|i: int|
            0 <= i < inputs.len() ==> inputs[i] == State::Low),
        disjunction(inputs) == State::Unknown <==> (forall|i: int|
            0 <= i < inputs.len() ==> inputs[i] != State::High) && (exists|i: int|
            0 <= i < inputs.len() && inputs[i] == State::Unknown),
{
    if disjunction(inputs) == State::Low {
        assert forall|i: int| 0 <= i < inputs.len() implies inputs[i] == State::Low by {
            assert(!inputs.contains(inputs[i]) || inputs[i] == State::Low);
        }
    }
}

/// Reading the inputs from left to right and stopping at the first `Low`
/// gives the same value as the order-free definition of AND, as long as the
/// running value is `High` or `Unknown`.
pub proof fn lemma_and_scan_is_conjunction(inputs: Seq<State>, acc: State)
    requires
        acc != State::Low,
    ensures
        and_scan(inputs, acc) == (if acc == State::Unknown && conjunction(inputs) == State::High {
            State::Unknown
        } else {
            conjunction(inputs)
        }),
    decreases inputs.len(),
{
    if inputs.len() > 0 {
        let rest = inputs.drop_first();
        assert forall|s: State| inputs.contains(s) <==> (inputs[0] == s || rest.contains(s)) by {
            if inputs.contains(s) {
                let i = choose|i: int| 0 <= i < inputs.len() && inputs[i] == s;
                if i > 0 {
                    assert(rest[i - 1] == s);
                }
            }
            if rest.contains(s) {
                let i = choose|i: int| 0 <= i < rest.len() && rest[i] == s;
                assert(inputs[i + 1] == s);
            }
        }
        match inputs[0] {
            State::Unknown => lemma_and_scan_is_conjunction(rest, State::Unknown),
            State::Low => {},
            State::High => lemma_and_scan_is_conjunction(rest, acc),
        }
    }
}

/// Reading the inputs from left to right and stopping at the first `High`
/// gives the same value as the order-free definition of OR, as long as the
/// running value is `Low` or `Unknown`.
pub proof fn lemma_or_scan_is_disjunction(inputs: Seq<State>, acc: State)
    requires
        acc != State::High,
    ensures
        or_scan(inputs, acc) == (if acc == State::Unknown && disjunction(inputs) == State::Low {
            State::Unknown
        } else {
            disjunction(inputs)
        }),
    decreases inputs.len(),
{
    if inputs.len() > 0 {
        let rest = inputs.drop_first();
        assert forall|s: State| inputs.contains(s) <==> (inputs[0] == s || rest.contains(s)) by {
            if inputs.contains(s) {
                let i = choose|i: int| 0 <= i < inputs.len() && inputs[i] == s;
                if i > 0 {
                    assert(rest[i - 1] == s);
                }
            }
            if rest.contains(s) {
                let i = choose|i: int| 0 <= i < rest.len() && rest[i] == s;
                assert(inputs[i + 1] == s);
            }
        }
        match inputs[0] {
            State::Unknown => lemma_or_scan_is_disjunction(rest, State::Unknown),
            State::High => {},
            State::Low => lemma_or_scan_is_disjunction(rest, acc),
        }
    }
}

} // verus!
