use vstd::prelude::*;

verus! {

/// The two recoverable failures of the engine.
#[derive(Debug, Clone, Copy, PartialEq, Eq, Structural)]
pub enum Error {
    /// An input reference names a slot at or past the declared input count.
    InputOutOfBounds { index: usize, input_count: usize },
    /// An assignment's length differs from the declared input count.
    InvalidInputCount { supplied: usize, expected: usize },
}

/// A node of a circuit: an input reference or a gate that owns its operands.
pub enum Component {
    Input { index: usize },
    Not(NotGate),
    Or(OrGate),
    And(AndGate),
    Xor(XorGate),
}

pub struct NotGate {
    input: Box<Component>,
}

pub struct OrGate {
    inputs: Vec<Component>,
}

pub struct AndGate {
    inputs: Vec<Component>,
}

pub struct XorGate {
    inputs: Vec<Component>,
}

impl OrGate {
    #[verifier::type_invariant]
    spec fn at_least_two(&self) -> bool {
        self.inputs.len() >= 2
    }
}

impl AndGate {
    #[verifier::type_invariant]
    spec fn at_least_two(&self) -> bool {
        self.inputs.len() >= 2
    }
}

impl XorGate {
    #[verifier::type_invariant]
    spec fn at_least_two(&self) -> bool {
        self.inputs.len() >= 2
    }
}

/// The children of a node, in order: none for an input reference,
/// one for a NOT gate, all operands for an n-ary gate.
pub closed spec fn operands(c: Component) -> Seq<Component> {
    match c {
        Component::Input { .. } => Seq::empty(),
        Component::Not(g) => seq![*g.input],
        Component::Or(g) => g.inputs@,
        Component::And(g) => g.inputs@,
        Component::Xor(g) => g.inputs@,
    }
}

/// True when some entry of `s` is true.
pub open spec fn any(s: Seq<bool>) -> bool {
    exists|k: int| 0 <= k < s.len() && #[trigger] s[k]
}

/// True when every entry of `s` is true.
pub open spec fn all(s: Seq<bool>) -> bool {
    forall|k: int| 0 <= k < s.len() ==> #[trigger] s[k]
}

/// True when exactly one entry of `s` is true.
pub open spec fn one_hot(s: Seq<bool>) -> bool {
    exists|k: int|
        0 <= k < s.len() && #[trigger] s[k] && forall|j: int|
            0 <= j < s.len() && j != k ==> !#[trigger] s[j]
}

/// The value a node computes under the assignment `a`.
pub closed spec fn eval(c: Component, a: Seq<bool>) -> bool
    decreases c,
{
    match c {
        Component::Input { index } => a[index as int],
        Component::Not(g) => !eval(*g.input, a),
        Component::Or(g) => any(outputs(g.inputs@, a)),
        Component::And(g) => all(outputs(g.inputs@, a)),
        Component::Xor(g) => one_hot(outputs(g.inputs@, a)),
    }
}

/// The values of a sequence of nodes under the assignment `a`, in order.
pub closed spec fn outputs(cs: Seq<Component>, a: Seq<bool>) -> Seq<bool>
    decreases cs,
{
    if cs.len() == 0 {
        Seq::empty()
    } else {
        seq![eval(cs[0], a)] + outputs(cs.drop_first(), a)
    }
}

/// Whether an input reference to slot `i` is reachable from `c`.
pub closed spec fn uses_input(c: Component, i: usize) -> bool
    decreases c,
{
    match c {
        Component::Input { index } => index == i,
        Component::Not(g) => uses_input(*g.input, i),
        Component::Or(g) => uses_input_any(g.inputs@, i),
        Component::And(g) => uses_input_any(g.inputs@, i),
        Component::Xor(g) => uses_input_any(g.inputs@, i),
    }
}

/// Whether an input reference to slot `i` is reachable from one of `cs`.
pub closed spec fn uses_input_any(cs: Seq<Component>, i: usize) -> bool
    decreases cs,
{
    if cs.len() == 0 {
        false
    } else {
        uses_input(cs[0], i) || uses_input_any(cs.drop_first(), i)
    }
}

/// Every input reference reachable from `c` names a slot below `n`.
pub open spec fn in_bounds(c: Component, n: nat) -> bool {
    forall|i: usize| #[trigger] uses_input(c, i) ==> i < n
}

/// The values of a sequence of nodes are those of each node.
pub proof fn lemma_outputs(cs: Seq<Component>, a: Seq<bool>)
    ensures
        outputs(cs, a).len() == cs.len(),
        forall|k: int| 0 <= k < cs.len() ==> #[trigger] outputs(cs, a)[k] == eval(cs[k], a),
    decreases cs.len(),
{
    if cs.len() > 0 {
        lemma_outputs(cs.drop_first(), a);
        assert forall|k: int| 0 < k < cs.len() implies cs.drop_first()[k - 1] == cs[k] by {}
    }
}

/// A reference is reachable from a sequence of nodes exactly when it is
/// reachable from one of them.
pub proof fn lemma_uses_input_any(cs: Seq<Component>, i: usize)
    ensures
        uses_input_any(cs, i) <==> exists|k: int| 0 <= k < cs.len() && #[trigger] uses_input(cs[k], i),
    decreases cs.len(),
{
    if cs.len() > 0 {
        let rest = cs.drop_first();
        lemma_uses_input_any(rest, i);
        assert(uses_input_any(cs, i) == (uses_input(cs[0], i) || uses_input_any(rest, i)));
        if uses_input(cs[0], i) {
            assert(uses_input(cs[0], i));
        } else if uses_input_any(rest, i) {
            let k = choose|k: int| 0 <= k < rest.len() && #[trigger] uses_input(rest[k], i);
            assert(rest[k] == cs[k + 1]);
            assert(uses_input(cs[k + 1], i));
        }
        if exists|k: int| 0 <= k < cs.len() && #[trigger] uses_input(cs[k], i) {
            let k = choose|k: int| 0 <= k < cs.len() && #[trigger] uses_input(cs[k], i);
            if k > 0 {
                assert(rest[k - 1] == cs[k]);
                assert(uses_input(rest[k - 1], i));
            }
        }
    }
}

/// An input reference reads its own slot, reaches only that slot, and is
/// stray exactly when its slot is at or past `n`.
pub proof fn lemma_input_semantics(index: usize, i: usize, n: usize, a: Seq<bool>)
    ensures
        eval(Component::Input { index }, a) == a[index as int],
        uses_input(Component::Input { index }, i) == (index == i),
        in_bounds(Component::Input { index }, n as nat) == (index < n),
{
    if index >= n {
        assert(uses_input(Component::Input { index }, index));
    }
}

/// A gate is in bounds exactly when each of its operands is, and a
/// reference is reachable from it exactly when it is from an operand.
pub proof fn lemma_gate_in_bounds(c: Component, n: nat)
    requires
        !(c is Input),
    ensures
        forall|i: usize| #[trigger] uses_input(c, i) <==> exists|k: int|
            0 <= k < operands(c).len() && #[trigger] uses_input(operands(c)[k], i),
        in_bounds(c, n) <==> forall|k: int|
            0 <= k < operands(c).len() ==> in_bounds(#[trigger] operands(c)[k], n),
{
    let ops = operands(c);
    assert forall|i: usize| #[trigger] uses_input(c, i) <==> exists|k: int|
        0 <= k < ops.len() && #[trigger] uses_input(ops[k], i) by {
        lemma_uses_input_any(ops, i);
        if c is Not {
            if exists|k: int| 0 <= k < ops.len() && #[trigger] uses_input(ops[k], i) {
                let k = choose|k: int| 0 <= k < ops.len() && #[trigger] uses_input(ops[k], i);
                assert(k == 0);
            }
            assert(uses_input(c, i) ==> uses_input(ops[0], i));
        }
    }
    if in_bounds(c, n) {
        assert forall|k: int| 0 <= k < ops.len() implies in_bounds(#[trigger] ops[k], n) by {
            assert forall|i: usize| #[trigger] uses_input(ops[k], i) implies i < n by {
                assert(uses_input(c, i));
            }
        }
    }
    if forall|k: int| 0 <= k < ops.len() ==> in_bounds(#[trigger] ops[k], n) {
        assert forall|i: usize| #[trigger] uses_input(c, i) implies i < n by {
            let k = choose|k: int| 0 <= k < ops.len() && #[trigger] uses_input(ops[k], i);
            assert(in_bounds(ops[k], n));
        }
    }
}

/// The first input reference at or past `n` met in a depth-first,
/// left-to-right walk of `c`, if any.
pub closed spec fn first_stray(c: Component, n: usize) -> Option<usize>
    decreases c,
{
    match c {
        Component::Input { index } => if index >= n {
            Some(index)
        } else {
            None
        },
        Component::Not(g) => first_stray(*g.input, n),
        Component::Or(g) => first_stray_any(g.inputs@, n),
        Component::And(g) => first_stray_any(g.inputs@, n),
        Component::Xor(g) => first_stray_any(g.inputs@, n),
    }
}

/// The first out-of-range reference met when walking `cs` in order.
pub closed spec fn first_stray_any(cs: Seq<Component>, n: usize) -> Option<usize>
    decreases cs,
{
    if cs.len() == 0 {
        None
    } else {
        match first_stray(cs[0], n) {
            Some(i) => Some(i),
            None => first_stray_any(cs.drop_first(), n),
        }
    }
}

/// What validating `c` against `n` declared inputs yields: the first
/// out-of-range reference, if there is one, is reported.
pub open spec fn bounds_check(c: Component, n: usize) -> Result<(), Error> {
    match first_stray(c, n) {
        None => Ok(()),
        Some(index) => Err(Error::InputOutOfBounds { index, input_count: n }),
    }
}

/// Validation fails exactly when some reachable input reference is out of
/// range, and the index it reports is such a reference.
pub proof fn lemma_validation_detects_strays(c: Component, n: usize)
    ensures
        first_stray(c, n) is None <==> in_bounds(c, n as nat),
        first_stray(c, n) matches Some(i) ==> uses_input(c, i) && i >= n,
    decreases c,
{
    match c {
        Component::Input { index } => {
            lemma_input_semantics(index, index, n, Seq::empty());
        },
        Component::Not(g) => {
            lemma_validation_detects_strays(*g.input, n);
            lemma_gate_in_bounds(c, n as nat);
            assert(operands(c)[0] == *g.input);
            if let Some(i) = first_stray(c, n) {
                assert(uses_input(operands(c)[0], i));
            }
        },
        Component::Or(g) => {
            lemma_strays_among(g.inputs@, n);
            lemma_gate_in_bounds(c, n as nat);
            assert(operands(c) == g.inputs@);
        },
        Component::And(g) => {
            lemma_strays_among(g.inputs@, n);
            lemma_gate_in_bounds(c, n as nat);
            assert(operands(c) == g.inputs@);
        },
        Component::Xor(g) => {
            lemma_strays_among(g.inputs@, n);
            lemma_gate_in_bounds(c, n as nat);
            assert(operands(c) == g.inputs@);
        },
    }
}

/// The sequence form of the law above.
proof fn lemma_strays_among(cs: Seq<Component>, n: usize)
    ensures
        first_stray_any(cs, n) is None <==> forall|k: int|
            0 <= k < cs.len() ==> in_bounds(#[trigger] cs[k], n as nat),
        first_stray_any(cs, n) matches Some(i) ==> i >= n && exists|k: int|
            0 <= k < cs.len() && #[trigger] uses_input(cs[k], i),
    decreases cs,
{
    if cs.len() > 0 {
        let rest = cs.drop_first();
        lemma_validation_detects_strays(cs[0], n);
        lemma_strays_among(rest, n);
        assert forall|k: int| 0 < k < cs.len() implies cs[k] == rest[k - 1] by {}
        if let Some(i) = first_stray_any(cs, n) {
            if first_stray(cs[0], n) is None {
                let k = choose|k: int| 0 <= k < rest.len() && #[trigger] uses_input(rest[k], i);
                assert(uses_input(cs[k + 1], i));
            } else {
                assert(uses_input(cs[0], i));
            }
        } else {
            assert forall|k: int| 0 <= k < cs.len() implies in_bounds(#[trigger] cs[k], n as nat) by {
                if k > 0 {
                    assert(in_bounds(rest[k - 1], n as nat));
                }
            }
        }
        if forall|k: int| 0 <= k < cs.len() ==> in_bounds(#[trigger] cs[k], n as nat) {
            assert(in_bounds(cs[0], n as nat));
            assert forall|k: int| 0 <= k < rest.len() implies in_bounds(#[trigger] rest[k], n as nat) by {
                assert(in_bounds(cs[k + 1], n as nat));
            }
        }
    }
}

/// What validating `c` against `n` declared inputs may yield: success when
/// every reachable reference is in range, otherwise an error naming a
/// reachable reference that is out of range.
pub open spec fn bounds_outcome(c: Component, n: usize, r: Result<(), Error>) -> bool {
    match r {
        Ok(_) => in_bounds(c, n as nat),
        Err(e) => e matches Error::InputOutOfBounds { index, input_count } && input_count == n
            && index >= n && uses_input(c, index),
    }
}

impl Component {
    pub(crate) fn check_bounds(&self, input_count: usize) -> (r: Result<(), Error>)
        ensures
            bounds_outcome(*self, input_count, r),
            r == bounds_check(*self, input_count),
        decreases self,
    {
        match self {
            Component::Input { index } => {
                if *index >= input_count {
                    return Err(Error::InputOutOfBounds { index: *index, input_count });
                }
                Ok(())
            },
            Component::Not(not) => not.check_bounds(input_count),
            Component::Or(or) => or.check_bounds(input_count),
            Component::And(and) => and.check_bounds(input_count),
            Component::Xor(xor) => xor.check_bounds(input_count),
        }
    }

    pub(crate) fn emulate(&self, inputs: &[bool]) -> (r: bool)
        requires
            in_bounds(*self, inputs@.len()),
        ensures
            r == eval(*self, inputs@),
        decreases self,
    {
        let ghost c = *self;
        proof {
            if !(c is Input) {
                lemma_gate_in_bounds(c, inputs@.len());
            }
        }
        match self {
            Component::Input { index } => {
                assert(uses_input(c, *index));
                inputs[*index]
            },
            Component::Not(not) => {
                assert(operands(c)[0] == *not.input);
                not.emulate(inputs)
            },
            Component::Or(or) => {
                assert(operands(c) == or.inputs@);
                or.emulate(inputs)
            },
            Component::And(and) => {
                assert(operands(c) == and.inputs@);
                and.emulate(inputs)
            },
            Component::Xor(xor) => {
                assert(operands(c) == xor.inputs@);
                xor.emulate(inputs)
            },
        }
    }
}

impl NotGate {
    fn check_bounds(&self, input_count: usize) -> (r: Result<(), Error>)
        ensures
            bounds_outcome(Component::Not(*self), input_count, r),
            r == bounds_check(Component::Not(*self), input_count),
        decreases self,
    {
        let r = self.input.check_bounds(input_count);
        proof {
            let c = Component::Not(*self);
            assert(operands(c)[0] == *self.input);
            lemma_gate_in_bounds(c, input_count as nat);
            if let Err(e) = r {
                assert(uses_input(operands(c)[0], e->index));
            }
        }
        r
    }

    fn emulate(&self, inputs: &[bool]) -> (r: bool)
        requires
            in_bounds(*self.input, inputs@.len()),
        ensures
            r == !eval(*self.input, inputs@),
        decreases self,
    {
        !self.input.emulate(inputs)
    }
}

impl OrGate {
    fn check_bounds(&self, input_count: usize) -> (r: Result<(), Error>)
        ensures
            bounds_outcome(Component::Or(*self), input_count, r),
            r == bounds_check(Component::Or(*self), input_count),
        decreases self,
    {
        let r = check_operands(&self.inputs, input_count);
        proof {
            let c = Component::Or(*self);
            assert(operands(c) == self.inputs@);
            assert(first_stray(c, input_count) == first_stray_any(self.inputs@, input_count));
            lemma_gate_in_bounds(c, input_count as nat);
            if let Err(e) = r {
                let k = choose|k: int|
                    0 <= k < self.inputs.len() && uses_input(#[trigger] self.inputs@[k], e->index);
                assert(uses_input(operands(c)[k], e->index));
            }
        }
        r
    }

    fn emulate(&self, inputs: &[bool]) -> (r: bool)
        requires
            forall|k: int| 0 <= k < self.inputs.len() ==> in_bounds(#[trigger] self.inputs@[k], inputs@.len()),
        ensures
            r == any(outputs(self.inputs@, inputs@)),
        decreases self,
    {
        proof {
            lemma_outputs(self.inputs@, inputs@);
        }
        let mut k: usize = 0;
        while k < self.inputs.len()
            invariant
                k <= self.inputs.len(),
                forall|k: int| 0 <= k < self.inputs.len() ==> in_bounds(#[trigger] self.inputs@[k], inputs@.len()),
                forall|j: int| 0 <= j < k ==> !#[trigger] eval(self.inputs@[j], inputs@),
                outputs(self.inputs@, inputs@).len() == self.inputs.len(),
                forall|j: int| 0 <= j < self.inputs.len() ==> #[trigger] outputs(self.inputs@, inputs@)[j] == eval(self.inputs@[j], inputs@),
            decreases self.inputs.len() - k,
        {
            if self.inputs[k].emulate(inputs) {
                assert(outputs(self.inputs@, inputs@)[k as int]);
                return true;
            }
            k = k + 1;
        }
        false
    }
}

impl AndGate {
    fn check_bounds(&self, input_count: usize) -> (r: Result<(), Error>)
        ensures
            bounds_outcome(Component::And(*self), input_count, r),
            r == bounds_check(Component::And(*self), input_count),
        decreases self,
    {
        let r = check_operands(&self.inputs, input_count);
        proof {
            let c = Component::And(*self);
            assert(operands(c) == self.inputs@);
            assert(first_stray(c, input_count) == first_stray_any(self.inputs@, input_count));
            lemma_gate_in_bounds(c, input_count as nat);
            if let Err(e) = r {
                let k = choose|k: int|
                    0 <= k < self.inputs.len() && uses_input(#[trigger] self.inputs@[k], e->index);
                assert(uses_input(operands(c)[k], e->index));
            }
        }
        r
    }

    fn emulate(&self, inputs: &[bool]) -> (r: bool)
        requires
            forall|k: int| 0 <= k < self.inputs.len() ==> in_bounds(#[trigger] self.inputs@[k], inputs@.len()),
        ensures
            r == all(outputs(self.inputs@, inputs@)),
        decreases self,
    {
        proof {
            lemma_outputs(self.inputs@, inputs@);
        }
        let mut k: usize = 0;
        while k < self.inputs.len()
            invariant
                k <= self.inputs.len(),
                forall|k: int| 0 <= k < self.inputs.len() ==> in_bounds(#[trigger] self.inputs@[k], inputs@.len()),
                forall|j: int| 0 <= j < k ==> #[trigger] eval(self.inputs@[j], inputs@),
                outputs(self.inputs@, inputs@).len() == self.inputs.len(),
                forall|j: int| 0 <= j < self.inputs.len() ==> #[trigger] outputs(self.inputs@, inputs@)[j] == eval(self.inputs@[j], inputs@),
            decreases self.inputs.len() - k,
        {
            if !self.inputs[k].emulate(inputs) {
                assert(!outputs(self.inputs@, inputs@)[k as int]);
                return false;
            }
            k = k + 1;
        }
        true
    }
}

impl XorGate {
    fn check_bounds(&self, input_count: usize) -> (r: Result<(), Error>)
        ensures
            bounds_outcome(Component::Xor(*self), input_count, r),
            r == bounds_check(Component::Xor(*self), input_count),
        decreases self,
    {
        let r = check_operands(&self.inputs, input_count);
        proof {
            let c = Component::Xor(*self);
            assert(operands(c) == self.inputs@);
            assert(first_stray(c, input_count) == first_stray_any(self.inputs@, input_count));
            lemma_gate_in_bounds(c, input_count as nat);
            if let Err(e) = r {
                let k = choose|k: int|
                    0 <= k < self.inputs.len() && uses_input(#[trigger] self.inputs@[k], e->index);
                assert(uses_input(operands(c)[k], e->index));
            }
        }
        r
    }

    fn emulate(&self, inputs: &[bool]) -> (r: bool)
        requires
            forall|k: int| 0 <= k < self.inputs.len() ==> in_bounds(#[trigger] self.inputs@[k], inputs@.len()),
        ensures
            r == one_hot(outputs(self.inputs@, inputs@)),
        decreases self,
    {
        proof {
            lemma_outputs(self.inputs@, inputs@);
        }
        let ghost outs = outputs(self.inputs@, inputs@);
        let mut check = false;
        let mut k: usize = 0;
        while k < self.inputs.len()
            invariant
                k <= self.inputs.len(),
                outs == outputs(self.inputs@, inputs@),
                outs.len() == self.inputs.len(),
                forall|j: int| 0 <= j < self.inputs.len() ==> in_bounds(#[trigger] self.inputs@[j], inputs@.len()),
                forall|j: int| 0 <= j < self.inputs.len() ==> #[trigger] outs[j] == eval(self.inputs@[j], inputs@),
                check == any(outs.take(k as int)),
                check ==> one_hot(outs.take(k as int)),
            decreases self.inputs.len() - k,
        {
            let result = self.inputs[k].emulate(inputs);
            proof {
                assert(outs.take(k + 1) == outs.take(k as int).push(result));
            }
            if result && check {
                proof {
                    let t = outs.take(k as int);
                    let i = choose|i: int| 0 <= i < t.len() && #[trigger] t[i];
                    assert(outs[i] && outs[k as int]);
                    assert forall|m: int| 0 <= m < outs.len() && #[trigger] outs[m] implies
                        exists|j: int| 0 <= j < outs.len() && j != m && #[trigger] outs[j] by {
                        if m == i {
                            assert(outs[k as int]);
                        } else {
                            assert(outs[i]);
                        }
                    }
                }
                return false;
            }
            if result {
                check = true;
                proof {
                    let t = outs.take(k + 1);
                    assert(t[k as int]);
                }
            }
            k = k + 1;
        }
        proof {
            assert(outs.take(k as int) == outs);
        }
        check
    }
}

/// Validates each operand in order, stopping at the first failure.
fn check_operands(ops: &Vec<Component>, input_count: usize) -> (r: Result<(), Error>)
    ensures
        r is Ok ==> forall|k: int| 0 <= k < ops.len() ==> in_bounds(#[trigger] ops@[k], input_count as nat),
        r matches Err(e) ==> e matches Error::InputOutOfBounds { index, input_count: m } && m
            == input_count && index >= input_count && exists|k: int|
            0 <= k < ops.len() && uses_input(#[trigger] ops@[k], index),
        r is Ok <==> first_stray_any(ops@, input_count) is None,
        r is Ok ==> r == Ok::<(), Error>(()),
        r matches Err(e) ==> e == (Error::InputOutOfBounds {
            index: first_stray_any(ops@, input_count)->Some_0,
            input_count,
        }),
    decreases ops,
{
    let mut k: usize = 0;
    assert(ops@.subrange(0, ops@.len() as int) =~= ops@);
    while k < ops.len()
        invariant
            k <= ops.len(),
            forall|j: int| 0 <= j < k ==> in_bounds(#[trigger] ops@[j], input_count as nat),
            first_stray_any(ops@, input_count) == first_stray_any(
                ops@.subrange(k as int, ops@.len() as int),
                input_count,
            ),
        decreases ops.len() - k,
    {
        let ghost rest = ops@.subrange(k as int, ops@.len() as int);
        assert(rest[0] == ops@[k as int]);
        let r = ops[k].check_bounds(input_count);
        if let Err(e) = r {
            proof {
                assert(uses_input(ops@[k as int], e->index));
            }
            return Err(e);
        }
        assert(rest.drop_first() =~= ops@.subrange(k + 1, ops@.len() as int));
        k = k + 1;
    }
    Ok(())
}

/// An input reference to slot `index`; the index is checked only when the
/// circuit is built.
pub fn input(index: usize) -> (r: Component)
    ensures
        r == (Component::Input { index }),
{
    Component::Input { index }
}

/// A NOT gate over `component`.
pub fn not(component: Component) -> (r: Component)
    ensures
        r is Not,
        operands(r) == seq![component],
{
    Component::Not(NotGate { input: Box::new(component) })
}

/// An OR gate over `components`, in order; it needs at least two.
pub fn or(components: Vec<Component>) -> (r: Component)
    requires
        components.len() >= 2,
    ensures
        r is Or,
        operands(r) == components@,
{
    Component::Or(OrGate { inputs: components })
}

/// An AND gate over `components`, in order; it needs at least two.
pub fn and(components: Vec<Component>) -> (r: Component)
    requires
        components.len() >= 2,
    ensures
        r is And,
        operands(r) == components@,
{
    Component::And(AndGate { inputs: components })
}

/// A one-hot XOR gate over `components`, in order; it needs at least two.
pub fn xor(components: Vec<Component>) -> (r: Component)
    requires
        components.len() >= 2,
    ensures
        r is Xor,
        operands(r) == components@,
{
    Component::Xor(XorGate { inputs: components })
}

/// A NOT gate evaluates to the negation of its operand, under every assignment.
pub proof fn lemma_not_negates(c: Component, x: Component, a: Seq<bool>)
    requires
        c is Not,
        operands(c) == seq![x],
    ensures
        eval(c, a) == !eval(x, a),
{
    assert(operands(c)[0] == x);
}

/// An OR gate is true when some operand is, an AND gate when every operand
/// is, and a XOR gate when exactly one operand is.
pub proof fn lemma_gate_semantics(c: Component, a: Seq<bool>)
    requires
        c is Or || c is And || c is Xor,
    ensures
        c is Or ==> (eval(c, a) <==> exists|k: int|
            0 <= k < operands(c).len() && #[trigger] eval(operands(c)[k], a)),
        c is And ==> (eval(c, a) <==> forall|k: int|
            0 <= k < operands(c).len() ==> #[trigger] eval(operands(c)[k], a)),
        c is Xor ==> (eval(c, a) <==> exists|k: int|
            0 <= k < operands(c).len() && #[trigger] eval(operands(c)[k], a) && forall|j: int|
                0 <= j < operands(c).len() && j != k ==> !#[trigger] eval(operands(c)[j], a)),
{
    let ops = operands(c);
    lemma_outputs(ops, a);
    let outs = outputs(ops, a);
    if c is Or && eval(c, a) {
        let k = choose|k: int| 0 <= k < outs.len() && #[trigger] outs[k];
        assert(eval(ops[k], a));
    }
    if c is Or && exists|k: int| 0 <= k < ops.len() && #[trigger] eval(ops[k], a) {
        let k = choose|k: int| 0 <= k < ops.len() && #[trigger] eval(ops[k], a);
        assert(outs[k]);
    }
    if c is And && eval(c, a) {
        assert forall|k: int| 0 <= k < ops.len() implies #[trigger] eval(ops[k], a) by {
            assert(outs[k]);
        }
    }
    if c is And && !eval(c, a) {
        let k = choose|k: int| 0 <= k < outs.len() && !#[trigger] outs[k];
        assert(!eval(ops[k], a));
    }
    if c is Xor && eval(c, a) {
        let k = choose|k: int|
            0 <= k < outs.len() && #[trigger] outs[k] && forall|j: int|
                0 <= j < outs.len() && j != k ==> !#[trigger] outs[j];
        assert(eval(ops[k], a));
        assert forall|j: int| 0 <= j < ops.len() && j != k implies !#[trigger] eval(ops[j], a) by {
            assert(!outs[j]);
        }
    }
    if c is Xor && exists|k: int|
        0 <= k < ops.len() && #[trigger] eval(ops[k], a) && forall|j: int|
            0 <= j < ops.len() && j != k ==> !#[trigger] eval(ops[j], a) {
        let k = choose|k: int|
            0 <= k < ops.len() && #[trigger] eval(ops[k], a) && forall|j: int|
                0 <= j < ops.len() && j != k ==> !#[trigger] eval(ops[j], a);
        assert(outs[k]);
        assert forall|j: int| 0 <= j < outs.len() && j != k implies !#[trigger] outs[j] by {
            assert(!eval(ops[j], a));
        }
    }
}

/// The three ways of combining a pair of values.
proof fn lemma_pair(s: Seq<bool>)
    requires
        s.len() == 2,
    ensures
        any(s) == (s[0] || s[1]),
        all(s) == (s[0] && s[1]),
        one_hot(s) == (s[0] != s[1]),
{
    if s[0] != s[1] {
        let k: int = if s[0] { 0 } else { 1 };
        assert(s[k]);
    }
    if one_hot(s) {
        let k = choose|k: int|
            0 <= k < s.len() && #[trigger] s[k] && forall|j: int|
                0 <= j < s.len() && j != k ==> !#[trigger] s[j];
        assert(!s[1 - k]);
    }
    if s[0] && s[1] {
        assert(forall|k: int| 0 <= k < s.len() ==> #[trigger] s[k]);
    }
}

/// Exactly one of three values is true.
proof fn lemma_triple(s: Seq<bool>)
    requires
        s.len() == 3,
    ensures
        one_hot(s) == ((s[0] && !s[1] && !s[2]) || (!s[0] && s[1] && !s[2]) || (!s[0] && !s[1]
            && s[2])),
{
    if (s[0] && !s[1] && !s[2]) || (!s[0] && s[1] && !s[2]) || (!s[0] && !s[1] && s[2]) {
        let k: int = if s[0] { 0 } else if s[1] { 1 } else { 2 };
        assert(s[k]);
    }
    if one_hot(s) {
        let k = choose|k: int|
            0 <= k < s.len() && #[trigger] s[k] && forall|j: int|
                0 <= j < s.len() && j != k ==> !#[trigger] s[j];
        assert(!s[(k + 1) % 3] && !s[(k + 2) % 3]);
    }
}

/// With two operands: AND is true iff both are, OR iff at least one is,
/// XOR iff exactly one is.
pub proof fn lemma_two_operand_gates(c: Component, x: Component, y: Component, a: Seq<bool>)
    requires
        operands(c) == seq![x, y],
        c is Or || c is And || c is Xor,
    ensures
        c is And ==> (eval(c, a) == (eval(x, a) && eval(y, a))),
        c is Or ==> (eval(c, a) == (eval(x, a) || eval(y, a))),
        c is Xor ==> (eval(c, a) == (eval(x, a) != eval(y, a))),
{
    let ops = operands(c);
    lemma_outputs(ops, a);
    let outs = outputs(ops, a);
    assert(ops[0] == x && ops[1] == y);
    assert(outs[0] == eval(x, a) && outs[1] == eval(y, a));
    lemma_pair(outs);
}

/// With three operands, XOR is true iff exactly one of them is: two or three
/// true operands make it false.
pub proof fn lemma_three_operand_xor(
    c: Component,
    x: Component,
    y: Component,
    z: Component,
    a: Seq<bool>,
)
    requires
        c is Xor,
        operands(c) == seq![x, y, z],
    ensures
        eval(c, a) == ((eval(x, a) && !eval(y, a) && !eval(z, a)) || (!eval(x, a) && eval(y, a)
            && !eval(z, a)) || (!eval(x, a) && !eval(y, a) && eval(z, a))),
{
    let ops = operands(c);
    lemma_outputs(ops, a);
    let outs = outputs(ops, a);
    assert(ops[0] == x && ops[1] == y && ops[2] == z);
    assert(outs[0] == eval(x, a) && outs[1] == eval(y, a) && outs[2] == eval(z, a));
    lemma_triple(outs);
}

} // verus!
