use vstd::arithmetic::power2::pow2;
use vstd::bits::{lemma_usize_pow2_no_overflow, lemma_usize_shl_is_mul, lemma_usize_shr_is_div};
use vstd::prelude::*;

use crate::component::{bounds_check, eval, in_bounds, uses_input, Component, Error};

verus! {

/// Bit `b` of `i`, counting from the least significant bit.
pub open spec fn bit(i: nat, b: nat) -> bool {
    (i / pow2(b)) % 2 == 1
}

/// The assignment of row `i` of an `n`-input truth table: input `k` takes
/// bit `n - 1 - k` of `i`, so the most significant bit feeds input 0.
pub open spec fn row_inputs(n: nat, i: nat) -> Seq<bool> {
    Seq::new(n, |k: int| bit(i, (n - 1 - k) as nat))
}

/// A validated circuit: a root node together with its declared input count.
pub struct Emulator {
    input_count: usize,
    component: Component,
}

impl Emulator {
    #[verifier::type_invariant]
    spec fn valid(&self) -> bool {
        in_bounds(self.component, self.input_count as nat)
    }

    /// The declared number of inputs.
    pub closed spec fn width(&self) -> nat {
        self.input_count as nat
    }

    /// The root node.
    pub closed spec fn circuit(&self) -> Component {
        self.component
    }

    /// What evaluating under the assignment `a` yields.
    pub open spec fn emulation(&self, a: Seq<bool>) -> Result<bool, Error> {
        if a.len() != self.width() {
            Err(Error::InvalidInputCount { supplied: a.len() as usize, expected: self.width() as usize })
        } else {
            Ok(eval(self.circuit(), a))
        }
    }

    /// The declared number of inputs.
    pub fn input_count(&self) -> (r: usize)
        ensures
            r == self.width(),
    {
        self.input_count
    }

    /// Validates `component` against `input_count` inputs and wraps it.
    pub fn new(input_count: usize, component: Component) -> (r: Result<Emulator, Error>)
        ensures
            r is Ok <==> in_bounds(component, input_count as nat),
            r matches Ok(e) ==> e.width() == input_count && e.circuit() == component,
            r matches Err(e) ==> e matches Error::InputOutOfBounds { index, input_count: m } && m
                == input_count && index >= input_count && uses_input(component, index),
            r matches Err(e) ==> Err::<(), Error>(e) == bounds_check(component, input_count),
    {
        match component.check_bounds(input_count) {
            Ok(()) => Ok(Emulator { input_count, component }),
            Err(e) => Err(e),
        }
    }

    /// Evaluates the circuit under `inputs`, which must hold one value per input.
    pub fn emulate(&self, inputs: &[bool]) -> (r: Result<bool, Error>)
        ensures
            r == self.emulation(inputs@),
    {
        proof {
            use_type_invariant(self);
        }
        if self.input_count != inputs.len() {
            return Err(Error::InvalidInputCount { supplied: inputs.len(), expected: self.input_count });
        }
        Ok(self.component.emulate(inputs))
    }

    /// Evaluates the circuit under every assignment, in counting order.
    pub fn emulate_all(&self) -> (r: Result<EmulationResult, Error>)
        requires
            self.width() < usize::BITS,
        ensures
            r matches Ok(t) && t.width() == self.width() && t.outputs() == Seq::new(
                pow2(self.width()),
                |i: int| eval(self.circuit(), row_inputs(self.width(), i as nat)),
            ),
    {
        let n = self.input_count;
        proof {
            lemma_usize_pow2_no_overflow(n as nat);
            lemma_usize_shl_is_mul(1, n);
        }
        let count: usize = 1usize << n;
        let mut states: Vec<bool> = Vec::with_capacity(count);
        let mut inputs: Vec<bool> = vec![false; n];
        let mut i: usize = 0;
        while i < count
            invariant
                n == self.width(),
                n < usize::BITS,
                count == pow2(n as nat),
                i <= count,
                inputs.len() == n,
                states.len() == i,
                forall|j: int|
                    0 <= j < i ==> #[trigger] states@[j] == eval(self.circuit(), row_inputs(n as nat, j as nat)),
            decreases count - i,
        {
            let mut b: usize = 0;
            while b < n
                invariant
                    n < usize::BITS,
                    b <= n,
                    inputs.len() == n,
                    forall|t: int| 0 <= t < b ==> #[trigger] inputs@[n - 1 - t] == bit(i as nat, t as nat),
                decreases n - b,
            {
                let v = bit_of(i, b);
                inputs.set(n - b - 1, v);
                b = b + 1;
            }
            assert(inputs@ =~= row_inputs(n as nat, i as nat)) by {
                assert forall|k: int| 0 <= k < n implies #[trigger] inputs@[k] == row_inputs(n as nat, i as nat)[k] by {
                    assert(inputs@[n - 1 - (n - 1 - k)] == bit(i as nat, (n - 1 - k) as nat));
                }
            }
            let state = match self.emulate(inputs.as_slice()) {
                Ok(s) => s,
                Err(e) => return Err(e),
            };
            states.push(state);
            i = i + 1;
        }
        let r = EmulationResult { input_count: n, states };
        assert(r.states@ =~= Seq::new(
            pow2(n as nat),
            |i: int| eval(self.circuit(), row_inputs(n as nat, i as nat)),
        ));
        Ok(r)
    }
}

/// Bit `b` of `i`.
fn bit_of(i: usize, b: usize) -> (r: bool)
    requires
        b < usize::BITS,
    ensures
        r == bit(i as nat, b as nat),
{
    proof {
        lemma_usize_shr_is_div(i, b);
    }
    let x = i >> b;
    assert(x & 1 == x % 2) by (bit_vector);
    x & 1 == 1
}

/// A truth table: one output per assignment, in counting order.
pub struct EmulationResult {
    input_count: usize,
    states: Vec<bool>,
}

impl EmulationResult {
    #[verifier::type_invariant]
    spec fn complete(&self) -> bool {
        &&& self.input_count < usize::BITS
        &&& self.states.len() == pow2(self.input_count as nat)
    }

    /// The number of inputs of the circuit the table was made from.
    pub closed spec fn width(&self) -> nat {
        self.input_count as nat
    }

    /// The outputs, row by row.
    pub closed spec fn outputs(&self) -> Seq<bool> {
        self.states@
    }
}

impl EmulationResult {
    /// The number of inputs of the circuit the table was made from.
    pub fn input_count(&self) -> (r: usize)
        ensures
            r == self.width(),
    {
        self.input_count
    }

    /// The outputs, row by row.
    pub fn states(&self) -> (r: &[bool])
        ensures
            r@ == self.outputs(),
    {
        self.states.as_slice()
    }

    /// The table as text: a header of input labels and the output label,
    /// then one line per row with each input bit and the output bit.
    pub fn render(&self) -> (r: String)
        ensures
            r@ == table_text(self.width(), self.outputs()),
    {
        proof {
            use_type_invariant(self);
        }
        let n = self.input_count;
        let mut s = String::new();
        let mut i: usize = 0;
        while i < n
            invariant
                i <= n,
                s@ == labels(i as nat),
            decreases n - i,
        {
            let ghost before = s@;
            proof {
                reveal_strlit("I");
                reveal_strlit("  ");
                reveal_strlit(" ");
            }
            s.append("I");
            push_decimal(&mut s, i);
            if i < 10 {
                s.append("  ");
            } else {
                s.append(" ");
            }
            assert(s@ =~= before + column_label(i as nat));
            i = i + 1;
        }
        proof {
            reveal_strlit("O1\n");
        }
        s.append("O1\n");
        let ghost head = s@;
        let mut k: usize = 0;
        while k < self.states.len()
            invariant
                n == self.width(),
                n < usize::BITS,
                k <= self.states.len(),
                self.states@ == self.outputs(),
                s@ == head + rows_text(n as nat, self.states@.take(k as int)),
            decreases self.states.len() - k,
        {
            let ghost before = s@;
            let mut m: usize = n;
            while m > 0
                invariant
                    m <= n,
                    n < usize::BITS,
                    s@ + cells(k as nat, m as nat) == before + cells(k as nat, n as nat),
                decreases m,
            {
                let ghost prev = s@;
                let v = bit_of(k, m - 1);
                proof {
                    reveal_strlit("1   ");
                    reveal_strlit("0   ");
                }
                if v {
                    s.append("1   ");
                } else {
                    s.append("0   ");
                }
                assert(s@ + cells(k as nat, (m - 1) as nat) =~= prev + cells(k as nat, m as nat));
                m = m - 1;
            }
            proof {
                reveal_strlit("1\n");
                reveal_strlit("0\n");
            }
            if self.states[k] {
                s.append("1\n");
            } else {
                s.append("0\n");
            }
            proof {
                let outs = self.states@.take(k + 1);
                assert(outs.drop_last() =~= self.states@.take(k as int));
                assert(s@ =~= head + rows_text(n as nat, outs));
            }
            k = k + 1;
        }
        assert(self.states@.take(k as int) =~= self.states@);
        s
    }
}

/// The decimal digit `d`.
pub open spec fn digit_char(d: nat) -> char {
    seq!['0', '1', '2', '3', '4', '5', '6', '7', '8', '9'][d as int]
}

/// The decimal numeral of `n`, without leading zeros.
pub open spec fn decimal(n: nat) -> Seq<char>
    decreases n,
{
    if n < 10 {
        seq![digit_char(n)]
    } else {
        decimal(n / 10).push(digit_char(n % 10))
    }
}

/// The header label of input `i`: `I`, its number left-aligned in two
/// columns, and a space.
pub open spec fn column_label(i: nat) -> Seq<char> {
    seq!['I'] + decimal(i) + if i < 10 {
        seq![' ', ' ']
    } else {
        seq![' ']
    }
}

/// The labels of the first `n` inputs.
pub open spec fn labels(n: nat) -> Seq<char>
    decreases n,
{
    if n == 0 {
        Seq::empty()
    } else {
        labels((n - 1) as nat) + column_label((n - 1) as nat)
    }
}

/// The cells of bits `m - 1` down to 0 of row `i`, each followed by three spaces.
pub open spec fn cells(i: nat, m: nat) -> Seq<char>
    decreases m,
{
    if m == 0 {
        Seq::empty()
    } else {
        seq![if bit(i, (m - 1) as nat) { '1' } else { '0' }, ' ', ' ', ' '] + cells(i, (m - 1) as nat)
    }
}

/// The line of row `i` of an `n`-input table whose output is `out`.
pub open spec fn row_text(n: nat, i: nat, out: bool) -> Seq<char> {
    cells(i, n) + seq![if out { '1' } else { '0' }, '\n']
}

/// The lines of the rows whose outputs are `outs`.
pub open spec fn rows_text(n: nat, outs: Seq<bool>) -> Seq<char>
    decreases outs.len(),
{
    if outs.len() == 0 {
        Seq::empty()
    } else {
        rows_text(n, outs.drop_last()) + row_text(n, (outs.len() - 1) as nat, outs.last())
    }
}

/// The whole text of an `n`-input table whose outputs are `outs`.
pub open spec fn table_text(n: nat, outs: Seq<bool>) -> Seq<char> {
    labels(n) + seq!['O', '1', '\n'] + rows_text(n, outs)
}

/// The one-character text of the decimal digit `d`.
fn digit_str(d: usize) -> (r: &'static str)
    requires
        d < 10,
    ensures
        r@ == seq![digit_char(d as nat)],
{
    if d == 0 {
        proof {
            reveal_strlit("0");
        }
        "0"
    } else if d == 1 {
        proof {
            reveal_strlit("1");
        }
        "1"
    } else if d == 2 {
        proof {
            reveal_strlit("2");
        }
        "2"
    } else if d == 3 {
        proof {
            reveal_strlit("3");
        }
        "3"
    } else if d == 4 {
        proof {
            reveal_strlit("4");
        }
        "4"
    } else if d == 5 {
        proof {
            reveal_strlit("5");
        }
        "5"
    } else if d == 6 {
        proof {
            reveal_strlit("6");
        }
        "6"
    } else if d == 7 {
        proof {
            reveal_strlit("7");
        }
        "7"
    } else if d == 8 {
        proof {
            reveal_strlit("8");
        }
        "8"
    } else {
        proof {
            reveal_strlit("9");
        }
        "9"
    }
}

/// Appends the decimal numeral of `n` to `s`.
fn push_decimal(s: &mut String, n: usize)
    ensures
        final(s)@ == old(s)@ + decimal(n as nat),
    decreases n,
{
    let ghost start = s@;
    if n >= 10 {
        push_decimal(s, n / 10);
    }
    s.append(digit_str(n % 10));
    assert(s@ =~= start + decimal(n as nat));
}

/// Evaluation depends on the circuit and the assignment alone: two calls with
/// the same assignment give the same result, and with one value per input
/// that result is the circuit's value.
pub proof fn lemma_emulation_repeatable(e: Emulator, a: Seq<bool>, b: Seq<bool>)
    requires
        a == b,
    ensures
        e.emulation(a) == e.emulation(b),
        a.len() == e.width() ==> e.emulation(a) == Ok::<bool, Error>(eval(e.circuit(), a)),
{
}

/// A table of `2^n` rows as `emulate_all` makes it: row `i`'s assignment gives
/// input `n - 1 - b` bit `b` of `i`, and its output is what evaluating the
/// circuit under that assignment yields.
pub proof fn lemma_table_rows(e: Emulator, t: EmulationResult, i: nat)
    requires
        t.width() == e.width(),
        t.outputs() == Seq::new(
            pow2(e.width()),
            |j: int| eval(e.circuit(), row_inputs(e.width(), j as nat)),
        ),
        i < pow2(e.width()),
    ensures
        t.outputs().len() == pow2(e.width()),
        row_inputs(e.width(), i).len() == e.width(),
        forall|b: nat| b < e.width() ==> #[trigger] row_inputs(e.width(), i)[e.width() - 1 - b] == bit(i, b),
        e.emulation(row_inputs(e.width(), i)) == Ok::<bool, Error>(t.outputs()[i as int]),
{
    let n = e.width();
    assert forall|b: nat| b < n implies #[trigger] row_inputs(n, i)[n - 1 - b] == bit(i, b) by {
        assert((n - 1 - (n - 1 - b)) as nat == b);
    }
}

} // verus!
