use vstd::prelude::*;

use crate::rational::{ratio_text, Rational};
use crate::tiles::{MathOperation, Tile};

verus! {

/// Why an equation on the board is not valid.
#[derive(Clone, Copy, PartialEq, Eq, Debug, Structural)]
pub enum InvalidEquation {
    OperatorsWithoutEqualsSign,
    MoreThanOneEqualsSign,
    LeadingZero,
    ParsingError,
    DivByZero,
    SidesNotEqual(Rational, Rational),
}

/// A value computed so far together with the operator that waits for its
/// right-hand operand.
pub type Pending = Option<((i64, i64), MathOperation)>;

/// The state of reading an expression from left to right, the way a
/// calculator with operator precedence does.
pub enum EvalState {
    /// Reading stopped with an error.
    Failed(InvalidEquation),
    /// Going on would panic: a number no longer fits in `i64`, the equals
    /// sign was met, or `num` would panic dividing.
    Panicked,
    /// Still reading. `sum` is the value of the completed terms with the
    /// `+` or `-` that follows them, `term` is the value of the completed
    /// factors of the current term with the `*` or `/` that follows them, and
    /// `number` is the number being read, if a digit has been read since the
    /// last operator.
    Reading { sum: Pending, term: Pending, number: Option<int> },
}

/// The outcome of evaluating an expression.
pub enum EvalOutcome {
    Value((i64, i64)),
    Error(InvalidEquation),
    Panics,
}

/// Applies the pending operator (if any) to the value it waits for and `v`.
pub open spec fn combine(p: Pending, v: (i64, i64)) -> Option<(i64, i64)> {
    match p {
        None => Some(v),
        Some((a, op)) => op.spec_eval(a, v),
    }
}

/// Whether `combine(p, v)` panics inside `num`.
pub open spec fn combine_panics(p: Pending, v: (i64, i64)) -> bool {
    match p {
        None => false,
        Some((a, op)) => op.eval_panics(a, v),
    }
}

/// The number `n` has been read and is followed by operator `op`: it closes
/// the current factor, and a `+` or `-` also closes the current term.
pub open spec fn close_number(sum: Pending, term: Pending, n: i64, op: MathOperation) -> EvalState {
    let v = (n, 1i64);
    if combine_panics(term, v) {
        EvalState::Panicked
    } else {
        match combine(term, v) {
            None => EvalState::Failed(InvalidEquation::DivByZero),
            Some(f) => if op.is_multiplicative() {
                EvalState::Reading { sum, term: Some((f, op)), number: None }
            } else if combine_panics(sum, f) {
                EvalState::Panicked
            } else {
                match combine(sum, f) {
                    None => EvalState::Failed(InvalidEquation::DivByZero),
                    Some(s) => EvalState::Reading { sum: Some((s, op)), term: None, number: None },
                }
            },
        }
    }
}

/// Reads one more tile.
pub open spec fn eval_step(s: EvalState, t: Tile) -> EvalState {
    match s {
        EvalState::Reading { sum, term, number } => match t {
            Tile::Digit(d) => if number == Some(0int) {
                EvalState::Failed(InvalidEquation::LeadingZero)
            } else {
                let v = 10 * (match number {
                    Some(x) => x,
                    None => 0,
                }) + d.spec_value();
                if v > i64::MAX {
                    EvalState::Panicked
                } else {
                    EvalState::Reading { sum, term, number: Some(v) }
                }
            },
            Tile::Op(op) => match number {
                None => EvalState::Failed(InvalidEquation::ParsingError),
                Some(n) => close_number(sum, term, n as i64, op),
            },
            Tile::EqualsSign => EvalState::Panicked,
        },
        _ => s,
    }
}

/// The state after reading all of `tiles`.
pub open spec fn eval_prefix(tiles: Seq<Tile>) -> EvalState
    decreases tiles.len(),
{
    if tiles.len() == 0 {
        EvalState::Reading { sum: None, term: None, number: None }
    } else {
        eval_step(eval_prefix(tiles.drop_last()), tiles.last())
    }
}

/// The end of the input closes the last number, factor and term.
pub open spec fn finish(s: EvalState) -> EvalOutcome {
    match s {
        EvalState::Failed(e) => EvalOutcome::Error(e),
        EvalState::Panicked => EvalOutcome::Panics,
        EvalState::Reading { sum, term, number } => match number {
            None => EvalOutcome::Error(InvalidEquation::ParsingError),
            Some(n) => {
                let v = (n as i64, 1i64);
                if combine_panics(term, v) {
                    EvalOutcome::Panics
                } else {
                    match combine(term, v) {
                        None => EvalOutcome::Error(InvalidEquation::DivByZero),
                        Some(f) => if combine_panics(sum, f) {
                            EvalOutcome::Panics
                        } else {
                            match combine(sum, f) {
                                None => EvalOutcome::Error(InvalidEquation::DivByZero),
                                Some(s) => EvalOutcome::Value(s),
                            }
                        },
                    }
                }
            },
        },
    }
}

/// The value of an expression of digits and operators: numbers are read in
/// decimal, `*` and `/` bind tighter than `+` and `-`, and operators of equal
/// precedence apply from left to right, each with exact rational arithmetic
/// whose result is kept in lowest terms (`MathOperation::spec_eval`). The
/// first error met from the left is reported: a number with a leading zero,
/// an operator without a number before it or an expression that does not end
/// in a number, and a failed operation as `DivByZero`. An operation fails on
/// a division by zero, and on operands of 2^31 or more where `num`'s checked
/// arithmetic overflows.
pub open spec fn spec_eval_expression(tiles: Seq<Tile>) -> EvalOutcome {
    finish(eval_prefix(tiles))
}

/// Whether `res` is the outcome `o` (which is not a panic).
pub open spec fn outcome_matches(o: EvalOutcome, res: Result<Rational, InvalidEquation>) -> bool {
    match o {
        EvalOutcome::Value(v) => res matches Ok(r) && r@ == v,
        EvalOutcome::Error(e) => res == Err::<Rational, InvalidEquation>(e),
        EvalOutcome::Panics => false,
    }
}

// ---------------------------------------------------------------------------
// The operator stack of the shunting-yard algorithm.
/// What is left after reducing the stacks while the top operator binds at
/// least as tightly as precedence `p`.
pub enum Reduced {
    Stop(Seq<MathOperation>, Seq<(i64, i64)>),
    Fail(InvalidEquation),
    Panic,
}

/// Pops operators while the top one has precedence `<= p`, applying each to
/// the two topmost values.
pub open spec fn reduce_while(ops: Seq<MathOperation>, vals: Seq<(i64, i64)>, p: u8) -> Reduced
    decreases ops.len(),
{
    if ops.len() > 0 && ops.last().spec_precedence() <= p {
        if vals.len() < 2 {
            Reduced::Fail(InvalidEquation::ParsingError)
        } else {
            let a = vals[vals.len() - 2];
            let b = vals.last();
            let o = ops.last();
            if o.eval_panics(a, b) {
                Reduced::Panic
            } else {
                match o.spec_eval(a, b) {
                    None => Reduced::Fail(InvalidEquation::DivByZero),
                    Some(c) => reduce_while(ops.drop_last(), vals.drop_last().drop_last().push(c), p),
                }
            }
        }
    } else {
        Reduced::Stop(ops, vals)
    }
}

/// The operator stack that stands for `sum` and `term`.
pub open spec fn ops_of(sum: Pending, term: Pending) -> Seq<MathOperation> {
    let s = match sum {
        Some((_, a)) => seq![a],
        None => Seq::<MathOperation>::empty(),
    };
    match term {
        Some((_, m)) => s.push(m),
        None => s,
    }
}

/// The value stack that stands for `sum` and `term`.
pub open spec fn vals_of(sum: Pending, term: Pending) -> Seq<(i64, i64)> {
    let s = match sum {
        Some((v, _)) => seq![v],
        None => Seq::<(i64, i64)>::empty(),
    };
    match term {
        Some((v, _)) => s.push(v),
        None => s,
    }
}

/// The shape every reachable reading state has: the pending sum waits for a
/// `+` or `-`, the pending term for a `*` or `/`, and the number being read
/// fits in `i64`.
pub open spec fn well_shaped(s: EvalState) -> bool {
    match s {
        EvalState::Reading { sum, term, number } => {
            &&& (sum matches Some((v, a)) ==> !a.is_multiplicative())
            &&& (term matches Some((v, m)) ==> m.is_multiplicative())
            &&& (number matches Some(n) ==> 0 <= n <= i64::MAX)
        },
        _ => true,
    }
}

/// The views of a stack of fractions.
pub open spec fn view_vals(s: Seq<Rational>) -> Seq<(i64, i64)> {
    s.map_values(|r: Rational| r@)
}

/// Every state reached while reading is well shaped.
pub proof fn lemma_prefix_well_shaped(tiles: Seq<Tile>)
    ensures
        well_shaped(eval_prefix(tiles)),
    decreases tiles.len(),
{
    if tiles.len() > 0 {
        lemma_prefix_well_shaped(tiles.drop_last());
    }
}

/// Once reading has failed or would panic, more input changes nothing.
pub proof fn lemma_stopped_stays(tiles: Seq<Tile>, i: int)
    requires
        0 <= i <= tiles.len(),
        !(eval_prefix(tiles.take(i)) is Reading),
    ensures
        eval_prefix(tiles) == eval_prefix(tiles.take(i)),
    decreases tiles.len() - i,
{
    if i < tiles.len() {
        assert(tiles.take(i + 1).drop_last() =~= tiles.take(i));
        lemma_stopped_stays(tiles, i + 1);
    } else {
        assert(tiles.take(i) =~= tiles);
    }
}

/// Reducing the stacks of a well-shaped state before operator `op` does what
/// `close_number` describes.
proof fn lemma_reduce_before_op(sum: Pending, term: Pending, n: i64, op: MathOperation)
    requires
        sum matches Some((v, a)) ==> !a.is_multiplicative(),
        term matches Some((v, m)) ==> m.is_multiplicative(),
    ensures
        ({
            let r = reduce_while(ops_of(sum, term), vals_of(sum, term).push((n, 1i64)), op.spec_precedence());
            match close_number(sum, term, n, op) {
                EvalState::Panicked => r is Panic,
                EvalState::Failed(e) => r == Reduced::Fail(e),
                EvalState::Reading { sum: s2, term: t2, number } => r == Reduced::Stop(
                    ops_of(s2, t2).drop_last(),
                    vals_of(s2, t2),
                ) && ops_of(s2, t2).last() == op && ops_of(s2, t2).len() > 0,
            }
        }),
{
    let v = (n, 1i64);
    let p = op.spec_precedence();
    let ops = ops_of(sum, term);
    let vals = vals_of(sum, term).push(v);
    reveal_with_fuel(reduce_while, 3);
    match term {
        Some((t, m)) => {
            assert(vals[vals.len() - 2] == t && vals.last() == v && ops.last() == m);
            assert(vals.drop_last().drop_last() =~= vals_of(sum, None));
            assert(ops.drop_last() =~= ops_of(sum, None));
            if !m.eval_panics(t, v) {
                if let Some(f) = m.spec_eval(t, v) {
                    let vals2 = vals_of(sum, None).push(f);
                    match sum {
                        Some((s, a)) => {
                            assert(vals2[vals2.len() - 2] == s && vals2.last() == f);
                            assert(vals2.drop_last().drop_last() =~= Seq::<(i64, i64)>::empty());
                            assert(seq![a].drop_last() =~= Seq::<MathOperation>::empty());
                            if op.is_multiplicative() {
                                assert(ops_of(sum, Some((f, op))).drop_last() =~= seq![a]);
                                assert(vals_of(sum, Some((f, op))) =~= vals2);
                            } else if !a.eval_panics(s, f) {
                                if let Some(c) = a.spec_eval(s, f) {
                                    assert(Seq::<(i64, i64)>::empty().push(c) =~= seq![c]);
                                    assert(ops_of(Some((c, op)), None).drop_last() =~= Seq::<MathOperation>::empty());
                                }
                            }
                        },
                        None => {
                            assert(Seq::<(i64, i64)>::empty().push(f) =~= seq![f]);
                            if op.is_multiplicative() {
                                assert(ops_of(None, Some((f, op))).drop_last() =~= Seq::<MathOperation>::empty());
                            } else {
                                assert(ops_of(Some((f, op)), None).drop_last() =~= Seq::<MathOperation>::empty());
                            }
                        },
                    }
                }
            }
        },
        None => {
            match sum {
                Some((s, a)) => {
                    assert(vals[vals.len() - 2] == s && vals.last() == v && ops.last() == a);
                    assert(vals.drop_last().drop_last() =~= Seq::<(i64, i64)>::empty());
                    assert(ops.drop_last() =~= Seq::<MathOperation>::empty());
                    if op.is_multiplicative() {
                        assert(ops_of(sum, Some((v, op))).drop_last() =~= seq![a]);
                        assert(vals_of(sum, Some((v, op))) =~= vals);
                    } else if !a.eval_panics(s, v) {
                        if let Some(c) = a.spec_eval(s, v) {
                            assert(Seq::<(i64, i64)>::empty().push(c) =~= seq![c]);
                            assert(ops_of(Some((c, op)), None).drop_last() =~= Seq::<MathOperation>::empty());
                        }
                    }
                },
                None => {
                    assert(vals =~= seq![v]);
                    if op.is_multiplicative() {
                        assert(ops_of(None, Some((v, op))).drop_last() =~= Seq::<MathOperation>::empty());
                    } else {
                        assert(ops_of(Some((v, op)), None).drop_last() =~= Seq::<MathOperation>::empty());
                    }
                },
            }
        },
    }
}

/// Reducing all operators at the end of the input does what `finish` describes.
proof fn lemma_reduce_at_end(sum: Pending, term: Pending, n: i64)
    requires
        sum matches Some((v, a)) ==> !a.is_multiplicative(),
        term matches Some((v, m)) ==> m.is_multiplicative(),
    ensures
        ({
            let r = reduce_while(ops_of(sum, term), vals_of(sum, term).push((n, 1i64)), 255u8);
            match finish(EvalState::Reading { sum, term, number: Some(n as int) }) {
                EvalOutcome::Panics => r is Panic,
                EvalOutcome::Error(e) => r == Reduced::Fail(e),
                EvalOutcome::Value(x) => r == Reduced::Stop(Seq::<MathOperation>::empty(), seq![x]),
            }
        }),
{
    let v = (n, 1i64);
    let ops = ops_of(sum, term);
    let vals = vals_of(sum, term).push(v);
    assert(n as int as i64 == n);
    reveal_with_fuel(reduce_while, 3);
    match term {
        Some((t, m)) => {
            assert(vals[vals.len() - 2] == t && vals.last() == v && ops.last() == m);
            assert(vals.drop_last().drop_last() =~= vals_of(sum, None));
            assert(ops.drop_last() =~= ops_of(sum, None));
            if !m.eval_panics(t, v) {
                if let Some(f) = m.spec_eval(t, v) {
                    let vals2 = vals_of(sum, None).push(f);
                    match sum {
                        Some((s, a)) => {
                            assert(vals2[vals2.len() - 2] == s && vals2.last() == f);
                            assert(vals2.drop_last().drop_last() =~= Seq::<(i64, i64)>::empty());
                            assert(seq![a].drop_last() =~= Seq::<MathOperation>::empty());
                            if !a.eval_panics(s, f) {
                                if let Some(c) = a.spec_eval(s, f) {
                                    assert(Seq::<(i64, i64)>::empty().push(c) =~= seq![c]);
                                }
                            }
                        },
                        None => {
                            assert(Seq::<(i64, i64)>::empty().push(f) =~= seq![f]);
                        },
                    }
                }
            }
        },
        None => {
            match sum {
                Some((s, a)) => {
                    assert(vals[vals.len() - 2] == s && vals.last() == v && ops.last() == a);
                    assert(vals.drop_last().drop_last() =~= Seq::<(i64, i64)>::empty());
                    assert(ops.drop_last() =~= Seq::<MathOperation>::empty());
                    if !a.eval_panics(s, v) {
                        if let Some(c) = a.spec_eval(s, v) {
                            assert(Seq::<(i64, i64)>::empty().push(c) =~= seq![c]);
                        }
                    }
                },
                None => {
                    assert(vals =~= seq![v]);
                },
            }
        },
    }
}

/// The exec state stands for the reading state `st`.
spec fn stacks_stand_for(
    st: EvalState,
    ops: Seq<MathOperation>,
    vals: Seq<Rational>,
    number: Option<i64>,
) -> bool {
    match st {
        EvalState::Reading { sum, term, number: n } => {
            &&& ops == ops_of(sum, term)
            &&& view_vals(vals) == vals_of(sum, term)
            &&& (match number {
                Some(x) => n == Some(x as int),
                None => n is None,
            })
        },
        _ => false,
    }
}

/// Evaluation with the shunting-yard algorithm: numbers go to the output
/// stack; an operator first applies every stacked operator that binds at
/// least as tightly. Returns `None` exactly where evaluating would panic.
fn eval_checked(tiles: &[Tile]) -> (res: Option<Result<Rational, InvalidEquation>>)
    ensures
        match res {
            None => spec_eval_expression(tiles@) is Panics,
            Some(r) => outcome_matches(spec_eval_expression(tiles@), r),
        },
        res matches Some(Ok(r)) ==> r@.1 > 0,
{
    let mut output_stack: Vec<Rational> = Vec::new();
    let mut operator_stack: Vec<MathOperation> = Vec::new();
    let mut curr_number: Option<i64> = None;
    let mut i: usize = 0;
    assert(view_vals(output_stack@) =~= Seq::<(i64, i64)>::empty());
    assert(tiles@.take(0) =~= Seq::<Tile>::empty());
    while i < tiles.len()
        invariant
            i <= tiles@.len(),
            stacks_stand_for(eval_prefix(tiles@.take(i as int)), operator_stack@, output_stack@, curr_number),
            forall|k: int| 0 <= k < output_stack@.len() ==> #[trigger] output_stack@[k]@.1 > 0,
        decreases tiles@.len() - i,
    {
        let ghost st = eval_prefix(tiles@.take(i as int));
        proof {
            assert(tiles@.take(i + 1).drop_last() =~= tiles@.take(i as int));
            assert(tiles@.take(i + 1).last() == tiles@[i as int]);
            lemma_prefix_well_shaped(tiles@.take(i as int));
        }
        let tile = tiles[i];
        match tile {
            Tile::Digit(d) => {
                let r: i64 = match curr_number {
                    Some(x) => x,
                    None => 0,
                };
                if curr_number == Some(0i64) {
                    proof { lemma_stopped_stays(tiles@, i + 1); }
                    return Some(Err(InvalidEquation::LeadingZero));
                }
                let dv = d.value();
                if r > (i64::MAX - dv) / 10 {
                    proof { lemma_stopped_stays(tiles@, i + 1); }
                    return None;
                }
                curr_number = Some(10 * r + dv);
            },
            Tile::Op(op) => {
                let n = match curr_number {
                    None => {
                        proof { lemma_stopped_stays(tiles@, i + 1); }
                        return Some(Err(InvalidEquation::ParsingError));
                    },
                    Some(n) => n,
                };
                let ghost sum = st->sum;
                let ghost term = st->term;
                proof { lemma_reduce_before_op(sum, term, n, op); }
                output_stack.push(Rational::from_integer(n));
                curr_number = None;
                let ghost target = reduce_while(operator_stack@, view_vals(output_stack@), op.spec_precedence());
                assert(view_vals(output_stack@) =~= vals_of(sum, term).push((n, 1i64)));
                loop
                    invariant
                        reduce_while(operator_stack@, view_vals(output_stack@), op.spec_precedence()) == target,
                        target == reduce_while(ops_of(sum, term), vals_of(sum, term).push((n, 1i64)), op.spec_precedence()),
                        output_stack@.len() == operator_stack@.len() + 1,
                        forall|k: int| 0 <= k < output_stack@.len() ==> #[trigger] output_stack@[k]@.1 > 0,
                        i < tiles@.len(),
                        st == eval_prefix(tiles@.take(i as int)),
                        eval_prefix(tiles@.take(i + 1)) == close_number(sum, term, n, op),
                        curr_number is None,
                        well_shaped(st),
                        st is Reading,
                        sum == st->sum,
                        term == st->term,
                    ensures
                        target == Reduced::Stop(operator_stack@, view_vals(output_stack@)),
                        output_stack@.len() == operator_stack@.len() + 1,
                        forall|k: int| 0 <= k < output_stack@.len() ==> #[trigger] output_stack@[k]@.1 > 0,
                    decreases operator_stack@.len(),
                {
                    let len = operator_stack.len();
                    if len == 0 {
                        break;
                    }
                    if operator_stack[len - 1].precedence() > op.precedence() {
                        break;
                    }
                    let ghost ops_before = operator_stack@;
                    let stack_op = operator_stack.pop().unwrap();
                    assert(ops_before.drop_last() =~= operator_stack@);
                    if output_stack.len() < 2 {
                        return Some(Err(InvalidEquation::ParsingError));
                    }
                    let ghost vals = view_vals(output_stack@);
                    let b = output_stack.pop().unwrap();
                    let a = output_stack.pop().unwrap();
                    proof {
                        assert(vals[vals.len() - 2] == a@);
                        assert(vals.last() == b@);
                        assert(output_stack@.len() == vals.len() - 2);
                        assert(view_vals(output_stack@) =~= vals.drop_last().drop_last());
                        assert(ops_before.last() == stack_op);
                        assert(target == reduce_while(ops_before, vals, op.spec_precedence()));
                    }
                    if (match stack_op { MathOperation::Div => true, _ => false })
                        && a.numer() == 0 && b.numer() == i64::MIN && a.denom() != b.denom() {
                        proof {
                            assert(stack_op.eval_panics(a@, b@));
                            assert(reduce_while(ops_before, vals, op.spec_precedence()) is Panic);
                            assert(target is Panic);
                            lemma_reduce_before_op(sum, term, n, op);
                            assert(close_number(sum, term, n, op) is Panicked);
                            lemma_stopped_stays(tiles@, i + 1);
                        }
                        return None;
                    }
                    match stack_op.eval(a, b) {
                        None => {
                            proof {
                                assert(target == Reduced::Fail(InvalidEquation::DivByZero));
                                lemma_reduce_before_op(sum, term, n, op);
                                lemma_stopped_stays(tiles@, i + 1);
                            }
                            return Some(Err(InvalidEquation::DivByZero));
                        },
                        Some(c) => {
                            output_stack.push(c);
                            assert(view_vals(output_stack@) =~= vals.drop_last().drop_last().push(c@));
                        },
                    }
                }
                operator_stack.push(op);
                proof {
                    let st2 = close_number(sum, term, n, op);
                    assert(st2 is Reading);
                    assert(operator_stack@ =~= ops_of(st2->sum, st2->term));
                }
            },
            Tile::EqualsSign => {
                proof { lemma_stopped_stays(tiles@, i + 1); }
                return None;
            },
        }
        i += 1;
    }
    proof {
        assert(tiles@.take(i as int) =~= tiles@);
        lemma_prefix_well_shaped(tiles@);
    }
    let ghost st = eval_prefix(tiles@);
    let n = match curr_number {
        None => {
            return Some(Err(InvalidEquation::ParsingError));
        },
        Some(n) => n,
    };
    let ghost sum = st->sum;
    let ghost term = st->term;
    proof { lemma_reduce_at_end(sum, term, n); }
    output_stack.push(Rational::from_integer(n));
    assert(view_vals(output_stack@) =~= vals_of(sum, term).push((n, 1i64)));
    if output_stack.len() != operator_stack.len() + 1 {
        return Some(Err(InvalidEquation::ParsingError));
    }
    let ghost target = reduce_while(operator_stack@, view_vals(output_stack@), 255u8);
    loop
        invariant
            reduce_while(operator_stack@, view_vals(output_stack@), 255u8) == target,
            target == reduce_while(ops_of(sum, term), vals_of(sum, term).push((n, 1i64)), 255u8),
            output_stack@.len() == operator_stack@.len() + 1,
            forall|k: int| 0 <= k < output_stack@.len() ==> #[trigger] output_stack@[k]@.1 > 0,
            st == eval_prefix(tiles@),
            st == (EvalState::Reading { sum, term, number: Some(n as int) }),
            well_shaped(st),
        ensures
            target == Reduced::Stop(operator_stack@, view_vals(output_stack@)),
            operator_stack@.len() == 0,
            output_stack@.len() == 1,
            output_stack@[0]@.1 > 0,
        decreases operator_stack@.len(),
    {
        let ghost ops_before = operator_stack@;
        let op = match operator_stack.pop() {
            None => break,
            Some(op) => op,
        };
        assert(ops_before.drop_last() =~= operator_stack@);
        let ghost vals = view_vals(output_stack@);
        let b = output_stack.pop().unwrap();
        let a = output_stack.pop().unwrap();
        proof {
            assert(vals[vals.len() - 2] == a@);
            assert(vals.last() == b@);
            assert(view_vals(output_stack@) =~= vals.drop_last().drop_last());
            assert(ops_before.last() == op);
            assert(target == reduce_while(ops_before, vals, 255u8));
        }
        if (match op { MathOperation::Div => true, _ => false })
            && a.numer() == 0 && b.numer() == i64::MIN && a.denom() != b.denom() {
            proof { lemma_reduce_at_end(sum, term, n); }
            return None;
        }
        match op.eval(a, b) {
            None => {
                proof { lemma_reduce_at_end(sum, term, n); }
                return Some(Err(InvalidEquation::DivByZero));
            },
            Some(c) => {
                output_stack.push(c);
                assert(view_vals(output_stack@) =~= vals.drop_last().drop_last().push(c@));
            },
        }
    }
    proof {
        assert(output_stack@.len() == 1);
        assert(view_vals(output_stack@)[0] == output_stack@[0]@);
    }
    Some(Ok(output_stack[0]))
}

/// Evaluates an expression made of digits and operators (the shunting-yard
/// algorithm). The tiles must not contain the equals sign, and no number in
/// them may exceed `i64::MAX`; the function panics on such input, which the
/// precondition leaves out together with the rare fractions on which `num`
/// panics dividing.
pub fn eval_expression(tiles: &[Tile]) -> (res: Result<Rational, InvalidEquation>)
    requires
        !(spec_eval_expression(tiles@) is Panics),
    ensures
        outcome_matches(spec_eval_expression(tiles@), res),
        res matches Ok(r) ==> r@.1 > 0,
{
    match eval_checked(tiles) {
        Some(r) => r,
        None => Err(InvalidEquation::ParsingError),
    }
}

/// Whether evaluating `tiles` would panic.
pub fn expression_panics(tiles: &[Tile]) -> (res: bool)
    ensures
        res == (spec_eval_expression(tiles@) is Panics),
{
    eval_checked(tiles).is_none()
}

/// Evaluates `tiles` where that does not panic; `None` where it would.
pub fn try_eval_expression(tiles: &[Tile]) -> (res: Option<Result<Rational, InvalidEquation>>)
    ensures
        match res {
            None => spec_eval_expression(tiles@) is Panics,
            Some(r) => outcome_matches(spec_eval_expression(tiles@), r),
        },
        res matches Some(Ok(r)) ==> r@.1 > 0,
{
    if expression_panics(tiles) {
        None
    } else {
        Some(eval_expression(tiles))
    }
}

/// The message that explains why an equation is not valid.
pub open spec fn invalid_equation_text(e: InvalidEquation) -> Seq<char> {
    match e {
        InvalidEquation::OperatorsWithoutEqualsSign => "Equations without equals sign are allowed only to have digits."@,
        InvalidEquation::MoreThanOneEqualsSign => "The equation contains more than one equals sign."@,
        InvalidEquation::LeadingZero => "The equation contains a number starting with leading zero."@,
        InvalidEquation::ParsingError => "Could not parse the equation."@,
        InvalidEquation::DivByZero => "Division by zero encountered while evaluating the equation."@,
        InvalidEquation::SidesNotEqual(l, r) => "Left hand side is equal to "@ + ratio_text(l@)
            + " and right hand side is equal to "@ + ratio_text(r@) + "."@,
    }
}

impl InvalidEquation {
    /// The message that explains why the equation is not valid.
    pub fn to_string(&self) -> (res: String)
        ensures
            res@ == invalid_equation_text(*self),
    {
        match self {
            InvalidEquation::OperatorsWithoutEqualsSign => String::from_str(
                "Equations without equals sign are allowed only to have digits.",
            ),
            InvalidEquation::MoreThanOneEqualsSign => String::from_str("The equation contains more than one equals sign."),
            InvalidEquation::LeadingZero => String::from_str("The equation contains a number starting with leading zero."),
            InvalidEquation::ParsingError => String::from_str("Could not parse the equation."),
            InvalidEquation::DivByZero => String::from_str(
                "Division by zero encountered while evaluating the equation.",
            ),
            InvalidEquation::SidesNotEqual(l, r) => {
                let mut s = String::from_str("Left hand side is equal to ");
                let lt = l.to_string();
                s.append(lt.as_str());
                s.append(" and right hand side is equal to ");
                let rt = r.to_string();
                s.append(rt.as_str());
                s.append(".");
                s
            },
        }
    }
}

} // verus!
