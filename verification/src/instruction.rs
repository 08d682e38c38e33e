//! Building instructions from tokens — including the static expansion of
//! the single loop region — and executing them.

use vstd::prelude::*;
use vstd::string::*;
use std::collections::VecDeque;
use crate::error::VmError;
use crate::field::{Field, FieldV, render_value};
use crate::operation::{operation_of, Operation};
use crate::text::{
    contains_sub, dec_i64, has_sub, i64_to_text, join_spaced, join_spaced_exec, parse_i64,
    parsed_i64, split_ws, split_ws_spec, str_eq, strip_quotes, strip_quotes_spec,
};
use crate::token::{Token, TokenV};
use crate::variable::{VarV, Variable};

verus! {

/// One typed instruction: an operation and its operands in source order.
#[derive(Debug)]
pub struct Instruction {
    pub operation: Operation,
    pub operands: VecDeque<Field>,
}

/// The spec-level value of an [`Instruction`].
pub struct InstrV {
    pub operation: Operation,
    pub operands: Seq<FieldV>,
}

impl View for Instruction {
    type V = InstrV;

    open spec fn view(&self) -> InstrV {
        InstrV { operation: self.operation, operands: self.operands.deep_view() }
    }
}

impl DeepView for Instruction {
    type V = InstrV;

    open spec fn deep_view(&self) -> InstrV {
        self.view()
    }
}

/// The operand a word yields: an integer when it parses as one, else the
/// raw word, quote characters preserved.
pub open spec fn classify_word(w: Seq<char>) -> FieldV {
    match parsed_i64(w) {
        Some(v) => FieldV::Integer(v as i64),
        None => FieldV::Text(w),
    }
}

/// The instruction an operation line yields: its first word must be a
/// recognized mnemonic, and the remaining words become the operands in
/// order.
pub open spec fn parse_instr(s: Seq<char>) -> Result<InstrV, VmError> {
    let words = split_ws_spec(s);
    if words.len() == 0 {
        Err(VmError::InvalidMnemonic)
    } else {
        match operation_of(words[0]) {
            None => Err(VmError::InvalidMnemonic),
            Some(op) => Ok(
                InstrV {
                    operation: op,
                    operands: words.drop_first().map_values(|w: Seq<char>| classify_word(w)),
                },
            ),
        }
    }
}

/// The text of the loop-start marker.
pub open spec fn loop_marker() -> Seq<char> {
    seq!['.', 'l', 'o', 'o', 'p']
}

/// The text of the loop-end marker.
pub open spec fn endloop_marker() -> Seq<char> {
    seq!['.', 'e', 'n', 'd', 'l', 'o', 'o', 'p']
}

/// Whether a token is a directive whose text contains the given marker.
pub open spec fn is_marked_directive(t: TokenV, m: Seq<char>) -> bool {
    match t {
        TokenV::Directive(s) => has_sub(s, m),
        _ => false,
    }
}

/// The least index at or after `from` of a directive containing the
/// marker, if any.
pub open spec fn find_marked(toks: Seq<TokenV>, m: Seq<char>, from: int) -> Option<int>
    decreases toks.len() - from,
{
    if from < 0 || from >= toks.len() {
        None
    } else if is_marked_directive(toks[from], m) {
        Some(from)
    } else {
        find_marked(toks, m, from + 1)
    }
}

/// Splits out the single loop region: the tokens strictly between the
/// first directive containing the loop-start marker and the first
/// directive after it containing the loop-end marker become the loop
/// body; both marker directives stay in the main sequence.  A loop-start
/// marker without a loop-end marker after it is rejected.
pub open spec fn split_loop(toks: Seq<TokenV>) -> Result<(Seq<TokenV>, Seq<TokenV>), VmError> {
    match find_marked(toks, loop_marker(), 0) {
        None => Ok((toks, Seq::empty())),
        Some(s) => match find_marked(toks, endloop_marker(), s + 1) {
            None => Err(VmError::MissingLoopEnd),
            Some(e) => Ok(
                (
                    toks.subrange(0, s + 1) + toks.subrange(e, toks.len() as int),
                    toks.subrange(s + 1, e),
                ),
            ),
        },
    }
}

/// The repeat count of a loop directive: the first argument word that
/// parses as a non-negative integer; zero when none does.
pub open spec fn loop_count_spec(ws: Seq<Seq<char>>) -> int
    decreases ws.len(),
{
    if ws.len() == 0 {
        0
    } else {
        match parsed_i64(ws[0]) {
            Some(v) => if v >= 0 {
                v
            } else {
                loop_count_spec(ws.drop_first())
            },
            None => loop_count_spec(ws.drop_first()),
        }
    }
}

/// The texts of the operation tokens of a sequence, in order; the other
/// token kinds in a loop body are dropped, not replayed.
pub open spec fn ops_of(toks: Seq<TokenV>) -> Seq<Seq<char>>
    decreases toks.len(),
{
    if toks.len() == 0 {
        Seq::empty()
    } else {
        ops_of(toks.drop_last()) + (match toks.last() {
            TokenV::Operation(s) => seq![s],
            _ => Seq::empty(),
        })
    }
}

/// The instructions one replay of the loop body's operation texts yields,
/// each text parsed independently.
pub open spec fn replay_once(ops: Seq<Seq<char>>) -> Result<Seq<InstrV>, VmError>
    decreases ops.len(),
{
    if ops.len() == 0 {
        Ok(Seq::empty())
    } else {
        match replay_once(ops.drop_last()) {
            Err(e) => Err(e),
            Ok(is) => match parse_instr(ops.last()) {
                Err(e) => Err(e),
                Ok(iv) => Ok(is.push(iv)),
            },
        }
    }
}

/// The instructions `n` replays of the loop body yield.
pub open spec fn replay_n(ops: Seq<Seq<char>>, n: int) -> Result<Seq<InstrV>, VmError>
    decreases n,
{
    if n <= 0 {
        Ok(Seq::empty())
    } else {
        match replay_n(ops, n - 1) {
            Err(e) => Err(e),
            Ok(prev) => match replay_once(ops) {
                Err(e) => Err(e),
                Ok(one) => Ok(prev + one),
            },
        }
    }
}

/// What one main-pass token contributes to the instruction list and the
/// pending declaration list.  An operation token parses into one
/// instruction; a variable token records its text as a declaration; a
/// directive whose first word is the loop-start marker replays the loop
/// body; every other token is a no-op.
pub open spec fn token_effect(t: TokenV, body: Seq<TokenV>) -> Result<
    (Seq<InstrV>, Seq<Seq<char>>),
    VmError,
> {
    match t {
        TokenV::Operation(s) => match parse_instr(s) {
            Err(e) => Err(e),
            Ok(iv) => Ok((seq![iv], Seq::empty())),
        },
        TokenV::Variable(s) => Ok((Seq::empty(), seq![s])),
        TokenV::Directive(s) => {
            let words = split_ws_spec(s);
            if words.len() > 0 && words[0] == loop_marker() {
                match replay_n(ops_of(body), loop_count_spec(words.drop_first())) {
                    Err(e) => Err(e),
                    Ok(is) => Ok((is, Seq::empty())),
                }
            } else {
                Ok((Seq::empty(), Seq::empty()))
            }
        },
        _ => Ok((Seq::empty(), Seq::empty())),
    }
}

/// The instructions and pending declarations the main token sequence
/// yields, tokens processed in order, the first rejection aborting.
pub open spec fn build_spec(main: Seq<TokenV>, body: Seq<TokenV>) -> Result<
    (Seq<InstrV>, Seq<Seq<char>>),
    VmError,
>
    decreases main.len(),
{
    if main.len() == 0 {
        Ok((Seq::empty(), Seq::empty()))
    } else {
        match build_spec(main.drop_last(), body) {
            Err(e) => Err(e),
            Ok((is0, ds0)) => match token_effect(main.last(), body) {
                Err(e) => Err(e),
                Ok((is1, ds1)) => Ok((is0 + is1, ds0 + ds1)),
            },
        }
    }
}

/// The whole front half of the pipeline on a token sequence: loop region
/// extraction, then the main pass.
pub open spec fn from_tokens_spec(toks: Seq<TokenV>) -> Result<
    (Seq<InstrV>, Seq<Seq<char>>),
    VmError,
> {
    match split_loop(toks) {
        Err(e) => Err(e),
        Ok((main, body)) => build_spec(main, body),
    }
}

proof fn lemma_replay_once_err_prefix(ops: Seq<Seq<char>>, j: int)
    requires
        0 <= j <= ops.len(),
        replay_once(ops.take(j)) is Err,
    ensures
        replay_once(ops) == replay_once(ops.take(j)),
    decreases ops.len(),
{
    if j == ops.len() {
        assert(ops.take(j) =~= ops);
    } else {
        assert(ops.drop_last().take(j) =~= ops.take(j));
        lemma_replay_once_err_prefix(ops.drop_last(), j);
    }
}

proof fn lemma_replay_n_err(ops: Seq<Seq<char>>, n: int)
    requires
        replay_once(ops) is Err,
        n >= 1,
    ensures
        replay_n(ops, n) == replay_once(ops),
    decreases n,
{
    if n > 1 {
        lemma_replay_n_err(ops, n - 1);
    } else {
        assert(replay_n(ops, 0) == Ok::<Seq<InstrV>, VmError>(Seq::empty()));
    }
}

proof fn lemma_ops_of_prefix(toks: Seq<TokenV>, j: int)
    requires
        0 <= j <= toks.len(),
    ensures
        ops_of(toks.take(j)).len() <= ops_of(toks).len(),
        ops_of(toks.take(j)) == ops_of(toks).take(ops_of(toks.take(j)).len() as int),
    decreases toks.len(),
{
    if j == toks.len() {
        assert(toks.take(j) =~= toks);
        assert(ops_of(toks).take(ops_of(toks).len() as int) =~= ops_of(toks));
    } else {
        assert(toks.drop_last().take(j) =~= toks.take(j));
        lemma_ops_of_prefix(toks.drop_last(), j);
        let l = ops_of(toks.take(j)).len() as int;
        assert(ops_of(toks).take(l) =~= ops_of(toks.drop_last()).take(l));
    }
}

/// Division truncating toward zero.
pub open spec fn trunc_div(a: int, b: int) -> int
    recommends
        b != 0,
{
    if a >= 0 && b > 0 {
        a / b
    } else if a < 0 && b < 0 {
        (-a) / (-b)
    } else if a < 0 {
        -((-a) / b)
    } else {
        -(a / (-b))
    }
}

/// The unbounded value of one arithmetic operation on two integers.
pub open spec fn arith_value(op: Operation, a: int, b: int) -> int
    recommends
        op != Operation::Print,
        !(op == Operation::Div && b == 0),
{
    match op {
        Operation::Add => a + b,
        Operation::Sub => a - b,
        Operation::Mul => a * b,
        Operation::Div => trunc_div(a, b),
        Operation::Print => 0,
    }
}

/// The arithmetic result of one operation on two integers: division by
/// zero is rejected, as is a result outside the 64-bit signed range.
pub open spec fn apply_arith(op: Operation, a: int, b: int) -> Result<int, VmError>
    recommends
        op != Operation::Print,
{
    if op == Operation::Div && b == 0 {
        Err(VmError::DivisionByZero)
    } else {
        let v = arith_value(op, a, b);
        if v < i64::MIN || v > i64::MAX {
            Err(VmError::Overflow)
        } else {
            Ok(v)
        }
    }
}

/// The results of an arithmetic instruction whose text operand names a
/// variable: one result per record whose name matches, in record order,
/// the variable's value standing in the text operand's position.  A
/// matching record holding a text value rejects the instruction.
pub open spec fn subst_eval(
    op: Operation,
    vars: Seq<VarV>,
    name: Seq<char>,
    other: i64,
    var_left: bool,
) -> Result<Seq<FieldV>, VmError>
    decreases vars.len(),
{
    if vars.len() == 0 {
        Ok(Seq::empty())
    } else {
        match subst_eval(op, vars.drop_last(), name, other, var_left) {
            Err(e) => Err(e),
            Ok(rs) => {
                let v = vars.last();
                if v.name == name {
                    match v.value {
                        FieldV::Text(_) => Err(VmError::InvalidOperands),
                        FieldV::Integer(a) => match (if var_left {
                            apply_arith(op, a as int, other as int)
                        } else {
                            apply_arith(op, other as int, a as int)
                        }) {
                            Err(e) => Err(e),
                            Ok(val) => Ok(rs.push(FieldV::Integer(val as i64))),
                        },
                    }
                } else {
                    Ok(rs)
                }
            },
        }
    }
}

/// The records whose name matches, in order, duplicates retained.
pub open spec fn matches_of(vars: Seq<VarV>, name: Seq<char>) -> Seq<VarV>
    decreases vars.len(),
{
    if vars.len() == 0 {
        Seq::empty()
    } else {
        matches_of(vars.drop_last(), name) + (if vars.last().name == name {
            seq![vars.last()]
        } else {
            Seq::empty()
        })
    }
}

/// The rendered values of all records whose name matches, in order.
pub open spec fn render_matches(vars: Seq<VarV>, name: Seq<char>) -> Seq<Seq<char>>
    decreases vars.len(),
{
    if vars.len() == 0 {
        Seq::empty()
    } else {
        render_matches(vars.drop_last(), name) + (if vars.last().name == name {
            seq![render_value(vars.last().value)]
        } else {
            Seq::empty()
        })
    }
}

/// The text pieces a print instruction emits for its operands, in order:
/// an integer renders in decimal; a text operand naming at least one
/// variable renders every matching record's value, one piece per record;
/// any other text operand stands for itself with double quotes stripped.
pub open spec fn print_pieces(operands: Seq<FieldV>, vars: Seq<VarV>) -> Seq<Seq<char>>
    decreases operands.len(),
{
    if operands.len() == 0 {
        Seq::empty()
    } else {
        print_pieces(operands.drop_last(), vars) + (match operands.last() {
            FieldV::Integer(i) => seq![dec_i64(i as int)],
            FieldV::Text(t) => if matches_of(vars, t).len() > 0 {
                render_matches(vars, t)
            } else {
                seq![strip_quotes_spec(t)]
            },
        })
    }
}

/// What executing one instruction yields: the results it appends and the
/// text lines it emits.  A print instruction always succeeds, emits one
/// line — its pieces joined by single spaces — and appends no result.
/// An arithmetic instruction needs exactly two operands: two integers
/// yield one result; an integer and a text operand substitute every
/// matching variable record; two text operands are rejected.
pub open spec fn step_spec(op: Operation, operands: Seq<FieldV>, vars: Seq<VarV>) -> Result<
    (Seq<FieldV>, Seq<Seq<char>>),
    VmError,
> {
    if op == Operation::Print {
        Ok((Seq::empty(), seq![join_spaced(print_pieces(operands, vars))]))
    } else if operands.len() != 2 {
        Err(VmError::InvalidOperands)
    } else {
        match (operands[0], operands[1]) {
            (FieldV::Integer(a), FieldV::Integer(b)) => match apply_arith(op, a as int, b as int) {
                Err(e) => Err(e),
                Ok(v) => Ok((seq![FieldV::Integer(v as i64)], Seq::empty())),
            },
            (FieldV::Text(t), FieldV::Integer(b)) => match subst_eval(op, vars, t, b, true) {
                Err(e) => Err(e),
                Ok(rs) => Ok((rs, Seq::empty())),
            },
            (FieldV::Integer(a), FieldV::Text(t)) => match subst_eval(op, vars, t, a, false) {
                Err(e) => Err(e),
                Ok(rs) => Ok((rs, Seq::empty())),
            },
            (FieldV::Text(_), FieldV::Text(_)) => Err(VmError::InvalidOperands),
        }
    }
}

/// Law: an arithmetic instruction on two integer operands yields exactly
/// one result holding the operation's value — the sum, difference,
/// product, or quotient truncated toward zero — whenever that value fits
/// in a 64-bit signed integer, and emits nothing.
pub proof fn lemma_arith_semantics(op: Operation, a: i64, b: i64, vars: Seq<VarV>)
    requires
        op == Operation::Add || op == Operation::Sub || op == Operation::Mul || op
            == Operation::Div,
        !(op == Operation::Div && b == 0),
        i64::MIN <= arith_value(op, a as int, b as int) <= i64::MAX,
    ensures
        step_spec(op, seq![FieldV::Integer(a), FieldV::Integer(b)], vars) == Ok::<
            (Seq<FieldV>, Seq<Seq<char>>),
            VmError,
        >((seq![FieldV::Integer(arith_value(op, a as int, b as int) as i64)], Seq::empty())),
{
    let operands = seq![FieldV::Integer(a), FieldV::Integer(b)];
    assert(operands.len() == 2);
    assert(operands[0] == FieldV::Integer(a));
    assert(operands[1] == FieldV::Integer(b));
}

/// Law: `div` with a zero second operand is always rejected with the
/// division-by-zero error, whatever the first operand and the variables.
pub proof fn lemma_div_by_zero(a: i64, vars: Seq<VarV>)
    ensures
        step_spec(Operation::Div, seq![FieldV::Integer(a), FieldV::Integer(0)], vars) == Err::<
            (Seq<FieldV>, Seq<Seq<char>>),
            VmError,
        >(VmError::DivisionByZero),
{
    let operands = seq![FieldV::Integer(a), FieldV::Integer(0)];
    assert(operands.len() == 2);
    assert(operands[0] == FieldV::Integer(a));
    assert(operands[1] == FieldV::Integer(0i64));
}

/// Law: a print instruction always succeeds, emits exactly one text line
/// — its rendered pieces joined by single spaces — and contributes
/// nothing to the result sequence.
pub proof fn lemma_print_pure(operands: Seq<FieldV>, vars: Seq<VarV>)
    ensures
        step_spec(Operation::Print, operands, vars) == Ok::<
            (Seq<FieldV>, Seq<Seq<char>>),
            VmError,
        >((Seq::empty(), seq![join_spaced(print_pieces(operands, vars))])),
{
}

/// The position of offset `k` within replay number `r` of a block of
/// length `l`.
pub open spec fn replay_slot(r: int, l: int, k: int) -> int {
    r * l + k
}

/// Law: replaying a cleanly parsing loop body `n` times yields exactly
/// `n` independent copies of the body's instruction block, in order: the
/// whole expansion has `n` times the block's length, and the instruction
/// at offset `k` of replay `r` is the block's `k`-th instruction.
pub proof fn lemma_replay_repeats(ops: Seq<Seq<char>>, n: int)
    requires
        n >= 0,
        replay_once(ops) is Ok,
    ensures
        replay_n(ops, n) is Ok,
        replay_n(ops, n)->Ok_0.len() == n * replay_once(ops)->Ok_0.len(),
        forall|r: int, k: int|
            0 <= r < n && 0 <= k < replay_once(ops)->Ok_0.len() ==> replay_n(ops, n)->Ok_0[
                #[trigger] replay_slot(r, replay_once(ops)->Ok_0.len() as int, k)
            ] == replay_once(ops)->Ok_0[k],
    decreases n,
{
    let one = replay_once(ops)->Ok_0;
    if n > 0 {
        lemma_replay_repeats(ops, n - 1);
        let prev = replay_n(ops, n - 1)->Ok_0;
        assert(replay_n(ops, n)->Ok_0 == prev + one);
        assert((n - 1) * one.len() + one.len() == n * one.len()) by (nonlinear_arith);
        assert forall|r: int, k: int| 0 <= r < n && 0 <= k < one.len() implies (prev + one)[
            #[trigger] replay_slot(r, one.len() as int, k)
        ] == one[k] by {
            if r < n - 1 {
                assert(0 <= r * one.len() + k < prev.len()) by (nonlinear_arith)
                    requires
                        0 <= r < n - 1,
                        0 <= k < one.len(),
                        prev.len() == (n - 1) * one.len(),
                ;
                assert((prev + one)[r * one.len() + k] == prev[r * one.len() + k]);
                assert(prev[replay_slot(r, one.len() as int, k)] == one[k]);
            } else {
                assert(r == n - 1);
                assert(r * one.len() + k == prev.len() + k) by (nonlinear_arith)
                    requires
                        r == n - 1,
                        prev.len() == (n - 1) * one.len(),
                ;
                assert((prev + one)[prev.len() + k] == one[k]);
            }
        }
    }
}

/// Law: an arithmetic instruction whose text operand names a variable
/// appends one result per record whose name matches, in record order —
/// retained duplicate declarations each contribute their own result —
/// the matching record's value standing in the text operand's position.
pub proof fn lemma_duplicates_contribute(
    op: Operation,
    vars: Seq<VarV>,
    name: Seq<char>,
    other: i64,
    var_left: bool,
)
    requires
        op != Operation::Print,
        forall|i: int|
            0 <= i < vars.len() && (#[trigger] vars[i]).name == name ==> vars[i].value is Integer,
        forall|i: int|
            0 <= i < vars.len() && (#[trigger] vars[i]).name == name ==> (if var_left {
                apply_arith(op, vars[i].value->Integer_0 as int, other as int)
            } else {
                apply_arith(op, other as int, vars[i].value->Integer_0 as int)
            }) is Ok,
    ensures
        subst_eval(op, vars, name, other, var_left) == Ok::<Seq<FieldV>, VmError>(
            matches_of(vars, name).map_values(
                |v: VarV|
                    FieldV::Integer(
                        (if var_left {
                            apply_arith(op, v.value->Integer_0 as int, other as int)
                        } else {
                            apply_arith(op, other as int, v.value->Integer_0 as int)
                        })->Ok_0 as i64,
                    ),
            ),
        ),
    decreases vars.len(),
{
    let f = |v: VarV|
        FieldV::Integer(
            (if var_left {
                apply_arith(op, v.value->Integer_0 as int, other as int)
            } else {
                apply_arith(op, other as int, v.value->Integer_0 as int)
            })->Ok_0 as i64,
        );
    if vars.len() == 0 {
        assert(matches_of(vars, name).map_values(f) =~= Seq::<FieldV>::empty());
    } else {
        lemma_duplicates_contribute(op, vars.drop_last(), name, other, var_left);
        let last = vars.last();
        assert(vars[vars.len() - 1] == last);
        if last.name == name {
            assert(matches_of(vars, name) =~= matches_of(vars.drop_last(), name).push(last));
            assert(matches_of(vars, name).map_values(f) =~= matches_of(
                vars.drop_last(),
                name,
            ).map_values(f).push(f(last)));
        } else {
            assert(matches_of(vars, name) =~= matches_of(vars.drop_last(), name));
        }
    }
}

proof fn lemma_subst_err_prefix(
    op: Operation,
    vars: Seq<VarV>,
    name: Seq<char>,
    other: i64,
    var_left: bool,
    j: int,
)
    requires
        0 <= j <= vars.len(),
        subst_eval(op, vars.take(j), name, other, var_left) is Err,
    ensures
        subst_eval(op, vars, name, other, var_left) == subst_eval(
            op,
            vars.take(j),
            name,
            other,
            var_left,
        ),
    decreases vars.len(),
{
    if j == vars.len() {
        assert(vars.take(j) =~= vars);
    } else {
        assert(vars.drop_last().take(j) =~= vars.take(j));
        lemma_subst_err_prefix(op, vars.drop_last(), name, other, var_left, j);
    }
}

fn arith_exec(op: Operation, x: i64, y: i64) -> (r: Result<i64, VmError>)
    requires
        op != Operation::Print,
    ensures
        match apply_arith(op, x as int, y as int) {
            Ok(v) => r == Ok::<i64, VmError>(v as i64),
            Err(e) => r == Err::<i64, VmError>(e),
        },
{
    match op {
        Operation::Add => match x.checked_add(y) {
            Some(v) => Ok(v),
            None => Err(VmError::Overflow),
        },
        Operation::Sub => match x.checked_sub(y) {
            Some(v) => Ok(v),
            None => Err(VmError::Overflow),
        },
        Operation::Mul => match x.checked_mul(y) {
            Some(v) => Ok(v),
            None => Err(VmError::Overflow),
        },
        Operation::Div => {
            if y == 0 {
                Err(VmError::DivisionByZero)
            } else {
                match x.checked_div(y) {
                    Some(v) => Ok(v),
                    None => Err(VmError::Overflow),
                }
            }
        },
        Operation::Print => {
            proof {
                assert(false);
            }
            Err(VmError::InvalidOperands)
        },
    }
}

fn subst_exec(
    op: Operation,
    variables: &Vec<Variable>,
    name: &String,
    other: i64,
    var_left: bool,
    results: &mut VecDeque<Field>,
) -> (r: Result<(), VmError>)
    requires
        op != Operation::Print,
    ensures
        match subst_eval(op, variables.deep_view(), name@, other, var_left) {
            Ok(rs) => r is Ok && final(results).deep_view() == old(results).deep_view() + rs,
            Err(e) => r == Err::<(), VmError>(e) && final(results).deep_view() == old(
                results,
            ).deep_view(),
        },
{
    let ghost vars_v = variables.deep_view();
    let mut acc: VecDeque<Field> = VecDeque::new();
    let mut j: usize = 0;
    while j < variables.len()
        invariant
            0 <= j <= variables@.len(),
            vars_v == variables.deep_view(),
            op != Operation::Print,
            match subst_eval(op, vars_v.take(j as int), name@, other, var_left) {
                Ok(rs) => acc.deep_view() == rs,
                Err(_) => false,
            },
        decreases variables@.len() - j,
    {
        proof {
            assert(vars_v.take(j as int + 1).drop_last() =~= vars_v.take(j as int));
            assert(vars_v.take(j as int + 1).last() == vars_v[j as int]);
            assert(vars_v[j as int] == variables@[j as int]@);
        }
        let var = &variables[j];
        if str_eq(var.name.as_str(), name.as_str()) {
            match &var.value {
                Field::Text(_) => {
                    proof {
                        lemma_subst_err_prefix(op, vars_v, name@, other, var_left, j as int + 1);
                    }
                    return Err(VmError::InvalidOperands);
                },
                Field::Integer(av) => {
                    let one = if var_left {
                        arith_exec(op, *av, other)
                    } else {
                        arith_exec(op, other, *av)
                    };
                    match one {
                        Err(e) => {
                            proof {
                                lemma_subst_err_prefix(
                                    op,
                                    vars_v,
                                    name@,
                                    other,
                                    var_left,
                                    j as int + 1,
                                );
                            }
                            return Err(e);
                        },
                        Ok(v) => {
                            let ghost old_acc = acc.deep_view();
                            acc.push_back(Field::Integer(v));
                            proof {
                                assert(acc.deep_view() =~~= old_acc.push(FieldV::Integer(v)));
                            }
                        },
                    }
                },
            }
        }
        j = j + 1;
    }
    proof {
        assert(vars_v.take(variables@.len() as int) =~= vars_v);
    }
    let ghost old_results = results.deep_view();
    let ghost acc_v = acc.deep_view();
    results.append(&mut acc);
    proof {
        assert(results.deep_view() =~~= old_results + acc_v);
    }
    Ok(())
}

proof fn lemma_find_none_range(toks: Seq<TokenV>, m: Seq<char>, from: int, upto: int)
    requires
        0 <= from <= upto <= toks.len(),
        forall|kk: int| from <= kk < upto ==> !is_marked_directive(toks[kk], m),
    ensures
        find_marked(toks, m, from) == find_marked(toks, m, upto),
    decreases upto - from,
{
    if from < upto {
        lemma_find_none_range(toks, m, from + 1, upto);
    }
}

/// The position in the main token sequence that position `i` of the full
/// token sequence maps to, once the loop body is spliced out.
spec fn main_pos(has_start: bool, start: int, end: int, i: int) -> int {
    if !has_start || i <= start {
        i
    } else {
        i - (end - start - 1)
    }
}

proof fn lemma_build_err_prefix(main: Seq<TokenV>, body: Seq<TokenV>, j: int)
    requires
        0 <= j <= main.len(),
        build_spec(main.take(j), body) is Err,
    ensures
        build_spec(main, body) == build_spec(main.take(j), body),
    decreases main.len(),
{
    if j == main.len() {
        assert(main.take(j) =~= main);
    } else {
        assert(main.drop_last().take(j) =~= main.take(j));
        lemma_build_err_prefix(main.drop_last(), body, j);
    }
}

impl Instruction {
    /// Builds an instruction from an operation and its operands.
    pub fn new(operation: Operation, operands: VecDeque<Field>) -> (r: Self)
        ensures
            r.operation == operation,
            r.operands == operands,
    {
        Instruction { operation, operands }
    }

    /// Parses one operation line and appends the instruction it yields;
    /// an unrecognized mnemonic rejects the line and leaves the list
    /// unchanged.
    pub fn process_operation(op: String, instr: &mut Vec<Instruction>) -> (r: Result<(), VmError>)
        ensures
            match parse_instr(op@) {
                Ok(iv) => r is Ok && final(instr).deep_view() == old(instr).deep_view().push(iv),
                Err(e) => r == Err::<(), VmError>(e) && final(instr)@ == old(instr)@,
            },
    {
        let words = split_ws(op.as_str());
        if words.len() == 0 {
            return Err(VmError::InvalidMnemonic);
        }
        let operation = match Operation::from_mnemonic(words[0].as_str()) {
            None => {
                proof {
                    assert(words.deep_view()[0] == words@[0]@);
                }
                return Err(VmError::InvalidMnemonic);
            },
            Some(o) => o,
        };
        proof {
            assert(words.deep_view()[0] == words@[0]@);
        }
        let mut operands: VecDeque<Field> = VecDeque::new();
        let mut i: usize = 1;
        while i < words.len()
            invariant
                1 <= i <= words@.len(),
                words.deep_view() == split_ws_spec(op@),
                operands.deep_view() == words.deep_view().subrange(1, i as int).map_values(
                    |w: Seq<char>| classify_word(w),
                ),
            decreases words@.len() - i,
        {
            let w = words[i].as_str();
            proof {
                assert(w@ == words.deep_view()[i as int]);
            }
            let ghost old_ops = operands.deep_view();
            match parse_i64(w) {
                Some(v) => operands.push_back(Field::Integer(v)),
                None => operands.push_back(Field::Text(words[i].clone())),
            }
            proof {
                assert(operands.deep_view() =~~= old_ops.push(classify_word(w@)));
                assert(words.deep_view().subrange(1, i as int + 1) =~= words.deep_view().subrange(
                    1,
                    i as int,
                ).push(words.deep_view()[i as int]));
                assert(operands.deep_view() =~~= words.deep_view().subrange(
                    1,
                    i as int + 1,
                ).map_values(|w: Seq<char>| classify_word(w)));
            }
            i = i + 1;
        }
        proof {
            assert(words.deep_view().subrange(1, words.deep_view().len() as int)
                =~= words.deep_view().drop_first());
        }
        let ghost old_instr = instr.deep_view();
        instr.push(Instruction::new(operation, operands));
        proof {
            assert(instr.deep_view() =~~= old_instr.push(parse_instr(op@)->Ok_0));
        }
        Ok(())
    }

    /// Replays the buffered loop body: parses its repeat count from the
    /// directive's argument words and appends that many independent
    /// copies of the body's operation tokens, each re-parsed afresh; a
    /// rejected replay leaves the list unchanged.
    pub fn process_loop(
        args: &Vec<String>,
        loop_operations: &VecDeque<Token>,
        instr: &mut Vec<Instruction>,
    ) -> (r: Result<(), VmError>)
        ensures
            match replay_n(ops_of(loop_operations.deep_view()), loop_count_spec(args.deep_view())) {
                Ok(is) => r is Ok && final(instr).deep_view() == old(instr).deep_view() + is,
                Err(e) => r == Err::<(), VmError>(e) && final(instr).deep_view() == old(
                    instr,
                ).deep_view(),
            },
    {
        let ghost ops = ops_of(loop_operations.deep_view());
        let ghost body = loop_operations.deep_view();
        let mut count: i64 = 0;
        let mut found = false;
        let mut i: usize = 0;
        proof {
            assert(args.deep_view().skip(0) =~~= args.deep_view());
        }
        while i < args.len()
            invariant
                0 <= i <= args@.len(),
                count >= 0,
                found ==> loop_count_spec(args.deep_view()) == count,
                !found ==> count == 0,
                !found ==> loop_count_spec(args.deep_view()) == loop_count_spec(
                    args.deep_view().skip(i as int),
                ),
            decreases args@.len() - i,
        {
            if !found {
                proof {
                    assert(args.deep_view().skip(i as int)[0] == args.deep_view()[i as int]);
                    assert(args.deep_view().skip(i as int).drop_first() =~~= args.deep_view().skip(
                        i as int + 1,
                    ));
                    assert(args.deep_view()[i as int] == args@[i as int]@);
                }
                match parse_i64(args[i].as_str()) {
                    Some(v) => {
                        if v >= 0 {
                            count = v;
                            found = true;
                        }
                    },
                    None => {},
                }
            }
            i = i + 1;
        }
        proof {
            if !found {
                assert(args.deep_view().skip(args.deep_view().len() as int)
                    =~~= Seq::<Seq<char>>::empty());
            }
            assert(loop_count_spec(args.deep_view()) == count);
        }
        let base_len = instr.len();
        let ghost base = instr.deep_view();
        let mut rep: i64 = 0;
        while rep < count
            invariant
                0 <= rep <= count,
                ops == ops_of(body),
                body == loop_operations.deep_view(),
                base_len == base.len(),
                base_len <= instr@.len(),
                base == old(instr).deep_view(),
                loop_count_spec(args.deep_view()) == count,
                match replay_n(ops, rep as int) {
                    Ok(is) => instr.deep_view() == base + is,
                    Err(_) => false,
                },
            decreases count - rep,
        {
            let ghost prev = replay_n(ops, rep as int)->Ok_0;
            let mut j: usize = 0;
            while j < loop_operations.len()
                invariant
                    0 <= j <= body.len(),
                    ops == ops_of(body),
                    body == loop_operations.deep_view(),
                    base_len == base.len(),
                    base_len <= instr@.len(),
                    base == old(instr).deep_view(),
                    loop_count_spec(args.deep_view()) == count,
                    0 <= rep < count,
                    replay_n(ops, rep as int) == Ok::<Seq<InstrV>, VmError>(prev),
                    match replay_once(ops_of(body.take(j as int))) {
                        Ok(one) => instr.deep_view() == base + prev + one,
                        Err(_) => false,
                    },
                decreases body.len() - j,
            {
                proof {
                    assert(body.take(j as int + 1).drop_last() =~~= body.take(j as int));
                    assert(body.take(j as int + 1).last() == body[j as int]);
                }
                match &loop_operations[j] {
                    Token::Operation(s) => {
                        proof {
                            assert(body[j as int] == TokenV::Operation(s@));
                            assert(ops_of(body.take(j as int + 1)) =~~= ops_of(
                                body.take(j as int),
                            ).push(s@));
                            let p = ops_of(body.take(j as int));
                            assert(p.push(s@).drop_last() =~~= p);
                            assert(p.push(s@).last() == s@);
                        }
                        let res = Self::process_operation(s.clone(), instr);
                        match res {
                            Err(e) => {
                                proof {
                                    assert(replay_once(ops_of(body.take(j as int + 1)))
                                        == Err::<Seq<InstrV>, VmError>(e));
                                    lemma_ops_of_prefix(body, j as int + 1);
                                    lemma_replay_once_err_prefix(
                                        ops,
                                        ops_of(body.take(j as int + 1)).len() as int,
                                    );
                                    assert(replay_once(ops) == Err::<Seq<InstrV>, VmError>(e));
                                    lemma_replay_n_err(ops, count as int);
                                }
                                let ghost pre = instr.deep_view();
                                instr.truncate(base_len);
                                proof {
                                    assert(instr.deep_view() =~~= pre.take(base_len as int));
                                    assert(instr.deep_view() =~~= base);
                                }
                                return Err(e);
                            },
                            Ok(_) => {
                                proof {
                                    assert(instr.deep_view() =~~= base + prev + replay_once(
                                        ops_of(body.take(j as int + 1)),
                                    )->Ok_0);
                                }
                            },
                        }
                    },
                    _ => {
                        proof {
                            assert(ops_of(body.take(j as int + 1)) =~~= ops_of(
                                body.take(j as int),
                            ));
                        }
                    },
                }
                j = j + 1;
            }
            proof {
                assert(body.take(body.len() as int) =~~= body);
                assert(replay_n(ops, rep as int + 1) == Ok::<Seq<InstrV>, VmError>(
                    prev + replay_once(ops)->Ok_0,
                ));
                assert(instr.deep_view() =~~= base + (prev + replay_once(ops)->Ok_0));
            }
            rep = rep + 1;
        }
        Ok(())
    }

    /// Runs the whole front half of the pipeline: splices out the single
    /// loop region, then walks the remaining tokens in order, parsing
    /// operation lines into instructions (replaying the loop body at the
    /// loop-start directive) and collecting variable declaration texts.
    pub fn from_tokens(tokens: VecDeque<Token>) -> (r: Result<
        (Vec<Instruction>, Vec<String>),
        VmError,
    >)
        ensures
            match from_tokens_spec(tokens.deep_view()) {
                Ok((is, ds)) => match r {
                    Ok(p) => p.0.deep_view() == is && p.1.deep_view() == ds,
                    Err(_) => false,
                },
                Err(e) => match r {
                    Ok(_) => false,
                    Err(e2) => e2 == e,
                },
            },
    {
        let ghost toks = tokens.deep_view();
        let n = tokens.len();
        let mut start: usize = 0;
        let mut has_start = false;
        let mut i: usize = 0;
        while i < n && !has_start
            invariant
                0 <= i <= n,
                n == toks.len(),
                toks == tokens.deep_view(),
                !has_start ==> forall|kk: int|
                    0 <= kk < i ==> !is_marked_directive(toks[kk], loop_marker()),
                has_start ==> start < i && start < n && is_marked_directive(
                    toks[start as int],
                    loop_marker(),
                ) && (forall|kk: int|
                    0 <= kk < start ==> !is_marked_directive(toks[kk], loop_marker())),
            decreases n - i,
        {
            match &tokens[i] {
                Token::Directive(s) => {
                    proof {
                        reveal_strlit(".loop");
                        assert(".loop"@ =~= loop_marker());
                    }
                    if contains_sub(s.as_str(), ".loop") {
                        start = i;
                        has_start = true;
                    }
                },
                _ => {},
            }
            i = i + 1;
        }
        proof {
            if has_start {
                lemma_find_none_range(toks, loop_marker(), 0, start as int);
                assert(find_marked(toks, loop_marker(), 0) == Some(start as int));
            } else {
                lemma_find_none_range(toks, loop_marker(), 0, n as int);
                assert(find_marked(toks, loop_marker(), 0) is None);
            }
        }
        let mut end: usize = 0;
        let mut has_end = false;
        if has_start {
            let mut j: usize = start + 1;
            while j < n && !has_end
                invariant
                    start + 1 <= j <= n,
                    start < n,
                    n == toks.len(),
                    toks == tokens.deep_view(),
                    !has_end ==> forall|kk: int|
                        start + 1 <= kk < j ==> !is_marked_directive(toks[kk], endloop_marker()),
                    has_end ==> start < end && end < j && end < n && is_marked_directive(
                        toks[end as int],
                        endloop_marker(),
                    ) && (forall|kk: int|
                        start + 1 <= kk < end ==> !is_marked_directive(
                            toks[kk],
                            endloop_marker(),
                        )),
                decreases n - j,
            {
                match &tokens[j] {
                    Token::Directive(s) => {
                        proof {
                            reveal_strlit(".endloop");
                            assert(".endloop"@ =~= endloop_marker());
                        }
                        if contains_sub(s.as_str(), ".endloop") {
                            end = j;
                            has_end = true;
                        }
                    },
                    _ => {},
                }
                j = j + 1;
            }
            if !has_end {
                proof {
                    lemma_find_none_range(toks, endloop_marker(), start as int + 1, n as int);
                    assert(find_marked(toks, endloop_marker(), start as int + 1) is None);
                    assert(split_loop(toks) == Err::<(Seq<TokenV>, Seq<TokenV>), VmError>(
                        VmError::MissingLoopEnd,
                    ));
                }
                return Err(VmError::MissingLoopEnd);
            }
            proof {
                lemma_find_none_range(toks, endloop_marker(), start as int + 1, end as int);
                assert(find_marked(toks, endloop_marker(), start as int + 1) == Some(end as int));
            }
        }
        let mut body: VecDeque<Token> = VecDeque::new();
        if has_start {
            let mut j: usize = start + 1;
            while j < end
                invariant
                    start + 1 <= j <= end,
                    end <= n,
                    n == toks.len(),
                    toks == tokens.deep_view(),
                    body.deep_view() == toks.subrange(start as int + 1, j as int),
                decreases end - j,
            {
                let ghost old_body = body.deep_view();
                body.push_back(tokens[j].duplicate());
                proof {
                    assert(body.deep_view() =~~= old_body.push(toks[j as int]));
                    assert(body.deep_view() =~~= toks.subrange(start as int + 1, j as int + 1));
                }
                j = j + 1;
            }
        }
        let ghost main: Seq<TokenV> = if has_start {
            toks.subrange(0, start as int + 1) + toks.subrange(end as int, n as int)
        } else {
            toks
        };
        proof {
            if has_start {
                assert(body.deep_view() =~~= toks.subrange(start as int + 1, end as int));
            } else {
                assert(body.deep_view() =~~= Seq::<TokenV>::empty());
            }
            assert(split_loop(toks) == Ok::<(Seq<TokenV>, Seq<TokenV>), VmError>(
                (main, body.deep_view()),
            ));
        }
        let mut instructions: Vec<Instruction> = Vec::new();
        let mut variables: Vec<String> = Vec::new();
        let mut i: usize = 0;
        while i < n
            invariant
                0 <= i <= n,
                n == toks.len(),
                toks == tokens.deep_view(),
                has_start ==> start < end && end < n,
                has_start ==> i <= start || i >= end,
                main == (if has_start {
                    toks.subrange(0, start as int + 1) + toks.subrange(end as int, n as int)
                } else {
                    toks
                }),
                split_loop(toks) == Ok::<(Seq<TokenV>, Seq<TokenV>), VmError>(
                    (main, body.deep_view()),
                ),
                match build_spec(
                    main.take(main_pos(has_start, start as int, end as int, i as int)),
                    body.deep_view(),
                ) {
                    Ok((is, ds)) => instructions.deep_view() == is && variables.deep_view() == ds,
                    Err(_) => false,
                },
            decreases n - i,
        {
            let ghost mp = main_pos(has_start, start as int, end as int, i as int);
            proof {
                assert(0 <= mp < main.len());
                assert(main[mp] == toks[i as int]);
                assert(main.take(mp + 1).drop_last() =~= main.take(mp));
                assert(main.take(mp + 1).last() == main[mp]);
            }
            let ghost prev_is = build_spec(main.take(mp), body.deep_view())->Ok_0.0;
            let ghost prev_ds = build_spec(main.take(mp), body.deep_view())->Ok_0.1;
            match &tokens[i] {
                Token::Operation(s) => {
                    match Self::process_operation(s.clone(), &mut instructions) {
                        Err(e) => {
                            proof {
                                assert(build_spec(main.take(mp + 1), body.deep_view())
                                    == Err::<(Seq<InstrV>, Seq<Seq<char>>), VmError>(e));
                                lemma_build_err_prefix(main, body.deep_view(), mp + 1);
                            }
                            return Err(e);
                        },
                        Ok(_) => {
                            proof {
                                assert(instructions.deep_view() =~~= prev_is + seq![
                                    parse_instr(s@)->Ok_0,
                                ]);
                                assert(variables.deep_view() =~~= prev_ds + Seq::<
                                    Seq<char>,
                                >::empty());
                            }
                        },
                    }
                },
                Token::Variable(s) => {
                    variables.push(s.clone());
                    proof {
                        assert(variables.deep_view() =~~= prev_ds + seq![s@]);
                        assert(instructions.deep_view() =~~= prev_is + Seq::<InstrV>::empty());
                    }
                },
                Token::Directive(s) => {
                    let words = split_ws(s.as_str());
                    proof {
                        reveal_strlit(".loop");
                        assert(".loop"@ =~= loop_marker());
                    }
                    let mut is_loop = false;
                    if words.len() > 0 {
                        if str_eq(words[0].as_str(), ".loop") {
                            is_loop = true;
                        }
                        proof {
                            assert(words.deep_view()[0] == words@[0]@);
                        }
                    }
                    if is_loop {
                        let mut args: Vec<String> = Vec::new();
                        let mut j: usize = 1;
                        while j < words.len()
                            invariant
                                1 <= j <= words@.len(),
                                words.deep_view() == split_ws_spec(s@),
                                args.deep_view() == words.deep_view().subrange(1, j as int),
                            decreases words@.len() - j,
                        {
                            let ghost old_args = args.deep_view();
                            args.push(words[j].clone());
                            proof {
                                assert(args.deep_view() =~~= old_args.push(
                                    words.deep_view()[j as int],
                                ));
                                assert(args.deep_view() =~~= words.deep_view().subrange(
                                    1,
                                    j as int + 1,
                                ));
                            }
                            j = j + 1;
                        }
                        proof {
                            assert(args.deep_view() =~~= words.deep_view().drop_first());
                        }
                        match Self::process_loop(&args, &body, &mut instructions) {
                            Err(e) => {
                                proof {
                                    assert(build_spec(main.take(mp + 1), body.deep_view())
                                        == Err::<(Seq<InstrV>, Seq<Seq<char>>), VmError>(e));
                                    lemma_build_err_prefix(main, body.deep_view(), mp + 1);
                                }
                                return Err(e);
                            },
                            Ok(_) => {
                                proof {
                                    let is1 = replay_n(
                                        ops_of(body.deep_view()),
                                        loop_count_spec(words.deep_view().drop_first()),
                                    )->Ok_0;
                                    assert(instructions.deep_view() =~~= prev_is + is1);
                                    assert(variables.deep_view() =~~= prev_ds + Seq::<
                                        Seq<char>,
                                    >::empty());
                                }
                            },
                        }
                    } else {
                        proof {
                            assert(token_effect(toks[i as int], body.deep_view())
                                == Ok::<(Seq<InstrV>, Seq<Seq<char>>), VmError>(
                                (Seq::empty(), Seq::empty()),
                            ));
                            assert(instructions.deep_view() =~~= prev_is + Seq::<InstrV>::empty());
                            assert(variables.deep_view() =~~= prev_ds + Seq::<Seq<char>>::empty());
                        }
                    }
                },
                _ => {
                    proof {
                        assert(instructions.deep_view() =~~= prev_is + Seq::<InstrV>::empty());
                        assert(variables.deep_view() =~~= prev_ds + Seq::<Seq<char>>::empty());
                    }
                },
            }
            if has_start && i == start {
                i = end;
            } else {
                i = i + 1;
            }
        }
        proof {
            assert(main.take(main_pos(has_start, start as int, end as int, n as int)) =~= main);
        }
        Ok((instructions, variables))
    }

    /// Executes one instruction: appends its results to the result
    /// sequence and its emitted text lines to the output, consuming the
    /// instruction's operands.  A rejected instruction leaves both
    /// sequences unchanged.
    pub fn execute_instruction(
        self,
        results: &mut VecDeque<Field>,
        variables: &Vec<Variable>,
        out: &mut Vec<String>,
    ) -> (r: Result<(), VmError>)
        ensures
            match step_spec(self.operation, self.operands.deep_view(), variables.deep_view()) {
                Ok((rs, ls)) => r is Ok && final(results).deep_view() == old(
                    results,
                ).deep_view() + rs && final(out).deep_view() == old(out).deep_view() + ls,
                Err(e) => r == Err::<(), VmError>(e) && final(results).deep_view() == old(
                    results,
                ).deep_view() && final(out).deep_view() == old(out).deep_view(),
            },
    {
        let operation = self.operation;
        let mut operands = self.operands;
        let ghost ops_v = operands.deep_view();
        let ghost vars_v = variables.deep_view();
        match operation {
            Operation::Print => {
                let mut pieces: Vec<String> = Vec::new();
                let mut k: usize = 0;
                while k < operands.len()
                    invariant
                        0 <= k <= operands@.len(),
                        ops_v == operands.deep_view(),
                        vars_v == variables.deep_view(),
                        pieces.deep_view() == print_pieces(ops_v.take(k as int), vars_v),
                    decreases operands@.len() - k,
                {
                    proof {
                        assert(ops_v.take(k as int + 1).drop_last() =~= ops_v.take(k as int));
                        assert(ops_v.take(k as int + 1).last() == ops_v[k as int]);
                        assert(ops_v[k as int] == operands@[k as int]@);
                    }
                    let ghost old_pieces = pieces.deep_view();
                    match &operands[k] {
                        Field::Integer(iv) => {
                            pieces.push(i64_to_text(*iv));
                            proof {
                                assert(pieces.deep_view() =~~= old_pieces + seq![
                                    dec_i64(*iv as int),
                                ]);
                            }
                        },
                        Field::Text(t) => {
                            let mut any = false;
                            let mut rendered: Vec<String> = Vec::new();
                            let mut j: usize = 0;
                            while j < variables.len()
                                invariant
                                    0 <= j <= variables@.len(),
                                    vars_v == variables.deep_view(),
                                    rendered.deep_view() == render_matches(
                                        vars_v.take(j as int),
                                        t@,
                                    ),
                                    any == (matches_of(vars_v.take(j as int), t@).len() > 0),
                                decreases variables@.len() - j,
                            {
                                proof {
                                    assert(vars_v.take(j as int + 1).drop_last() =~= vars_v.take(
                                        j as int,
                                    ));
                                    assert(vars_v.take(j as int + 1).last() == vars_v[j as int]);
                                    assert(vars_v[j as int] == variables@[j as int]@);
                                }
                                let var = &variables[j];
                                let ghost old_rendered = rendered.deep_view();
                                if str_eq(var.name.as_str(), t.as_str()) {
                                    rendered.push(var.value.to_text());
                                    any = true;
                                    proof {
                                        assert(rendered.deep_view() =~~= old_rendered + seq![
                                            render_value(vars_v[j as int].value),
                                        ]);
                                        assert(rendered.deep_view() =~~= render_matches(
                                            vars_v.take(j as int + 1),
                                            t@,
                                        ));
                                        assert(matches_of(vars_v.take(j as int + 1), t@)
                                            =~= matches_of(vars_v.take(j as int), t@) + seq![
                                            vars_v[j as int],
                                        ]);
                                    }
                                } else {
                                    proof {
                                        assert(rendered.deep_view() =~~= render_matches(
                                            vars_v.take(j as int + 1),
                                            t@,
                                        ));
                                        assert(matches_of(vars_v.take(j as int + 1), t@)
                                            =~= matches_of(vars_v.take(j as int), t@));
                                    }
                                }
                                j = j + 1;
                            }
                            proof {
                                assert(vars_v.take(variables@.len() as int) =~= vars_v);
                            }
                            if any {
                                let ghost rendered_v = rendered.deep_view();
                                pieces.append(&mut rendered);
                                proof {
                                    assert(pieces.deep_view() =~~= old_pieces + rendered_v);
                                }
                            } else {
                                pieces.push(strip_quotes(t.as_str()));
                                proof {
                                    assert(pieces.deep_view() =~~= old_pieces + seq![
                                        strip_quotes_spec(t@),
                                    ]);
                                }
                            }
                        },
                    }
                    proof {
                        assert(pieces.deep_view() =~~= print_pieces(
                            ops_v.take(k as int + 1),
                            vars_v,
                        ));
                    }
                    k = k + 1;
                }
                proof {
                    assert(ops_v.take(operands@.len() as int) =~= ops_v);
                }
                let line = join_spaced_exec(&pieces);
                let ghost old_out = out.deep_view();
                out.push(line);
                proof {
                    assert(out.deep_view() =~~= old_out + seq![
                        join_spaced(print_pieces(ops_v, vars_v)),
                    ]);
                    assert(results.deep_view() =~~= old(results).deep_view() + Seq::<
                        FieldV,
                    >::empty());
                }
                Ok(())
            },
            _ => {
                if operands.len() != 2 {
                    return Err(VmError::InvalidOperands);
                }
                let a = operands.pop_front().unwrap();
                let b = operands.pop_front().unwrap();
                proof {
                    assert(a@ == ops_v[0]);
                    assert(b@ == ops_v[1]);
                }
                match (a, b) {
                    (Field::Integer(x), Field::Integer(y)) => {
                        match arith_exec(operation, x, y) {
                            Err(e) => Err(e),
                            Ok(v) => {
                                let ghost old_results = results.deep_view();
                                results.push_back(Field::Integer(v));
                                proof {
                                    assert(results.deep_view() =~~= old_results + seq![
                                        FieldV::Integer(v),
                                    ]);
                                }
                                Ok(())
                            },
                        }
                    },
                    (Field::Text(t), Field::Integer(y)) => {
                        subst_exec(operation, variables, &t, y, true, results)
                    },
                    (Field::Integer(x), Field::Text(t)) => {
                        subst_exec(operation, variables, &t, x, false, results)
                    },
                    _ => Err(VmError::InvalidOperands),
                }
            },
        }
    }
}

} // verus!
