//! The virtual machine: runs a whole source text through the pipeline
//! and drains the results into the final integer output stack.

use vstd::prelude::*;
use vstd::string::*;
use std::collections::VecDeque;
use crate::error::VmError;
use crate::field::{Field, FieldV};
use crate::instruction::{from_tokens_spec, step_spec, Instruction, InstrV};
use crate::token::{tokenize_spec, Token};
use crate::variable::{resolve_spec, Variable, VarV};

verus! {

/// The results and text lines a sequence of instructions yields when
/// executed in order against the variable records; the first rejected
/// instruction aborts the run.
pub open spec fn run_instrs_spec(instrs: Seq<InstrV>, vars: Seq<VarV>) -> Result<
    (Seq<FieldV>, Seq<Seq<char>>),
    VmError,
>
    decreases instrs.len(),
{
    if instrs.len() == 0 {
        Ok((Seq::empty(), Seq::empty()))
    } else {
        match run_instrs_spec(instrs.drop_last(), vars) {
            Err(e) => Err(e),
            Ok((rs0, ls0)) => match step_spec(
                instrs.last().operation,
                instrs.last().operands,
                vars,
            ) {
                Err(e) => Err(e),
                Ok((rs1, ls1)) => Ok((rs0 + rs1, ls0 + ls1)),
            },
        }
    }
}

/// Draining the result sequence in order: every integer result joins the
/// output stack; every text result becomes an emitted text line instead.
pub open spec fn drain_spec(results: Seq<FieldV>) -> (Seq<i64>, Seq<Seq<char>>)
    decreases results.len(),
{
    if results.len() == 0 {
        (Seq::empty(), Seq::empty())
    } else {
        let (st, ls) = drain_spec(results.drop_last());
        match results.last() {
            FieldV::Integer(i) => (st.push(i), ls),
            FieldV::Text(t) => (st, ls.push(t)),
        }
    }
}

/// The whole pipeline on a source text: tokenize, splice and expand the
/// loop region while building instructions and declarations, resolve the
/// declarations, execute every instruction, then drain the results.  On
/// success: the integers appended to the output stack, and the emitted
/// text lines — the print lines in execution order, then the drained
/// text results.
pub open spec fn run_spec(text: Seq<char>) -> Result<(Seq<i64>, Seq<Seq<char>>), VmError> {
    match from_tokens_spec(tokenize_spec(text)) {
        Err(e) => Err(e),
        Ok((instrs, decls)) => match resolve_spec(decls) {
            Err(e) => Err(e),
            Ok(vars) => match run_instrs_spec(instrs, vars) {
                Err(e) => Err(e),
                Ok((results, plines)) => {
                    let (st, dlines) = drain_spec(results);
                    Ok((st, plines + dlines))
                },
            },
        },
    }
}

proof fn lemma_run_err_prefix(instrs: Seq<InstrV>, vars: Seq<VarV>, j: int)
    requires
        0 <= j <= instrs.len(),
        run_instrs_spec(instrs.take(j), vars) is Err,
    ensures
        run_instrs_spec(instrs, vars) == run_instrs_spec(instrs.take(j), vars),
    decreases instrs.len(),
{
    if j == instrs.len() {
        assert(instrs.take(j) =~= instrs);
    } else {
        assert(instrs.drop_last().take(j) =~= instrs.take(j));
        lemma_run_err_prefix(instrs.drop_last(), vars, j);
    }
}

/// The virtual machine: owns the final integer output stack.
#[derive(Debug)]
pub struct VM {
    pub stack: VecDeque<i64>,
}

impl VM {
    /// A machine with an empty output stack.
    pub fn new() -> (r: Self)
        ensures
            r.stack@ == Seq::<i64>::empty(),
    {
        VM { stack: VecDeque::new() }
    }

    /// Runs a source text through the whole pipeline.  On success the
    /// integer results are appended to the stack, in order, and the
    /// emitted text lines are returned; a rejected program reports its
    /// error and leaves the stack unchanged.
    pub fn execute(&mut self, source: &str) -> (r: Result<Vec<String>, VmError>)
        ensures
            match run_spec(source@) {
                Ok((st, ls)) => match r {
                    Ok(out) => final(self).stack@ == old(self).stack@ + st && out.deep_view()
                        == ls,
                    Err(_) => false,
                },
                Err(e) => r == Err::<Vec<String>, VmError>(e) && final(self).stack@ == old(
                    self,
                ).stack@,
            },
    {
        let tokens = Token::tokenize(source);
        let processed = match Instruction::from_tokens(tokens) {
            Err(e) => {
                return Err(e);
            },
            Ok(p) => p,
        };
        let mut instructions = processed.0;
        let raw_variables = processed.1;
        let processed_variables = match Variable::from_vec_string(raw_variables) {
            Err(e) => {
                return Err(e);
            },
            Ok(v) => v,
        };
        let ghost instrs_v = instructions.deep_view();
        let ghost vars_v = processed_variables.deep_view();
        let mut results: VecDeque<Field> = VecDeque::new();
        let mut output: Vec<String> = Vec::new();
        proof {
            assert(instrs_v.skip(0) =~= instrs_v);
        }
        let total = instructions.len();
        let mut done: usize = 0;
        while done < total
            invariant
                0 <= done <= total,
                total == instrs_v.len(),
                vars_v == processed_variables.deep_view(),
                self.stack@ == old(self).stack@,
                ({
                    let ft = from_tokens_spec(tokenize_spec(source@));
                    ft is Ok && ft->Ok_0.0 == instrs_v && resolve_spec(ft->Ok_0.1) == Ok::<
                        Seq<VarV>,
                        VmError,
                    >(vars_v)
                }),
                instructions.deep_view() == instrs_v.skip(done as int),
                match run_instrs_spec(instrs_v.take(done as int), vars_v) {
                    Ok((rs, ls)) => results.deep_view() == rs && output.deep_view() == ls,
                    Err(_) => false,
                },
            decreases total - done,
        {
            let ghost prev_rs = run_instrs_spec(instrs_v.take(done as int), vars_v)->Ok_0.0;
            let ghost prev_ls = run_instrs_spec(instrs_v.take(done as int), vars_v)->Ok_0.1;
            proof {
                assert(instructions.deep_view().len() == instrs_v.skip(done as int).len());
                assert(instrs_v.skip(done as int).len() == instrs_v.len() - done);
                assert(instructions.deep_view().len() == instructions@.len());
                assert(instructions@.len() == instrs_v.len() - done);
            }
            let ghost old_seq = instructions@;
            let ghost old_deep = instructions.deep_view();
            let ins = instructions.remove(0);
            proof {
                assert(ins.deep_view() == instrs_v.skip(done as int)[0]);
                assert(ins.deep_view() == instrs_v[done as int]);
                assert(instructions@ =~= old_seq.skip(1));
                assert forall|j: int| 0 <= j < instructions@.len() implies #[trigger]
                instructions@[j].deep_view() == instrs_v[done + 1 + j] by {
                    assert(instructions@[j] == old_seq[j + 1]);
                    assert(old_deep[j + 1] == old_seq[j + 1].deep_view());
                    assert(old_deep[j + 1] == instrs_v.skip(done as int)[j + 1]);
                }
                assert(instructions.deep_view() =~~= instrs_v.skip(done as int + 1));
                assert(instrs_v.take(done as int + 1).drop_last() =~= instrs_v.take(done as int));
                assert(instrs_v.take(done as int + 1).last() == instrs_v[done as int]);
            }
            match ins.execute_instruction(&mut results, &processed_variables, &mut output) {
                Err(e) => {
                    proof {
                        assert(run_instrs_spec(instrs_v.take(done as int + 1), vars_v)
                            == Err::<(Seq<FieldV>, Seq<Seq<char>>), VmError>(e));
                        lemma_run_err_prefix(instrs_v, vars_v, done as int + 1);
                    }
                    return Err(e);
                },
                Ok(_) => {
                    proof {
                        let one = step_spec(
                            instrs_v[done as int].operation,
                            instrs_v[done as int].operands,
                            vars_v,
                        );
                        assert(results.deep_view() =~~= prev_rs + one->Ok_0.0);
                        assert(output.deep_view() =~~= prev_ls + one->Ok_0.1);
                    }
                },
            }
            done = done + 1;
        }
        proof {
            assert(instrs_v.take(instrs_v.len() as int) =~= instrs_v);
        }
        let ghost results_v = results.deep_view();
        let ghost plines = output.deep_view();
        proof {
            assert(results_v.skip(0) =~= results_v);
        }
        let rtotal = results.len();
        let mut c: usize = 0;
        while c < rtotal
            invariant
                0 <= c <= rtotal,
                rtotal == results_v.len(),
                results.deep_view() == results_v.skip(c as int),
                self.stack@ == old(self).stack@ + drain_spec(results_v.take(c as int)).0,
                output.deep_view() == plines + drain_spec(results_v.take(c as int)).1,
            decreases rtotal - c,
        {
            proof {
                assert(results.deep_view().len() == results_v.skip(c as int).len());
                assert(results_v.skip(c as int).len() == results_v.len() - c);
                assert(results.deep_view().len() == results@.len());
                assert(results@.len() == results_v.len() - c);
            }
            let ghost old_seq = results@;
            let ghost old_deep = results.deep_view();
            let result = results.pop_front().unwrap();
            proof {
                assert(result@ == results_v.skip(c as int)[0]);
                assert(result@ == results_v[c as int]);
                assert(results@ =~= old_seq.skip(1));
                assert forall|j: int| 0 <= j < results@.len() implies results@[j].deep_view()
                    == results_v[c + 1 + j] by {
                    assert(results@[j] == old_seq[j + 1]);
                    assert(old_deep[j + 1] == old_seq[j + 1].deep_view());
                    assert(old_deep[j + 1] == results_v.skip(c as int)[j + 1]);
                }
                assert(results.deep_view() =~~= results_v.skip(c as int + 1));
                assert(results_v.take(c as int + 1).drop_last() =~= results_v.take(c as int));
                assert(results_v.take(c as int + 1).last() == results_v[c as int]);
            }
            match result {
                Field::Integer(i) => {
                    self.stack.push_back(i);
                },
                Field::Text(s) => {
                    let ghost old_out = output.deep_view();
                    let ghost sv = s@;
                    output.push(s);
                    proof {
                        assert(output.deep_view() =~~= old_out.push(sv));
                    }
                },
            }
            proof {
                assert(self.stack@ =~= old(self).stack@ + drain_spec(
                    results_v.take(c as int + 1),
                ).0);
                assert(output.deep_view() =~~= plines + drain_spec(
                    results_v.take(c as int + 1),
                ).1);
            }
            c = c + 1;
        }
        proof {
            assert(results_v.take(results_v.len() as int) =~= results_v);
        }
        Ok(output)
    }
}

} // verus!

