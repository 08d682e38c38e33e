//! Variable records and the resolution of declaration strings.

use vstd::prelude::*;
use vstd::string::*;
use crate::error::VmError;
use crate::field::{Field, FieldV};
use crate::text::{parse_i64, parsed_i64, split_ws, split_ws_spec, strip_quotes, strip_quotes_spec};

verus! {

/// A named variable with its typed value.
#[derive(Debug)]
pub struct Variable {
    pub name: String,
    pub value: Field,
}

/// The spec-level value of a [`Variable`].
pub struct VarV {
    pub name: Seq<char>,
    pub value: FieldV,
}

impl View for Variable {
    type V = VarV;

    open spec fn view(&self) -> VarV {
        VarV { name: self.name@, value: self.value@ }
    }
}

impl DeepView for Variable {
    type V = VarV;

    open spec fn deep_view(&self) -> VarV {
        self.view()
    }
}

/// The record one declaration string yields: the first word without its
/// leading `@` sigil names the variable; the second word is its value, an
/// integer when it parses as one, else the text with double quotes
/// stripped.  A declaration of fewer than two words is rejected.
pub open spec fn resolve_decl(s: Seq<char>) -> Result<VarV, VmError> {
    let words = split_ws_spec(s);
    if words.len() < 2 {
        Err(VmError::MalformedDeclaration)
    } else {
        let raw = words[0];
        let name = if raw.len() > 0 && raw[0] == '@' {
            raw.drop_first()
        } else {
            raw
        };
        let value = match parsed_i64(words[1]) {
            Some(v) => FieldV::Integer(v as i64),
            None => FieldV::Text(strip_quotes_spec(words[1])),
        };
        Ok(VarV { name, value })
    }
}

/// The records a sequence of declaration strings yields, in order,
/// duplicates retained; the first malformed declaration rejects the whole
/// sequence.
pub open spec fn resolve_spec(decls: Seq<Seq<char>>) -> Result<Seq<VarV>, VmError>
    decreases decls.len(),
{
    if decls.len() == 0 {
        Ok(Seq::empty())
    } else {
        match resolve_spec(decls.drop_last()) {
            Err(e) => Err(e),
            Ok(vs) => match resolve_decl(decls.last()) {
                Err(e) => Err(e),
                Ok(v) => Ok(vs.push(v)),
            },
        }
    }
}

pub proof fn lemma_resolve_err_prefix(decls: Seq<Seq<char>>, j: int)
    requires
        0 <= j <= decls.len(),
        resolve_spec(decls.take(j)) is Err,
    ensures
        resolve_spec(decls) == resolve_spec(decls.take(j)),
    decreases decls.len(),
{
    if j == decls.len() {
        assert(decls.take(j) =~= decls);
    } else {
        assert(decls.drop_last().take(j) =~= decls.take(j));
        lemma_resolve_err_prefix(decls.drop_last(), j);
    }
}

impl Variable {
    /// Builds a record from a name and a value.
    pub fn new(name: String, value: Field) -> (r: Self)
        ensures
            r@ == (VarV { name: name@, value: value@ }),
    {
        Variable { name, value }
    }

    /// Resolves a sequence of declaration strings into records, in order,
    /// retaining duplicate names.
    pub fn from_vec_string(vec_string: Vec<String>) -> (r: Result<Vec<Variable>, VmError>)
        ensures
            match resolve_spec(vec_string.deep_view()) {
                Ok(vs) => match r {
                    Ok(out) => out.deep_view() == vs,
                    Err(_) => false,
                },
                Err(e) => match r {
                    Ok(_) => false,
                    Err(e2) => e2 == e,
                },
            },
    {
        let ghost decls = vec_string.deep_view();
        let mut variables: Vec<Variable> = Vec::new();
        let mut i: usize = 0;
        while i < vec_string.len()
            invariant
                0 <= i <= vec_string@.len(),
                decls == vec_string.deep_view(),
                decls.len() == vec_string@.len(),
                match resolve_spec(decls.take(i as int)) {
                    Ok(vs) => variables.deep_view() == vs,
                    Err(_) => false,
                },
            decreases vec_string@.len() - i,
        {
            let s = vec_string[i].as_str();
            proof {
                assert(s@ == decls[i as int]);
                assert(decls.take(i as int + 1).drop_last() =~= decls.take(i as int));
                assert(decls.take(i as int + 1).last() == decls[i as int]);
            }
            let words = split_ws(s);
            if words.len() < 2 {
                proof {
                    assert(resolve_decl(decls[i as int]) == Err::<VarV, VmError>(
                        VmError::MalformedDeclaration,
                    ));
                    lemma_resolve_err_prefix(decls, i as int + 1);
                }
                return Err(VmError::MalformedDeclaration);
            }
            let raw = &words[0];
            let rn = raw.as_str().unicode_len();
            let name: String = if rn > 0 && raw.as_str().get_char(0) == '@' {
                let stripped = raw.as_str().substring_char(1, rn);
                proof {
                    assert(stripped@ =~= raw@.drop_first());
                }
                stripped.to_owned()
            } else {
                raw.clone()
            };
            let vword = words[1].as_str();
            let value = match parse_i64(vword) {
                Some(v) => Field::Integer(v),
                None => Field::Text(strip_quotes(vword)),
            };
            let ghost old_vars = variables.deep_view();
            variables.push(Variable::new(name, value));
            proof {
                assert(words.deep_view()[0] == words@[0]@);
                assert(words.deep_view()[1] == words@[1]@);
                let rv = resolve_decl(decls[i as int]);
                assert(rv is Ok);
                assert(variables.deep_view() =~~= old_vars.push(rv->Ok_0));
            }
            i = i + 1;
        }
        proof {
            assert(decls.take(decls.len() as int) =~= decls);
        }
        Ok(variables)
    }
}

} // verus!
