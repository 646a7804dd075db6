//! Running a whole source file: statement by statement, showing each value.
//!
//! Reading the file and printing are left to the caller; this module decides
//! which lines are printed and whether the run fails.
use vstd::prelude::*;
use crate::ast::{Program, lemma_stmts_view};
use crate::ast::SStmt;
use vstd::utf8::encode_utf8;
use crate::environment::{Environment, SEnv, env_empty};
use crate::evaluator::{eval_statement, statement_result};
use crate::lexer::Lexer;
use crate::object::{Object, SObject, inspect, lemma_boolean_shown};
use crate::parser::{Parser, parse_source, texts};
use crate::text::push_str;

verus! {

broadcast use vstd::std_specs::vec::group_vec_axioms, vstd::seq::group_seq_axioms;

/// What running the statements `ss[i..]` one by one in the global scope of
/// `env` prints: for each statement, the lines that `print` wrote while it
/// ran, then its value unless that is `null`. `None` when a statement does
/// not finish normally.
pub open spec fn run_from(ss: Seq<SStmt>, i: nat, env: SEnv) -> Option<Seq<Seq<char>>>
    decreases ss.len() - i,
{
    if i >= ss.len() {
        Some(Seq::empty())
    } else {
        match statement_result(ss[i as int], env, 0) {
            None => None,
            Some((v, env1)) => {
                let shown = if v == SObject::Null {
                    env1.output
                } else {
                    env1.output.push(inspect(v))
                };
                match run_from(ss, i + 1, SEnv { output: Seq::empty(), ..env1 }) {
                    Some(rest) => Some(shown + rest),
                    None => None,
                }
            },
        }
    }
}

/// Running a file shows each statement's value: what statement `i` adds is
/// the lines it printed, followed by one line with the text of its value
/// unless that value is `null`; a value of `false`, for instance, adds the
/// line `false`.
pub proof fn lemma_run_shows_values(ss: Seq<SStmt>, i: nat, env: SEnv)
    requires
        i < ss.len(),
        run_from(ss, i, env) is Some,
    ensures
        statement_result(ss[i as int], env, 0) is Some,
        ({
            let (v, env1) = statement_result(ss[i as int], env, 0).unwrap();
            let out = run_from(ss, i, env).unwrap();
            let rest = run_from(ss, i + 1, SEnv { output: Seq::empty(), ..env1 });
            &&& rest is Some
            &&& v != SObject::Null ==> out == env1.output + seq![inspect(v)] + rest.unwrap()
            &&& v != SObject::Null ==> out[env1.output.len() as int] == inspect(v)
            &&& v == SObject::Null ==> out == env1.output + rest.unwrap()
            &&& v == SObject::Boolean(false) ==> out[env1.output.len() as int] == "false"@
        }),
{
    let (v, env1) = statement_result(ss[i as int], env, 0).unwrap();
    let rest = run_from(ss, i + 1, SEnv { output: Seq::empty(), ..env1 }).unwrap();
    if v != SObject::Null {
        assert(env1.output.push(inspect(v)) + rest =~= env1.output + seq![inspect(v)] + rest);
        assert((env1.output + seq![inspect(v)] + rest)[env1.output.len() as int] == inspect(v));
    }
    lemma_boolean_shown(false);
}

/// The lines that report parse errors of a file.
pub open spec fn file_error_lines(errors: Seq<Seq<char>>) -> Seq<Seq<char>> {
    seq!["Parser errors:"@] + errors.map_values(|m: Seq<char>| "\t"@ + m)
}

/// Reports a file's parse errors under a heading, one tab-indented line each.
pub fn file_error_report(errors: &Vec<String>) -> (out: Vec<String>)
    ensures
        texts(out@) == file_error_lines(texts(errors@)),
{
    let mut out: Vec<String> = Vec::new();
    out.push(String::from_str("Parser errors:"));
    let mut i: usize = 0;
    while i < errors.len()
        invariant
            i <= errors.len(),
            texts(out@) == seq!["Parser errors:"@] + texts(errors@).take(i as int).map_values(
                |m: Seq<char>| "\t"@ + m,
            ),
        decreases errors.len() - i,
    {
        let mut l = String::from_str("\t");
        push_str(&mut l, errors[i].as_str());
        proof {
            assert(texts(out@.push(l)) =~= texts(out@).push(l@));
            assert(texts(errors@).take(i + 1) =~= texts(errors@).take(i as int).push(errors@[i as int]@));
        }
        out.push(l);
        i = i + 1;
        proof {
            assert(texts(out@) =~= seq!["Parser errors:"@] + texts(errors@).take(i as int).map_values(
                |m: Seq<char>| "\t"@ + m,
            ));
        }
    }
    assert(texts(errors@).take(i as int) =~= texts(errors@));
    out
}

/// Evaluates the statements of `program` one by one in a fresh environment
/// and returns the lines to print.
pub fn run_program(program: &Program) -> (lines: Vec<String>)
    requires
        run_from(program@, 0, env_empty()) is Some,
    ensures
        run_from(program@, 0, env_empty()) == Some(texts(lines@)),
{
    let mut env = Environment::new();
    let mut lines: Vec<String> = Vec::new();
    let mut i: usize = 0;
    proof {
        lemma_stmts_view(program.statements@);
        assert(texts(lines@) + run_from(program@, 0, env@).unwrap() =~= run_from(
            program@,
            0,
            env@,
        ).unwrap());
    }
    while i < program.statements.len()
        invariant
            i <= program.statements.len(),
            program@.len() == program.statements@.len(),
            forall|k: int|
                0 <= k < program.statements@.len() ==> #[trigger] program@[k]
                    == program.statements@[k]@,
            env@.output == Seq::<Seq<char>>::empty(),
            run_from(program@, i as nat, env@) is Some,
            run_from(program@, 0, env_empty()) == Some(
                texts(lines@) + run_from(program@, i as nat, env@).unwrap(),
            ),
        decreases program.statements.len() - i,
    {
        let ghost env0 = env@;
        let value = eval_statement(&program.statements[i], &mut env, 0);
        let ghost env1 = env@;
        let mut printed = env.take_output();
        proof {
            assert(texts(printed@) =~= env1.output);
            assert(env@ == SEnv { output: Seq::empty(), ..env1 });
        }
        let ghost before = lines@;
        lines.append(&mut printed);
        proof {
            assert(texts(lines@) =~= texts(before) + env1.output);
        }
        let shown = match value {
            Object::Null => false,
            _ => true,
        };
        if shown {
            let text = value.inspect();
            proof {
                assert(texts(lines@.push(text)) =~= texts(lines@).push(text@));
            }
            lines.push(text);
        }
        i = i + 1;
        proof {
            let rest = run_from(program@, i as nat, env@).unwrap();
            assert(texts(lines@) + rest =~= texts(before) + (if value@ == SObject::Null {
                env1.output
            } else {
                env1.output.push(inspect(value@))
            } + rest));
        }
    }
    assert(texts(lines@) + Seq::<Seq<char>>::empty() =~= texts(lines@));
    lines
}

/// Runs the source text of a file: `Err` with the report of its parse
/// errors when there are any, else `Ok` with what running it prints.
pub fn run_source(content: &str) -> (r: Result<Vec<String>, Vec<String>>)
    requires
        parse_source(encode_utf8(content@)).1.len() == 0 ==> run_from(
            parse_source(encode_utf8(content@)).0,
            0,
            env_empty(),
        ) is Some,
    ensures
        match r {
            Ok(lines) => parse_source(encode_utf8(content@)).1.len() == 0 && run_from(
                parse_source(encode_utf8(content@)).0,
                0,
                env_empty(),
            ) == Some(texts(lines@)),
            Err(lines) => parse_source(encode_utf8(content@)).1.len() > 0 && texts(lines@)
                == file_error_lines(parse_source(encode_utf8(content@)).1),
        },
{
    let lexer = Lexer::new(content);
    let mut parser = Parser::new(lexer);
    let program = parser.parse_program();
    let errors = parser.error_list();
    if errors.len() > 0 {
        return Err(file_error_report(errors));
    }
    Ok(run_program(&program))
}

} // verus!
