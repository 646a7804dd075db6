//! The read-eval-print loop: what it answers to one line of input.
//!
//! Reading lines and writing answers is left to the caller; this module
//! decides, for each line and the environment that the session has built up,
//! which lines to write and what the environment becomes.
use vstd::prelude::*;
use vstd::utf8::encode_utf8;
use crate::environment::{Environment, SEnv, env_wf};
use crate::evaluator::{eval_program, program_result};
use crate::lexer::Lexer;
use crate::object::{Object, SObject, inspect};
use crate::parser::{Parser, parse_source, texts};
use crate::ast::{SStmt, Statement, lemma_stmts_view};
use crate::text::push_str;

verus! {

broadcast use vstd::std_specs::vec::group_vec_axioms, vstd::seq::group_seq_axioms;

/// The prompt written before each line is read.
pub fn prompt() -> (r: &'static str)
    ensures
        r@ == ">> "@,
{
    ">> "
}

/// `s` without the line breaks (`\n` and `\r`) at its end.
pub open spec fn trim_line_end(s: Seq<char>) -> Seq<char>
    decreases s.len(),
{
    if s.len() > 0 && (s.last() == '\n' || s.last() == '\r') {
        trim_line_end(s.drop_last())
    } else {
        s
    }
}

/// Removes the line breaks at the end of `line`.
pub fn trim_line_breaks(line: &str) -> (r: &str)
    ensures
        r@ == trim_line_end(line@),
{
    let mut n = line.unicode_len();
    assert(line@.subrange(0, n as int) =~= line@);
    while n > 0 && (line.get_char(n - 1) == '\n' || line.get_char(n - 1) == '\r')
        invariant
            n <= line@.len(),
            trim_line_end(line@.subrange(0, n as int)) == trim_line_end(line@),
        decreases n,
    {
        assert(line@.subrange(0, n as int).drop_last() =~= line@.subrange(0, n - 1));
        n = n - 1;
    }
    line.substring_char(0, n)
}

/// The lines that report parse errors.
pub open spec fn parse_error_lines(errors: Seq<Seq<char>>) -> Seq<Seq<char>> {
    seq!["Error"@, " parser errors:"@] + errors.map_values(|m: Seq<char>| "\t"@ + m)
}

/// Whether the last statement of `ss` is a `let`.
pub open spec fn ends_in_let(ss: Seq<SStmt>) -> bool {
    ss.len() > 0 && ss.last() is Let
}

/// The REPL's answer to `line` in `env`: the lines to write and the
/// environment after it. A line with parse errors gets them reported and
/// leaves the environment as it was; any other line is evaluated as a
/// program and its value is shown, `null` included, except that a line ending
/// in a `let` that gives `null` shows nothing. `None` when evaluation does not
/// finish normally.
pub open spec fn answer(line: Seq<char>, env: SEnv) -> Option<(Seq<Seq<char>>, SEnv)> {
    let parsed = parse_source(encode_utf8(trim_line_end(line)));
    if parsed.1.len() > 0 {
        Some((parse_error_lines(parsed.1), env))
    } else {
        match program_result(parsed.0, env) {
            Some((v, env1)) => if v == SObject::Null && ends_in_let(parsed.0) {
                Some((Seq::empty(), env1))
            } else {
                Some((seq![inspect(v)], env1))
            },
            None => None,
        }
    }
}

/// The REPL shows every value but one kind of `null`: a line that parses
/// without errors and finishes shows exactly one line, the text of its value
/// (`false` and `null` included), unless the line ends in a `let` and its
/// value is `null`, which shows nothing; a line with parse errors is
/// answered with their report and leaves the environment unchanged.
pub proof fn lemma_repl_shows_values(line: Seq<char>, env: SEnv)
    ensures
        ({
            let parsed = parse_source(encode_utf8(trim_line_end(line)));
            &&& parsed.1.len() > 0 ==> answer(line, env) == Some((parse_error_lines(parsed.1), env))
            &&& parsed.1.len() == 0 ==> match program_result(parsed.0, env) {
                Some((v, env1)) => {
                    &&& (v != SObject::Null || !(parsed.0.len() > 0 && parsed.0.last() is Let))
                        ==> answer(line, env) == Some((seq![inspect(v)], env1))
                    &&& (v == SObject::Null && parsed.0.len() > 0 && parsed.0.last() is Let)
                        ==> answer(line, env) == Some((Seq::<Seq<char>>::empty(), env1))
                },
                None => answer(line, env) is None,
            }
        }),
{
}

/// Reports parse errors under a heading, one tab-indented line each.
pub fn error_report(errors: &Vec<String>) -> (out: Vec<String>)
    ensures
        texts(out@) == parse_error_lines(texts(errors@)),
{
    let mut out: Vec<String> = Vec::new();
    out.push(String::from_str("Error"));
    out.push(String::from_str(" parser errors:"));
    let mut i: usize = 0;
    while i < errors.len()
        invariant
            i <= errors.len(),
            texts(out@) == seq!["Error"@, " parser errors:"@] + texts(errors@).take(i as int).map_values(
                |m: Seq<char>| "\t"@ + m,
            ),
        decreases errors.len() - i,
    {
        let mut l = String::from_str("\t");
        push_str(&mut l, errors[i].as_str());
        proof {
            assert(texts(out@.push(l)) =~= texts(out@).push(l@));
            assert(texts(errors@).take(i + 1) =~= texts(errors@).take(i as int).push(errors@[i as int]@));
        }
        out.push(l);
        i = i + 1;
        proof {
            assert(texts(out@) =~= seq!["Error"@, " parser errors:"@] + texts(errors@).take(
                i as int,
            ).map_values(|m: Seq<char>| "\t"@ + m));
        }
    }
    assert(texts(errors@).take(i as int) =~= texts(errors@));
    out
}

/// Answers one line of REPL input in `env`. Lines that `print` writes while
/// the line is evaluated are left in `env`'s output.
pub fn respond(line: &str, env: &mut Environment) -> (out: Vec<String>)
    requires
        answer(line@, old(env)@) is Some,
    ensures
        answer(line@, old(env)@) == Some((texts(out@), final(env)@)),
        env_wf(old(env)@) ==> env_wf(final(env)@),
{
    let text = trim_line_breaks(line);
    let lexer = Lexer::new(text);
    let mut parser = Parser::new(lexer);
    let program = parser.parse_program();
    let errors = parser.error_list();
    if errors.len() > 0 {
        return error_report(errors);
    }
    let n = program.statements.len();
    proof {
        lemma_stmts_view(program.statements@);
    }
    let last_is_let = n > 0 && match &program.statements[n - 1] {
        Statement::Let(_) => true,
        _ => false,
    };
    assert(last_is_let == ends_in_let(program@));
    let value = eval_program(&program, env);
    let is_null = match value {
        Object::Null => true,
        _ => false,
    };
    let mut out: Vec<String> = Vec::new();
    if is_null && last_is_let {
        assert(texts(out@) =~= Seq::<Seq<char>>::empty());
    } else {
        out.push(value.inspect());
        assert(texts(out@) =~= seq![inspect(value@)]);
    }
    out
}

} // verus!
