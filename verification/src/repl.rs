//! One turn of the interactive session: a line of source goes in, the lines
//! to show come out, and the session's program moves on.
use crate::ast::{texts, Parser};
use crate::eval::is_error;
use crate::grammar::program;
use crate::lexer::{all_tokens, Lexer};
use crate::program::Program;
use crate::semantics::{is_failure, run};
use crate::types::{Object, ObjectView};
use vstd::prelude::*;

verus! {

/// The interactive session's front: it knows the prompt, and what to show
/// for each line that is entered.
pub struct REPL {
    prompt: String,
}

/// The lines to show after a turn: the parser's diagnostic, if the line did
/// not parse to its end, and then the printable form of the turn's value,
/// unless there is no value or the value is null.
pub open spec fn report(failure: Option<Seq<char>>, value: Option<ObjectView>) -> Seq<Seq<char>> {
    let diagnostics = match failure {
        Some(message) => seq![message],
        None => Seq::empty(),
    };
    match value {
        Some(object) => if object is Null {
            diagnostics
        } else {
            diagnostics.push(object.inspect())
        },
        None => diagnostics,
    }
}

impl REPL {
    /// The prompt's text.
    pub closed spec fn text(&self) -> Seq<char> {
        self.prompt@
    }

    /// A session front that shows `prompt` before each line.
    pub fn new(prompt: String) -> (repl: REPL)
        ensures
            repl.text() == prompt@,
    {
        REPL { prompt }
    }

    /// The prompt.
    pub fn prompt(&self) -> (prompt: &String)
        ensures
            prompt@ == self.text(),
    {
        &self.prompt
    }

    /// One turn. The statements of `line` are added to `program`, which
    /// then evaluates what it has not done yet. When that ends in an error,
    /// the statements that were not done are dropped again, so that the next
    /// turn starts from the environment as the last good statement left it.
    pub fn feed(&self, program: &mut Program, line: String) -> (output: Vec<String>)
        ensures
            ({
                let outline = crate::grammar::program(all_tokens(line@, 0), 0, Seq::empty());
                let statements = old(program).nodes() + outline.statements;
                let r = run(
                    statements,
                    old(program).position(),
                    old(program).bindings(),
                    old(program).call_depth(),
                    None,
                );
                &&& texts(output@) == report(outline.failure, r.value)
                &&& final(program).call_depth() == old(program).call_depth()
                &&& final(program).bindings() == r.env
                &&& final(program).position() == r.position
                &&& final(program).nodes() == if is_failure(r.value) && r.position
                    <= statements.len() {
                    statements.take(r.position)
                } else {
                    statements
                }
            }),
    {
        let lexer = Lexer::new(line);
        let mut parser = Parser::new(lexer);
        let statements = parser.parse();
        program.extend(statements);
        let result = program.eval();
        let mut output: Vec<String> = Vec::new();
        let errors = parser.errors();
        let mut i: usize = 0;
        proof {
            assert(texts(output@) =~= texts(errors@).take(0));
        }
        while i < errors.len()
            invariant
                i <= errors.len(),
                output.len() == i,
                texts(output@) == texts(errors@).take(i as int),
            decreases errors.len() - i,
        {
            proof {
                let longer = output@.push(errors[i as int]);
                assert forall|k: int| 0 <= k < longer.len() implies texts(longer)[k] == texts(
                    errors@,
                ).take(i + 1)[k] by {
                    if k < i {
                        assert(texts(output@)[k] == texts(errors@).take(i as int)[k]);
                    }
                }
                assert(texts(longer) =~= texts(errors@).take(i + 1));
            }
            output.push(errors[i].clone());
            i += 1;
        }
        proof {
            assert(texts(errors@).take(i as int) =~= texts(errors@));
        }
        match &result {
            Some(Object::Null(_)) => {},
            Some(object) => {
                let shown = object.inspect();
                proof {
                    assert(texts(output@.push(shown)) =~= texts(output@).push(shown@));
                }
                output.push(shown);
            },
            None => {},
        }
        if is_error(result.as_ref()) {
            program.walk_back_error();
        }
        output
    }
}

} // verus!
