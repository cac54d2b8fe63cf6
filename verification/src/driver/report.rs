//! What checking one source file comes to.

use vstd::prelude::*;
use vstd::string::*;

use crate::ast::Program;
use crate::diagnostics::error::{all_showable, render, report_text, views_of, Error};
use crate::diagnostics::informer::{notes_text, told, Informer, InformerView};
use crate::diagnostics::position::{lines_in, showable, SourceFile};
use crate::sema::check::{check as typecheck, errors_of};
use crate::sema::typing::program_checked;
use crate::text::{cat2, cat5, cat7, nat_text, usize_text};

verus! {

#[derive(Debug)]
pub struct Report {
    pub source: SourceFile,
    pub errors: Vec<Error>,
    pub informer: Informer,
    pub program: Program,
}

/// What the lexer made of a file.
#[derive(Debug)]
pub struct Lexed {
    pub tokens: usize,
    pub errors: Vec<Error>,
    /// How long it took, in words.
    pub time: String,
}

/// What the parser made of the tokens.
#[derive(Debug)]
pub struct Parsed {
    pub program: Program,
    pub errors: Vec<Error>,
    /// How long it took, in words.
    pub time: String,
}

pub open spec fn ending(n: nat) -> Seq<char> {
    if n == 1 {
        ""@
    } else {
        "s"@
    }
}

pub open spec fn lexed_note(lines: nat, tokens: nat, time: Seq<char>) -> Seq<char> {
    "lexed "@ + nat_text(lines) + " line"@ + ending(lines) + " into "@ + nat_text(tokens) + " tokens in "@ + time
}

pub open spec fn parsed_note(statements: nat, time: Seq<char>) -> Seq<char> {
    "parsed "@ + nat_text(statements) + " statement"@ + ending(statements) + " in "@ + time
}

/// What the informer has been told by the time a file has been parsed.
pub open spec fn front_notes(source: SourceFile, lexed: Lexed, parsed: Parsed) -> InformerView {
    told(
        told(
            InformerView { notes: Seq::empty(), enabled: true },
            None,
            lexed_note(lines_in(source.content()), lexed.tokens as nat, lexed.time@),
        ),
        None,
        parsed_note(parsed.program.statements@.len(), parsed.time@),
    )
}

fn plural(n: usize) -> (r: &'static str)
    ensures
        r@ == ending(n as nat),
{
    if n == 1 {
        ""
    } else {
        "s"
    }
}

/// The errors of two passes, one behind the other.
fn joined(first: Vec<Error>, second: Vec<Error>) -> (r: Vec<Error>)
    ensures
        r@ == first@ + second@,
{
    let mut out: Vec<Error> = first;
    let mut more: Vec<Error> = second;
    out.append(&mut more);
    out
}

impl Report {
    /// What lexing and parsing come to, before types are checked.
    pub fn parsed(source: SourceFile, lexed: Lexed, parsed: Parsed) -> (r: Report)
        ensures
            r.source == source,
            r.errors@ == lexed.errors@ + parsed.errors@,
            r.informer@ == front_notes(source, lexed, parsed),
            r.program == parsed.program,
    {
        let mut informer: Informer = Informer::new();
        let lines: usize = source.line_count();
        informer.say_global(
            cat7(
                "lexed ",
                usize_text(lines).as_str(),
                " line",
                plural(lines),
                " into ",
                usize_text(lexed.tokens).as_str(),
                " tokens in ",
            ).concat(lexed.time.as_str()),
        );
        let n: usize = parsed.program.statements.len();
        informer.say_global(
            cat5("parsed ", usize_text(n).as_str(), " statement", plural(n), " in ").concat(parsed.time.as_str()),
        );
        Report { source, errors: joined(lexed.errors, parsed.errors), informer, program: parsed.program }
    }

    /// Check types, and say whether that was done.
    ///
    /// Type checking only runs on a program the parser could make sense of; otherwise it
    /// would report a cascade of consequences rather than causes.
    pub fn typecheck(&mut self) -> (r: bool)
        ensures
            r == (old(self).errors@.len() == 0),
            !r ==> *final(self) == *old(self),
            r ==> {
                &&& errors_of(final(self).errors@) == program_checked(old(self).program, old(self).informer@).errors
                &&& final(self).informer@ == program_checked(old(self).program, old(self).informer@).informer
            },
            final(self).source == old(self).source,
            final(self).program == old(self).program,
    {
        if self.errors.len() > 0 {
            return false;
        }
        let checked: crate::sema::check::Checked = typecheck(&self.program, &mut self.informer);
        self.errors = checked.errors;
        true
    }

    /// Note how long the type check took.
    pub fn note_check_time(&mut self, time: &str)
        ensures
            final(self).informer@ == told(old(self).informer@, None, "type-checked in "@ + time@),
            final(self).errors == old(self).errors,
            final(self).source == old(self).source,
            final(self).program == old(self).program,
    {
        self.informer.say_global(cat2("type-checked in ", time));
    }

    pub fn ok(&self) -> (r: bool)
        ensures
            r == (self.errors@.len() == 0),
    {
        self.errors.len() == 0
    }

    /// The Error Handler's rendering, or empty when nothing is wrong.
    pub fn errors_text(&self) -> (r: String)
        requires
            all_showable(self.source.content(), self.errors@),
        ensures
            r@ == report_text(self.source.title(), self.source.content(), views_of(self.errors@)),
    {
        render(&self.source, self.errors.as_slice())
    }

    pub fn informer_text(&self) -> (r: String)
        requires
            forall|i: int|
                0 <= i < self.informer@.notes.len() ==> ((#[trigger] self.informer@.notes[i]).at matches Some(p)
                    ==> showable(self.source.content(), p.0 as int)),
        ensures
            r@ == notes_text(self.source.title(), self.source.content(), self.informer@.notes),
    {
        self.informer.render(&self.source)
    }
}

} // verus!
