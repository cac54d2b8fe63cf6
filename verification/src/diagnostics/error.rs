//! The AHPCL Error Handler.
//!
//! Grammar varies with the count: one error says "there's something wrong" and is not
//! numbered; two or more say "there are some things wrong" and are numbered
//! `Error 1 of 3`.

use vstd::prelude::*;
use vstd::string::*;

use crate::diagnostics::position::{
    bytes_of, caret_cells, line_number, lines_in, position_of, showable, span_showable, text_of_line, LineCol,
    SourceFile, Span,
};
use crate::text::{
    cat4, chars_of, copies, digits_value, is_space, lemma_digits_concat, lemma_digits_round_trip, nat_text,
    repeated, same_text, usize_text,
};

verus! {

/// The category half of an error code, e.g. the `LEX` in `AHPCL-LEX-0001`.
#[derive(Debug, Clone, Copy, PartialEq, Eq, Structural)]
pub enum Category {
    Lex,
    /// Parse errors: a well-formed token stream that is not a well-formed program.
    Syn,
    Type,
    Prec,
    Sign,
    Shape,
    Name,
    Run,
}

pub open spec fn category_text(c: Category) -> Seq<char> {
    match c {
        Category::Lex => "LEX"@,
        Category::Syn => "SYN"@,
        Category::Type => "TYPE"@,
        Category::Prec => "PREC"@,
        Category::Sign => "SIGN"@,
        Category::Shape => "SHAPE"@,
        Category::Name => "NAME"@,
        Category::Run => "RUN"@,
    }
}

impl Category {
    fn as_str(self) -> (r: &'static str)
        ensures
            r@ == category_text(self),
    {
        match self {
            Category::Lex => "LEX",
            Category::Syn => "SYN",
            Category::Type => "TYPE",
            Category::Prec => "PREC",
            Category::Sign => "SIGN",
            Category::Shape => "SHAPE",
            Category::Name => "NAME",
            Category::Run => "RUN",
        }
    }
}

/// An error code. Codes are never reused, so the list only grows.
#[derive(Debug, Clone, Copy, PartialEq, Eq, Structural)]
pub struct Code {
    pub category: Category,
    pub number: u16,
}

/// A number with zeros in front of it, four digits wide where it has fewer.
pub open spec fn four_digits(n: nat) -> Seq<char> {
    let t = nat_text(n);
    if t.len() < 4 {
        copies('0', (4 - t.len()) as nat) + t
    } else {
        t
    }
}

pub open spec fn code_text(c: Code) -> Seq<char> {
    "AHPCL-"@ + category_text(c.category) + "-"@ + four_digits(c.number as nat)
}

impl Code {
    pub fn new(category: Category, number: u16) -> (r: Self)
        ensures
            r == (Code { category, number }),
    {
        Code { category, number }
    }

    pub fn render(&self) -> (r: String)
        ensures
            r@ == code_text(*self),
    {
        let digits: String = usize_text(self.number as usize);
        let n: usize = digits.as_str().unicode_len();
        if n < 4 {
            let mut padded: String = repeated('0', 4 - n);
            padded.append(digits.as_str());
            cat4("AHPCL-", self.category.as_str(), "-", padded.as_str())
        } else {
            cat4("AHPCL-", self.category.as_str(), "-", digits.as_str())
        }
    }
}

/// A number read back from the digits it is padded to.
proof fn lemma_four_digits(n: nat)
    ensures
        digits_value(four_digits(n)) == n,
{
    let t = nat_text(n);
    lemma_digits_round_trip(n);
    if t.len() < 4 {
        let zeros = copies('0', (4 - t.len()) as nat);
        lemma_zeros((4 - t.len()) as nat);
        lemma_digits_concat(zeros, t);
    }
}

proof fn lemma_zeros(n: nat)
    ensures
        digits_value(copies('0', n)) == 0,
    decreases n,
{
    if n > 0 {
        assert(copies('0', n).drop_last() =~= copies('0', (n - 1) as nat));
        lemma_zeros((n - 1) as nat);
    }
}

/// Codes that render alike are the same code.
pub proof fn codes_render_alike_only_where_equal(a: Code, b: Code)
    requires
        code_text(a) == code_text(b),
    ensures
        a == b,
{
    reveal_strlit("AHPCL-");
    reveal_strlit("-");
    reveal_strlit("LEX");
    reveal_strlit("SYN");
    reveal_strlit("TYPE");
    reveal_strlit("PREC");
    reveal_strlit("SIGN");
    reveal_strlit("SHAPE");
    reveal_strlit("NAME");
    reveal_strlit("RUN");
    let s = code_text(a);
    let k = category_text(a.category);
    let j = category_text(b.category);
    assert(s[6] == k[0] && s[6] == j[0]);
    assert(s[7] == k[1] && s[7] == j[1]);
    assert(a.category == b.category);
    let x = four_digits(a.number as nat);
    let y = four_digits(b.number as nat);
    assert(s.skip(7 + k.len() as int) =~= x);
    assert(s.skip(7 + k.len() as int) =~= y);
    lemma_four_digits(a.number as nat);
    lemma_four_digits(b.number as nat);
}

/// One place an error points at, with its own note.
///
/// Most AHPCL errors are about *relationships*, a refinement promised in one place and
/// broken in another, so an error carries a list of these, not just one.
#[derive(Debug, Clone)]
pub struct Label {
    pub span: Span,
    pub note: String,
}

/// A label, its note taken as text.
pub struct LabelView {
    pub span: Span,
    pub note: Seq<char>,
}

impl View for Label {
    type V = LabelView;

    open spec fn view(&self) -> LabelView {
        LabelView { span: self.span, note: self.note@ }
    }
}

impl Label {
    pub fn new(span: Span, note: String) -> (r: Self)
        ensures
            r@ == (LabelView { span, note: note@ }),
    {
        Label { span, note }
    }
}

#[derive(Debug, Clone)]
pub struct Error {
    pub code: Code,
    /// The primary location, named in the header fields.
    pub primary: Span,
    pub labels: Vec<Label>,
    pub what_went_wrong: String,
    pub suggest_fix: String,
}

/// An error, its texts taken as text.
pub struct ErrorView {
    pub code: Code,
    pub primary: Span,
    pub labels: Seq<LabelView>,
    pub what_went_wrong: Seq<char>,
    pub suggest_fix: Seq<char>,
}

pub open spec fn label_views(labels: Seq<Label>) -> Seq<LabelView> {
    Seq::new(labels.len(), |i: int| labels[i]@)
}

impl View for Error {
    type V = ErrorView;

    open spec fn view(&self) -> ErrorView {
        ErrorView {
            code: self.code,
            primary: self.primary,
            labels: label_views(self.labels@),
            what_went_wrong: self.what_went_wrong@,
            suggest_fix: self.suggest_fix@,
        }
    }
}

/// An error with nothing labelled.
pub open spec fn plain_error(code: Code, primary: Span, what: Seq<char>, fix: Seq<char>) -> ErrorView {
    ErrorView { code, primary, labels: Seq::empty(), what_went_wrong: what, suggest_fix: fix }
}

/// The same error with one more place to point at.
pub open spec fn labelled(e: ErrorView, span: Span, note: Seq<char>) -> ErrorView {
    ErrorView { labels: e.labels.push(LabelView { span, note }), ..e }
}

/// An error with nothing labelled, its code spelled out.
pub open spec fn fault_view(category: Category, number: u16, span: Span, what: Seq<char>, fix: Seq<char>) -> ErrorView {
    plain_error(Code { category, number }, span, what, fix)
}

pub fn fault(category: Category, number: u16, span: Span, what: String, fix: &str) -> (r: Error)
    ensures
        r@ == fault_view(category, number, span, what@, fix@),
{
    Error::new(Code::new(category, number), span, what, fix.to_owned())
}

impl Error {
    pub fn new(code: Code, primary: Span, what_went_wrong: String, suggest_fix: String) -> (r: Self)
        ensures
            r@ == plain_error(code, primary, what_went_wrong@, suggest_fix@),
    {
        let e: Error = Error { code, primary, labels: Vec::new(), what_went_wrong, suggest_fix };
        assert(label_views(e.labels@) =~= Seq::empty());
        e
    }

    pub fn with_label(self, span: Span, note: String) -> (r: Self)
        ensures
            r@ == labelled(self@, span, note@),
    {
        let mut e: Error = self;
        e.labels.push(Label::new(span, note));
        assert(e@.labels =~= self@.labels.push(LabelView { span, note: note@ }));
        e
    }
}

// ── rules ───────────────────────────────────────────────────────────────────

/// The rule an error code enforces, stated so that a reader learns it.
#[verifier::opaque]
pub open spec fn rule_text(code: Code) -> Option<Seq<char>> {
    if code.category == Category::Lex && code.number == 1 {
        Some("a `#N` comment covers N lines, and cannot run past the end of the file."@)
    } else if code.category == Category::Lex && code.number == 2 {
        Some("a quoted name or string must be closed on the line it opens."@)
    } else if code.category == Category::Lex && code.number == 3 {
        Some("after `\\`, only a delimiter or another `\\` may follow."@)
    } else if code.category == Category::Lex && code.number == 4 {
        Some("source is Unicode, but only the characters the language defines may appear                      outside a string. Lookalikes are not the character they resemble."@)
    } else if code.category == Category::Lex && code.number == 5 {
        Some("a bare number is legal only inside `math { }`; elsewhere a value is quoted."@)
    } else if code.category == Category::Syn && code.number == 1 {
        Some("every construct has one written form, and the parser accepts only that form."@)
    } else if code.category == Category::Syn && code.number == 2 {
        Some("`handback` ends the block that produced the value, so nothing after it in                      that block can run."@)
    } else if code.category == Category::Type && code.number == 1 {
        Some("a value's type comes from the context that receives it. Where nothing                       pins it, the type is not decided and the program must say."@)
    } else if code.category == Category::Type && code.number == 2 {
        Some("a narrower type passes into a wider one, never the reverse: `int` into                       `deci` into `rat` into `num`."@)
    } else if code.category == Category::Type && code.number == 3 {
        Some("arithmetic applies to numbers. Text and truth values have their own                       operations."@)
    } else if code.category == Category::Type && code.number == 4 {
        Some("the type restated in `change:` is checked against the declaration,                       because documentation that can drift is worse than none."@)
    } else if code.category == Category::Type && code.number == 5 {
        Some("a declaration gives a value. Nothing can be read before it is written, so                       there is no unset state and no silent zero."@)
    } else if code.category == Category::Type && code.number == 7 {
        Some("a conditional used for its value must hand one back on every path, including the else — there is no value for a path that produces nothing."@)
    } else if code.category == Category::Type && code.number == 6 {
        Some("naming one array as another could copy it or share it, and AHPCL has no                       syntax for either. Where the program has not said which, the compiler                       does not choose."@)
    } else if code.category == Category::Type && code.number == 10 {
        Some("a type is one of the names the language defines."@)
    } else if code.category == Category::Prec && code.number == 1 {
        Some("a width must be knowable when the program is compiled. A value read from                       input is not, so its width is stated rather than inferred."@)
    } else if code.category == Category::Prec && code.number == 2 {
        Some("`infnum` is unbounded, so a bit width would contradict it. It takes                       digits instead."@)
    } else if code.category == Category::Prec && code.number == 3 {
        Some("decimal widths follow IEEE 754: 32, 64 or 128 bits."@)
    } else if code.category == Category::Prec && code.number == 4 {
        Some("a value must fit the width it is given, and an irrational is computed                       only as far as AHPCL knows it. Overflow is an error, never a wrap, and                       excess precision is an error, never a silent approximation."@)
    } else if code.category == Category::Prec && code.number == 5 {
        Some("integer widths are 8, 16, 32, 64 or 128 bits."@)
    } else if code.category == Category::Prec && code.number == 10 {
        Some("precision is written `[N bit]` or `[N digits]`."@)
    } else if code.category == Category::Sign && code.number == 1 {
        Some("a `+` or `-` prefix is a promise about every value the variable holds,                       checked wherever one is assigned."@)
    } else if code.category == Category::Sign && code.number == 2 {
        Some("a loop counter belongs to its loop and cannot be assigned inside the body."@)
    } else if code.category == Category::Sign && code.number == 3 {
        Some("a sign prefix must be *proved*, not assumed. Where range analysis cannot                       show it holds, the program says so or drops the prefix."@)
    } else if code.category == Category::Sign && code.number == 4 {
        Some("a `+` or `-` prefix holds at run time as well as compile time."@)
    } else if code.category == Category::Shape && code.number == 1 {
        Some("an operation between arrays needs shapes that agree, and the rule for                        agreeing is the operation's own."@)
    } else if code.category == Category::Shape && code.number == 2 {
        Some("the rank name and the written shape describe the same array, so they                        must say the same thing: `vector` one dimension, `matrix` two, `tensor`                        three or more."@)
    } else if code.category == Category::Shape && code.number == 3 {
        Some("a value's shape is the shape the variable receiving it was declared to have."@)
    } else if code.category == Category::Shape && code.number == 10 {
        Some("a shape is a list of dimensions, each a whole number or `?`."@)
    } else if code.category == Category::Name && code.number == 1 {
        Some("a name is declared before it is read, in a scope that is still open."@)
    } else if code.category == Category::Name && code.number == 2 {
        Some("a function is declared before it is called."@)
    } else if code.category == Category::Name && code.number == 3 {
        Some("a call passes exactly as many arguments as the function declares."@)
    } else if code.category == Category::Run && code.number == 1 {
        Some("what a program does at run time must still obey the language's rules."@)
    } else if code.category == Category::Run && code.number == 2 {
        Some("division by zero has no value, so it stops rather than inventing one."@)
    } else if code.category == Category::Run && code.number == 3 {
        Some("an index falls inside the array, and the first element is 1."@)
    } else if code.category == Category::Run && code.number == 4 {
        Some("`parse` is strict: text becomes a number only in the forms asked for."@)
    } else {
        None
    }
}

/// The rule an error code enforces, stated once so a reader learns it.
///
/// Written by hand rather than generated from the checker. The checker's own condition is
/// something like `sign_fits(got, want)`: true, and useless to anyone trying to find out
/// what AHPCL will and will not accept.
pub fn rule_conditions(code: Code) -> (r: Option<&'static str>)
    ensures
        match r {
            Some(t) => rule_text(code) == Some(t@),
            None => rule_text(code) is None,
        },
{
    reveal(rule_text);
    if code.category == Category::Lex && code.number == 1 {
        Some("a `#N` comment covers N lines, and cannot run past the end of the file.")
    } else if code.category == Category::Lex && code.number == 2 {
        Some("a quoted name or string must be closed on the line it opens.")
    } else if code.category == Category::Lex && code.number == 3 {
        Some("after `\\`, only a delimiter or another `\\` may follow.")
    } else if code.category == Category::Lex && code.number == 4 {
        Some("source is Unicode, but only the characters the language defines may appear                      outside a string. Lookalikes are not the character they resemble.")
    } else if code.category == Category::Lex && code.number == 5 {
        Some("a bare number is legal only inside `math { }`; elsewhere a value is quoted.")
    } else if code.category == Category::Syn && code.number == 1 {
        Some("every construct has one written form, and the parser accepts only that form.")
    } else if code.category == Category::Syn && code.number == 2 {
        Some("`handback` ends the block that produced the value, so nothing after it in                      that block can run.")
    } else if code.category == Category::Type && code.number == 1 {
        Some("a value's type comes from the context that receives it. Where nothing                       pins it, the type is not decided and the program must say.")
    } else if code.category == Category::Type && code.number == 2 {
        Some("a narrower type passes into a wider one, never the reverse: `int` into                       `deci` into `rat` into `num`.")
    } else if code.category == Category::Type && code.number == 3 {
        Some("arithmetic applies to numbers. Text and truth values have their own                       operations.")
    } else if code.category == Category::Type && code.number == 4 {
        Some("the type restated in `change:` is checked against the declaration,                       because documentation that can drift is worse than none.")
    } else if code.category == Category::Type && code.number == 5 {
        Some("a declaration gives a value. Nothing can be read before it is written, so                       there is no unset state and no silent zero.")
    } else if code.category == Category::Type && code.number == 7 {
        Some("a conditional used for its value must hand one back on every path, including the else — there is no value for a path that produces nothing.")
    } else if code.category == Category::Type && code.number == 6 {
        Some("naming one array as another could copy it or share it, and AHPCL has no                       syntax for either. Where the program has not said which, the compiler                       does not choose.")
    } else if code.category == Category::Type && code.number == 10 {
        Some("a type is one of the names the language defines.")
    } else if code.category == Category::Prec && code.number == 1 {
        Some("a width must be knowable when the program is compiled. A value read from                       input is not, so its width is stated rather than inferred.")
    } else if code.category == Category::Prec && code.number == 2 {
        Some("`infnum` is unbounded, so a bit width would contradict it. It takes                       digits instead.")
    } else if code.category == Category::Prec && code.number == 3 {
        Some("decimal widths follow IEEE 754: 32, 64 or 128 bits.")
    } else if code.category == Category::Prec && code.number == 4 {
        Some("a value must fit the width it is given, and an irrational is computed                       only as far as AHPCL knows it. Overflow is an error, never a wrap, and                       excess precision is an error, never a silent approximation.")
    } else if code.category == Category::Prec && code.number == 5 {
        Some("integer widths are 8, 16, 32, 64 or 128 bits.")
    } else if code.category == Category::Prec && code.number == 10 {
        Some("precision is written `[N bit]` or `[N digits]`.")
    } else if code.category == Category::Sign && code.number == 1 {
        Some("a `+` or `-` prefix is a promise about every value the variable holds,                       checked wherever one is assigned.")
    } else if code.category == Category::Sign && code.number == 2 {
        Some("a loop counter belongs to its loop and cannot be assigned inside the body.")
    } else if code.category == Category::Sign && code.number == 3 {
        Some("a sign prefix must be *proved*, not assumed. Where range analysis cannot                       show it holds, the program says so or drops the prefix.")
    } else if code.category == Category::Sign && code.number == 4 {
        Some("a `+` or `-` prefix holds at run time as well as compile time.")
    } else if code.category == Category::Shape && code.number == 1 {
        Some("an operation between arrays needs shapes that agree, and the rule for                        agreeing is the operation's own.")
    } else if code.category == Category::Shape && code.number == 2 {
        Some("the rank name and the written shape describe the same array, so they                        must say the same thing: `vector` one dimension, `matrix` two, `tensor`                        three or more.")
    } else if code.category == Category::Shape && code.number == 3 {
        Some("a value's shape is the shape the variable receiving it was declared to have.")
    } else if code.category == Category::Shape && code.number == 10 {
        Some("a shape is a list of dimensions, each a whole number or `?`.")
    } else if code.category == Category::Name && code.number == 1 {
        Some("a name is declared before it is read, in a scope that is still open.")
    } else if code.category == Category::Name && code.number == 2 {
        Some("a function is declared before it is called.")
    } else if code.category == Category::Name && code.number == 3 {
        Some("a call passes exactly as many arguments as the function declares.")
    } else if code.category == Category::Run && code.number == 1 {
        Some("what a program does at run time must still obey the language's rules.")
    } else if code.category == Category::Run && code.number == 2 {
        Some("division by zero has no value, so it stops rather than inventing one.")
    } else if code.category == Category::Run && code.number == 3 {
        Some("an index falls inside the array, and the first element is 1.")
    } else if code.category == Category::Run && code.number == 4 {
        Some("`parse` is strict: text becomes a number only in the forms asked for.")
    } else {
        None
    }
}

/// The words among the first `n` characters, and the one that has been begun.
pub open spec fn words_upto(s: Seq<char>, n: nat) -> (Seq<Seq<char>>, Seq<char>)
    decreases n,
{
    if n == 0 {
        (Seq::empty(), Seq::empty())
    } else {
        let (done, begun) = words_upto(s, (n - 1) as nat);
        if is_space(s[n - 1]) {
            (
                if begun.len() > 0 {
                    done.push(begun)
                } else {
                    done
                },
                Seq::empty(),
            )
        } else {
            (done, begun.push(s[n - 1]))
        }
    }
}

/// The words of a text: what stands between white space.
pub open spec fn words_of(s: Seq<char>) -> Seq<Seq<char>> {
    let (done, begun) = words_upto(s, s.len());
    if begun.len() > 0 {
        done.push(begun)
    } else {
        done
    }
}

/// How far a word reaches, in bytes.
pub open spec fn word_width(w: Seq<char>) -> nat {
    bytes_of(w).len()
}

/// Words put behind `out`, the last line of which has reached `column`; a word that would
/// pass the width starts a line of its own, under the label.
pub open spec fn wrapped_from(
    words: Seq<Seq<char>>,
    i: nat,
    label_width: nat,
    width: nat,
    column: nat,
    out: Seq<char>,
) -> Seq<char>
    decreases words.len() - i,
{
    if i >= words.len() {
        out
    } else {
        let w = words[i as int];
        let fresh = column <= label_width;
        if !fresh && column + 1 + word_width(w) > width {
            wrapped_from(
                words,
                i + 1,
                label_width,
                width,
                label_width + word_width(w),
                out + "\n"@ + copies(' ', label_width) + w,
            )
        } else if !fresh {
            wrapped_from(words, i + 1, label_width, width, column + 1 + word_width(w), out + " "@ + w)
        } else {
            wrapped_from(words, i + 1, label_width, width, column + word_width(w), out + w)
        }
    }
}

#[verifier::opaque]
pub open spec fn wrapped(text: Seq<char>, label_width: nat, width: nat) -> Seq<char> {
    wrapped_from(words_of(text), 0, label_width, width, label_width, Seq::empty())
}

pub open spec fn string_texts(v: Seq<String>) -> Seq<Seq<char>> {
    Seq::new(v.len(), |i: int| v[i]@)
}

fn split_words(text: &str) -> (r: Vec<String>)
    ensures
        string_texts(r@) == words_of(text@),
{
    let t: Vec<char> = chars_of(text);
    let mut out: Vec<String> = Vec::new();
    let mut begun: String = String::new();
    let mut i: usize = 0;
    let mut started: bool = false;
    assert(string_texts(out@) =~= Seq::empty());
    while i < t.len()
        invariant
            i <= t.len(),
            t@ == text@,
            started == (begun@.len() > 0),
            (string_texts(out@), begun@) == words_upto(text@, i as nat),
        decreases t.len() - i,
    {
        if t[i].is_whitespace() {
            if started {
                let ghost before = out@;
                out.push(begun);
                assert(string_texts(out@) =~= string_texts(before).push(begun@));
                begun = String::new();
                started = false;
            }
            assert(begun@ =~= Seq::empty());
        } else {
            begun.push(t[i]);
            started = true;
        }
        i = i + 1;
    }
    if started {
        let ghost before = out@;
        out.push(begun);
        assert(string_texts(out@) =~= string_texts(before).push(begun@));
    }
    out
}

/// Wrap a rule onto the label's own column, so it reads as one block.
pub fn wrap_rule(text: &str, label_width: usize, width: usize) -> (r: String)
    ensures
        r@ == wrapped(text@, label_width as nat, width as nat),
{
    reveal(wrapped);
    let indent: String = repeated(' ', label_width);
    let words: Vec<String> = split_words(text);
    let ghost all = words_of(text@);
    let mut out: String = String::new();
    let mut column: u128 = label_width as u128;
    let mut i: usize = 0;
    while i < words.len()
        invariant
            i <= words.len(),
            all == words_of(text@),
            string_texts(words@) == all,
            indent@ == copies(' ', label_width as nat),
            column <= label_width + i * (usize::MAX + 1),
            wrapped(text@, label_width as nat, width as nat) == wrapped_from(
                all,
                i as nat,
                label_width as nat,
                width as nat,
                column as nat,
                out@,
            ),
        decreases words.len() - i,
    {
        let word: &str = words[i].as_str();
        assert(word@ == all[i as int]);
        proof {
            assert(words@.len() == words.len());
            assert(i * (usize::MAX + 1) + (usize::MAX + 1) == (i + 1) * (usize::MAX + 1)) by (nonlinear_arith);
            assert(i * (usize::MAX + 1) <= usize::MAX * (usize::MAX + 1)) by (nonlinear_arith)
                requires
                    0 <= i <= usize::MAX,
            ;
            assert(usize::MAX * (usize::MAX + 1) <= 0xffff_ffff_ffff_ffff * 0x1_0000_0000_0000_0000) by (nonlinear_arith)
                requires
                    0 <= usize::MAX <= 0xffff_ffff_ffff_ffff,
            ;
        }
        let size: u128 = word.as_bytes().len() as u128;
        let fresh: bool = column <= label_width as u128;
        if !fresh && column + 1 + size > width as u128 {
            out.append("\n");
            out.append(indent.as_str());
            out.append(word);
            column = label_width as u128 + size;
        } else if !fresh {
            out.append(" ");
            out.append(word);
            column = column + 1 + size;
        } else {
            out.append(word);
            column = column + size;
        }
        i = i + 1;
    }
    out
}

// ── reports ─────────────────────────────────────────────────────────────────

/// Whether two errors say the same thing at the same place.
pub open spec fn same_report(a: ErrorView, b: ErrorView) -> bool {
    a.primary.start == b.primary.start && a.code.number == b.code.number && a.what_went_wrong == b.what_went_wrong
}

pub open spec fn error_line(t: Seq<char>, e: ErrorView) -> nat {
    line_number(t, e.primary.start.0 as int)
}

/// Whether an error adds nothing to those kept before it: it repeats one of them, or it is
/// a syntax error on a line that has been reported on.
pub open spec fn adds_nothing(t: Seq<char>, kept: Seq<ErrorView>, e: ErrorView) -> bool {
    ||| exists|i: int| 0 <= i < kept.len() && same_report(#[trigger] kept[i], e)
    ||| e.code.category == Category::Syn && exists|i: int|
        0 <= i < kept.len() && error_line(t, #[trigger] kept[i]) == error_line(t, e)
}

/// The errors that are shown, out of the first `n`.
pub open spec fn kept_errors(t: Seq<char>, errors: Seq<ErrorView>, n: nat) -> Seq<ErrorView>
    decreases n,
{
    if n == 0 {
        Seq::empty()
    } else {
        let before = kept_errors(t, errors, (n - 1) as nat);
        if adds_nothing(t, before, errors[n - 1]) {
            before
        } else {
            before.push(errors[n - 1])
        }
    }
}

/// A label put behind those that start no later.
pub open spec fn with_label_placed(labels: Seq<LabelView>, l: LabelView) -> Seq<LabelView>
    decreases labels.len(),
{
    if labels.len() == 0 {
        seq![l]
    } else if labels.last().span.start.0 <= l.span.start.0 {
        labels.push(l)
    } else {
        with_label_placed(labels.drop_last(), l).push(labels.last())
    }
}

/// The first `n` labels in the order of their places.
pub open spec fn ordered_labels(labels: Seq<LabelView>, n: nat) -> Seq<LabelView>
    decreases n,
{
    if n == 0 {
        Seq::empty()
    } else {
        with_label_placed(ordered_labels(labels, (n - 1) as nat), labels[n - 1])
    }
}

/// The places an error shows: its labels in order, or its primary place where it has none.
pub open spec fn shown_labels(e: ErrorView) -> Seq<LabelView> {
    if e.labels.len() == 0 {
        seq![LabelView { span: e.primary, note: Seq::empty() }]
    } else {
        ordered_labels(e.labels, e.labels.len())
    }
}

pub open spec fn label_line(t: Seq<char>, l: LabelView) -> nat {
    line_number(t, l.span.start.0 as int)
}

/// How many digits the largest line number of the first `n` labels has, at least two.
pub open spec fn gutter(t: Seq<char>, labels: Seq<LabelView>, n: nat) -> nat
    decreases n,
{
    if n == 0 {
        2
    } else {
        let w = nat_text(label_line(t, labels[n - 1])).len();
        let before = gutter(t, labels, (n - 1) as nat);
        if w > before {
            w
        } else {
            before
        }
    }
}

/// A text with spaces in front of it, to some width.
pub open spec fn right_aligned(s: Seq<char>, w: nat) -> Seq<char> {
    if s.len() < w {
        copies(' ', (w - s.len()) as nat) + s
    } else {
        s
    }
}

/// The line a label shows: its own, or the last one where it points past the end.
pub open spec fn shown_line(t: Seq<char>, l: LabelView) -> nat {
    if label_line(t, l) > lines_in(t) {
        lines_in(t)
    } else {
        label_line(t, l)
    }
}

pub open spec fn caret_text(t: Seq<char>, l: LabelView, w: nat) -> Seq<char> {
    match caret_cells(t, shown_line(t, l) as int, l.span) {
        Some((pad, width)) => copies(' ', w) + " | "@ + copies(' ', pad) + copies('^', width) + (if l.note.len()
            == 0 {
            "\n"@
        } else {
            " "@ + l.note + "\n"@
        }),
        None => Seq::empty(),
    }
}

/// A source line with its number, and carets under the place meant.
#[verifier::opaque]
pub open spec fn label_text(t: Seq<char>, l: LabelView, w: nat) -> Seq<char> {
    right_aligned(nat_text(shown_line(t, l)), w) + " | "@ + text_of_line(t, shown_line(t, l) as int) + "\n"@
        + caret_text(t, l, w)
}

pub open spec fn labels_text(t: Seq<char>, labels: Seq<LabelView>, n: nat, w: nat) -> Seq<char>
    decreases n,
{
    if n == 0 {
        Seq::empty()
    } else {
        labels_text(t, labels, (n - 1) as nat, w) + label_text(t, labels[n - 1], w)
    }
}

/// The compact form of a place, then the same values spelled out: the spelled-out fields
/// are a legend teaching how to read the compact one.
#[verifier::opaque]
pub open spec fn header_text(name: Seq<char>, t: Seq<char>, e: ErrorView) -> Seq<char> {
    let (line, column) = position_of(t, e.primary.start.0 as int);
    name + ":"@ + nat_text(line) + ":"@ + nat_text(column) + "  ["@ + code_text(e.code) + "]\n"@ + "file: "@ + name
        + "\nline: "@ + nat_text(line) + "\ncolumn: "@ + nat_text(column) + "\n\n"@
}

pub open spec fn rule_line(code: Code) -> Seq<char> {
    match rule_text(code) {
        Some(rule) => "rule conditions: "@ + wrapped(rule, 17, 88) + "\n"@,
        None => Seq::empty(),
    }
}

/// One error as it is shown.
#[verifier::opaque]
pub open spec fn error_text(name: Seq<char>, t: Seq<char>, e: ErrorView, explain: bool) -> Seq<char> {
    let labels = shown_labels(e);
    header_text(name, t, e) + labels_text(t, labels, labels.len(), gutter(t, labels, labels.len()) + 3) + "\n"@ + (
    if explain {
        rule_line(e.code)
    } else {
        Seq::empty()
    }) + "what went wrong: "@ + e.what_went_wrong + "\nsuggested fix: "@ + e.suggest_fix + "\n"@
}

/// A rule is stated the first time its code appears and not on repeats.
pub open spec fn is_first(errors: Seq<ErrorView>, i: int) -> bool {
    forall|j: int| 0 <= j < i ==> (#[trigger] errors[j]).code != errors[i].code
}

/// The first `n` of the errors as they are shown, numbered where there are several.
pub open spec fn errors_text(name: Seq<char>, t: Seq<char>, errors: Seq<ErrorView>, n: nat) -> Seq<char>
    decreases n,
{
    if n == 0 {
        Seq::empty()
    } else {
        errors_text(name, t, errors, (n - 1) as nat) + (if errors.len() > 1 {
            "Error "@ + nat_text(n) + " of "@ + nat_text(errors.len()) + "\n"@
        } else {
            Seq::empty()
        }) + error_text(name, t, errors[n - 1], is_first(errors, n - 1)) + (if n < errors.len() {
            "\n"@
        } else {
            Seq::empty()
        })
    }
}

pub open spec fn greeting(n: nat) -> Seq<char> {
    if n > 1 {
        "AHPCL Error Handler:\nHello, I think that there are some things wrong.\n\n"@
    } else {
        "AHPCL Error Handler:\nHello, I think that there's something wrong.\n\n"@
    }
}

pub open spec fn closing(n: nat) -> Seq<char> {
    if n == 1 {
        "\n1 error found.\n"@
    } else {
        "\n"@ + nat_text(n) + " errors found.\n"@
    }
}

/// A batch of errors as one report.
pub open spec fn report_text(name: Seq<char>, t: Seq<char>, errors: Seq<ErrorView>) -> Seq<char> {
    if errors.len() == 0 {
        Seq::empty()
    } else {
        let kept = kept_errors(t, errors, errors.len());
        greeting(kept.len()) + errors_text(name, t, kept, kept.len()) + closing(kept.len())
    }
}

/// Whether every place an error points at can be shown.
pub open spec fn error_showable(t: Seq<char>, e: ErrorView) -> bool {
    &&& span_showable(t, e.primary)
    &&& forall|i: int| 0 <= i < e.labels.len() ==> span_showable(t, (#[trigger] e.labels[i]).span)
}

pub open spec fn all_showable(t: Seq<char>, errors: Seq<Error>) -> bool {
    forall|i: int| 0 <= i < errors.len() ==> error_showable(t, (#[trigger] errors[i])@)
}

pub open spec fn views_of(errors: Seq<Error>) -> Seq<ErrorView> {
    Seq::new(errors.len(), |i: int| errors[i]@)
}

pub open spec fn ref_views(errors: Seq<&Error>) -> Seq<ErrorView> {
    Seq::new(errors.len(), |i: int| errors[i]@)
}

pub open spec fn ref_labels(labels: Seq<&Label>) -> Seq<LabelView> {
    Seq::new(labels.len(), |i: int| labels[i]@)
}

/// Drop repeats of the same message at the same place, and syntax errors on a line that has
/// been reported on: after the first, the parser is describing its own confusion rather
/// than the program.
fn deduplicate<'a>(source: &SourceFile, errors: &'a [Error]) -> (r: Vec<&'a Error>)
    requires
        all_showable(source.content(), errors@),
    ensures
        ref_views(r@) == kept_errors(source.content(), views_of(errors@), errors@.len()),
        forall|i: int| 0 <= i < r@.len() ==> error_showable(source.content(), (#[trigger] r@[i])@),
        r@.len() <= errors@.len(),
        errors@.len() > 0 ==> r@.len() > 0,
{
    let ghost t = source.content();
    let ghost all = views_of(errors@);
    let mut out: Vec<&'a Error> = Vec::new();
    assert(ref_views(out@) =~= Seq::empty());
    let mut i: usize = 0;
    while i < errors.len()
        invariant
            i <= errors.len(),
            t == source.content(),
            all == views_of(errors@),
            all_showable(t, errors@),
            ref_views(out@) == kept_errors(t, all, i as nat),
            forall|j: int| 0 <= j < out@.len() ==> error_showable(t, (#[trigger] out@[j])@),
            out@.len() <= i,
            i > 0 ==> out@.len() > 0,
        decreases errors.len() - i,
    {
        let e: &'a Error = &errors[i];
        assert(error_showable(t, errors@[i as int]@));
        let ghost kept = ref_views(out@);
        if !superfluous(source, &out, e) {
            out.push(e);
            assert(ref_views(out@) =~= kept.push(e@));
        } else {
            proof {
                if i == 0 {
                    assert(kept.len() == 0);
                }
            }
        }
        i = i + 1;
    }
    out
}

fn superfluous(source: &SourceFile, kept: &Vec<&Error>, e: &Error) -> (r: bool)
    requires
        error_showable(source.content(), e@),
        forall|i: int| 0 <= i < kept@.len() ==> error_showable(source.content(), (#[trigger] kept@[i])@),
    ensures
        r == adds_nothing(source.content(), ref_views(kept@), e@),
{
    let ghost t = source.content();
    let ghost views = ref_views(kept@);
    let line: usize = source.line_col(e.primary.start).line;
    let mut i: usize = 0;
    while i < kept.len()
        invariant
            i <= kept.len(),
            t == source.content(),
            views == ref_views(kept@),
            line == error_line(t, e@),
            forall|j: int| 0 <= j < kept@.len() ==> error_showable(t, (#[trigger] kept@[j])@),
            forall|j: int| 0 <= j < i ==> !same_report(#[trigger] views[j], e@),
            e.code.category == Category::Syn ==> forall|j: int|
                0 <= j < i ==> error_line(t, #[trigger] views[j]) != error_line(t, e@),
        decreases kept.len() - i,
    {
        let k: &Error = kept[i];
        assert(views[i as int] == k@);
        if k.primary.start.0 == e.primary.start.0 && k.code.number == e.code.number && same_text(
            k.what_went_wrong.as_str(),
            e.what_went_wrong.as_str(),
        ) {
            assert(same_report(views[i as int], e@));
            return true;
        }
        if e.code.category == Category::Syn {
            assert(error_showable(t, kept@[i as int]@));
            if source.line_col(k.primary.start).line == line {
                assert(error_line(t, views[i as int]) == error_line(t, e@));
                return true;
            }
        }
        i = i + 1;
    }
    false
}

/// Put a label behind those that start no later.
fn place_label<'a>(labels: &mut Vec<&'a Label>, l: &'a Label)
    ensures
        ref_labels(final(labels)@) == with_label_placed(ref_labels(old(labels)@), l@),
        forall|i: int|
            0 <= i < final(labels)@.len() ==> (#[trigger] final(labels)@[i] == l || old(labels)@.contains(
                final(labels)@[i],
            )),
{
    let ghost before = labels@;
    let ghost views = ref_labels(before);
    let mut at: usize = labels.len();
    proof {
        assert(views.take(at as int) =~= views);
        assert(views.skip(at as int) =~= Seq::empty());
        let p = with_label_placed(views, l@);
        assert(p =~= p + Seq::empty());
    }
    while at > 0 && labels[at - 1].span.start.0 > l.span.start.0
        invariant
            at <= labels.len(),
            labels@ == before,
            views == ref_labels(before),
            with_label_placed(views, l@) == with_label_placed(views.take(at as int), l@) + views.skip(at as int),
        decreases at,
    {
        proof {
            let head = views.take(at as int);
            assert(head.drop_last() =~= views.take(at as int - 1));
            assert(head.last() == views[at as int - 1]);
            let p = with_label_placed(views.take(at as int - 1), l@);
            assert(p.push(head.last()) + views.skip(at as int) =~= p + views.skip(at as int - 1));
        }
        at = at - 1;
    }
    labels.insert(at, l);
    proof {
        let head = views.take(at as int);
        if at > 0 {
            assert(head.last() == views[at as int - 1]);
            assert(with_label_placed(head, l@) == head.push(l@));
        } else {
            assert(head =~= Seq::empty());
        }
        let p = with_label_placed(head, l@);
        assert(ref_labels(labels@) =~= p + views.skip(at as int));
        assert forall|i: int| 0 <= i < labels@.len() implies (#[trigger] labels@[i] == l || before.contains(labels@[i])) by {
            if i < at {
                assert(labels@[i] == before[i]);
            } else if i > at {
                assert(labels@[i] == before[i - 1]);
            }
        }
    }
}

fn order_labels(labels: &Vec<Label>) -> (r: Vec<&Label>)
    ensures
        ref_labels(r@) == ordered_labels(label_views(labels@), labels@.len()),
        forall|i: int| 0 <= i < r@.len() ==> label_views(labels@).contains((#[trigger] r@[i])@),
{
    let ghost all = label_views(labels@);
    let mut out: Vec<&Label> = Vec::new();
    assert(ref_labels(out@) =~= Seq::empty());
    let mut i: usize = 0;
    while i < labels.len()
        invariant
            i <= labels.len(),
            all == label_views(labels@),
            ref_labels(out@) == ordered_labels(all, i as nat),
            forall|j: int| 0 <= j < out@.len() ==> all.contains((#[trigger] out@[j])@),
        decreases labels.len() - i,
    {
        let ghost before = out@;
        let l: &Label = &labels[i];
        place_label(&mut out, l);
        proof {
            assert(all[i as int] == l@);
            assert forall|j: int| 0 <= j < out@.len() implies all.contains((#[trigger] out@[j])@) by {
                if out@[j] != l {
                    let k = choose|k: int| 0 <= k < before.len() && before[k] == out@[j];
                    assert(all.contains(before[k]@));
                }
            }
        }
        i = i + 1;
    }
    out
}

fn align_right(s: &str, w: usize) -> (r: String)
    ensures
        r@ == right_aligned(s@, w as nat),
{
    let n: usize = s.unicode_len();
    if n < w {
        let mut out: String = repeated(' ', w - n);
        out.append(s);
        out
    } else {
        s.to_owned()
    }
}

fn gutter_width(source: &SourceFile, labels: &Vec<&Label>) -> (r: usize)
    requires
        forall|i: int| 0 <= i < labels@.len() ==> span_showable(source.content(), (#[trigger] labels@[i]).span),
    ensures
        r == gutter(source.content(), ref_labels(labels@), labels@.len()),
        r <= 20,
{
    let ghost t = source.content();
    let ghost views = ref_labels(labels@);
    let mut w: usize = 2;
    let mut i: usize = 0;
    while i < labels.len()
        invariant
            i <= labels.len(),
            t == source.content(),
            views == ref_labels(labels@),
            forall|j: int| 0 <= j < labels@.len() ==> span_showable(t, (#[trigger] labels@[j]).span),
            w == gutter(t, views, i as nat),
            w <= 20,
        decreases labels.len() - i,
    {
        let l: &Label = labels[i];
        assert(span_showable(t, labels@[i as int].span));
        let line: usize = source.line_col(l.span.start).line;
        let digits: usize = usize_text(line).as_str().unicode_len();
        proof {
            lemma_usize_digits(line);
            assert(views[i as int] == l@);
        }
        if digits > w {
            w = digits;
        }
        i = i + 1;
    }
    w
}

proof fn lemma_usize_digits(n: usize)
    ensures
        nat_text(n as nat).len() <= 20,
{
    crate::eval::numeric::lemma_ten_36();
    vstd::arithmetic::power::lemma_pow_adds(10, 20, 16);
    reveal_with_fuel(vstd::arithmetic::power::pow, 21);
    assert(vstd::arithmetic::power::pow(10, 20) == 100_000_000_000_000_000_000);
    crate::text::lemma_text_length(n as nat, 20);
}

fn render_label(out: &mut String, source: &SourceFile, l: &Label, w: usize)
    requires
        span_showable(source.content(), l.span),
    ensures
        final(out)@ == old(out)@ + label_text(source.content(), l@, w as nat),
{
    reveal(label_text);
    let own: usize = source.line_col(l.span.start).line;
    let count: usize = source.line_count();
    // An error at the very end of a file points just past the last line. Point at the
    // last real line instead of showing nothing.
    let line: usize = if own > count {
        count
    } else {
        own
    };
    let mut text: String = cat4(
        align_right(usize_text(line).as_str(), w).as_str(),
        " | ",
        source.line_text(line).as_str(),
        "\n",
    );
    text.append(caret_line(source, l, line, w).as_str());
    out.append(text.as_str());
}

fn caret_line(source: &SourceFile, l: &Label, line: usize, w: usize) -> (r: String)
    requires
        line >= 1,
        span_showable(source.content(), l.span),
        line == shown_line(source.content(), l@),
    ensures
        r@ == caret_text(source.content(), l@, w as nat),
{
    match source.caret_extent(line, l.span) {
        Some((pad, width)) => {
            let end: String = if l.note.as_str().is_empty() {
                "\n".to_owned()
            } else {
                crate::text::cat3(" ", l.note.as_str(), "\n")
            };
            crate::text::cat5(
                repeated(' ', w).as_str(),
                " | ",
                repeated(' ', pad).as_str(),
                repeated('^', width).as_str(),
                end.as_str(),
            )
        },
        None => String::new(),
    }
}

fn render_labels(out: &mut String, source: &SourceFile, labels: &Vec<&Label>)
    requires
        forall|i: int| 0 <= i < labels@.len() ==> span_showable(source.content(), (#[trigger] labels@[i]).span),
    ensures
        final(out)@ == old(out)@ + labels_text(
            source.content(),
            ref_labels(labels@),
            labels@.len(),
            gutter(source.content(), ref_labels(labels@), labels@.len()) + 3,
        ),
{
    let ghost t = source.content();
    let ghost views = ref_labels(labels@);
    let ghost start = out@;
    let w: usize = gutter_width(source, labels) + 3;
    let mut i: usize = 0;
    assert(start + Seq::<char>::empty() =~= start);
    while i < labels.len()
        invariant
            i <= labels.len(),
            t == source.content(),
            views == ref_labels(labels@),
            forall|j: int| 0 <= j < labels@.len() ==> span_showable(t, (#[trigger] labels@[j]).span),
            out@ == start + labels_text(t, views, i as nat, w as nat),
        decreases labels.len() - i,
    {
        assert(span_showable(t, labels@[i as int].span));
        render_label(out, source, labels[i], w);
        proof {
            assert(views[i as int] == labels@[i as int]@);
            let before = labels_text(t, views, i as nat, w as nat);
            let more = label_text(t, views[i as int], w as nat);
            assert(start + before + more =~= start + (before + more));
        }
        i = i + 1;
    }
}

fn render_header(out: &mut String, source: &SourceFile, err: &Error)
    requires
        showable(source.content(), err.primary.start.0 as int),
    ensures
        final(out)@ == old(out)@ + header_text(source.title(), source.content(), err@),
{
    reveal(header_text);
    let ghost start = out@;
    let at: LineCol = source.line_col(err.primary.start);
    let line: String = usize_text(at.line);
    let column: String = usize_text(at.column);
    let mut head: String = source.name().to_owned();
    head.append(":");
    head.append(line.as_str());
    head.append(":");
    head.append(column.as_str());
    head.append("  [");
    head.append(err.code.render().as_str());
    head.append("]\n");
    head.append("file: ");
    head.append(source.name());
    head.append("\nline: ");
    head.append(line.as_str());
    head.append("\ncolumn: ");
    head.append(column.as_str());
    head.append("\n\n");
    out.append(head.as_str());
}

fn render_places(out: &mut String, source: &SourceFile, err: &Error)
    requires
        error_showable(source.content(), err@),
    ensures
        final(out)@ == old(out)@ + labels_text(
            source.content(),
            shown_labels(err@),
            shown_labels(err@).len(),
            gutter(source.content(), shown_labels(err@), shown_labels(err@).len()) + 3,
        ),
{
    let ghost t = source.content();
    let ghost views = shown_labels(err@);
    if err.labels.len() == 0 {
        let fallback: Label = Label::new(err.primary, String::new());
        let mut one: Vec<&Label> = Vec::new();
        one.push(&fallback);
        assert(ref_labels(one@) =~= views);
        render_labels(out, source, &one);
    } else {
        let all: Vec<&Label> = order_labels(&err.labels);
        proof {
            assert forall|i: int| 0 <= i < all@.len() implies span_showable(t, (#[trigger] all@[i]).span) by {
                let vs = label_views(err.labels@);
                assert(vs.contains(all@[i]@));
                let k = choose|k: int| 0 <= k < vs.len() && vs[k] == all@[i]@;
                assert(span_showable(t, err@.labels[k].span));
            }
        }
        render_labels(out, source, &all);
    }
}

fn render_rule(out: &mut String, code: Code)
    ensures
        final(out)@ == old(out)@ + rule_line(code),
{
    let ghost start = out@;
    match rule_conditions(code) {
        Some(text) => {
            out.append("rule conditions: ");
            out.append(wrap_rule(text, 17, 88).as_str());
            out.append("\n");
        },
        None => {},
    }
    assert(out@ =~= start + rule_line(code));
}

fn render_one(out: &mut String, source: &SourceFile, err: &Error, explain: bool)
    requires
        error_showable(source.content(), err@),
    ensures
        final(out)@ == old(out)@ + error_text(source.title(), source.content(), err@, explain),
{
    reveal(error_text);
    let ghost t = source.content();
    let ghost start = out@;
    let ghost head = header_text(source.title(), t, err@);
    render_header(out, source, err);
    let ghost views = shown_labels(err@);
    let ghost labels = labels_text(t, views, views.len(), gutter(t, views, views.len()) + 3);
    render_places(out, source, err);
    assert(out@ == start + head + labels);
    out.append("\n");
    let ghost rule = if explain {
        rule_line(err.code)
    } else {
        Seq::empty()
    };
    if explain {
        render_rule(out, err.code);
    }
    assert(out@ =~= start + head + labels + "\n"@ + rule);
    out.append("what went wrong: ");
    out.append(err.what_went_wrong.as_str());
    out.append("\nsuggested fix: ");
    out.append(err.suggest_fix.as_str());
    out.append("\n");
    assert(out@ =~= start + error_text(source.title(), t, err@, explain));
}

fn first_of_code(errors: &Vec<&Error>, i: usize) -> (r: bool)
    requires
        i < errors@.len(),
    ensures
        r == is_first(ref_views(errors@), i as int),
{
    let ghost views = ref_views(errors@);
    let mut j: usize = 0;
    while j < i
        invariant
            j <= i < errors@.len(),
            views == ref_views(errors@),
            forall|k: int| 0 <= k < j ==> (#[trigger] views[k]).code != views[i as int].code,
        decreases i - j,
    {
        assert(views[j as int] == errors@[j as int]@);
        if errors[j].code == errors[i].code {
            assert(views[j as int].code == views[i as int].code);
            return false;
        }
        j = j + 1;
    }
    true
}

/// Renders a batch of errors as one report.
pub fn render(source: &SourceFile, errors: &[Error]) -> (r: String)
    requires
        all_showable(source.content(), errors@),
    ensures
        r@ == report_text(source.title(), source.content(), views_of(errors@)),
{
    if errors.len() == 0 {
        return String::new();
    }
    let kept: Vec<&Error> = deduplicate(source, errors);
    let ghost t = source.content();
    let ghost name = source.title();
    let ghost views = ref_views(kept@);
    let n: usize = kept.len();
    let many: bool = n > 1;
    let mut out: String = if many {
        "AHPCL Error Handler:\nHello, I think that there are some things wrong.\n\n".to_owned()
    } else {
        "AHPCL Error Handler:\nHello, I think that there's something wrong.\n\n".to_owned()
    };
    assert(out@ + Seq::<char>::empty() =~= out@);
    let mut i: usize = 0;
    while i < n
        invariant
            i <= n,
            n == kept@.len(),
            many == (n > 1),
            t == source.content(),
            name == source.title(),
            views == ref_views(kept@),
            forall|j: int| 0 <= j < kept@.len() ==> error_showable(t, (#[trigger] kept@[j])@),
            out@ == greeting(n as nat) + errors_text(name, t, views, i as nat),
        decreases n - i,
    {
        let ghost start = out@;
        let ghost number = if views.len() > 1 {
            "Error "@ + nat_text((i + 1) as nat) + " of "@ + nat_text(views.len()) + "\n"@
        } else {
            Seq::empty()
        };
        if many {
            out.append("Error ");
            out.append(usize_text(i + 1).as_str());
            out.append(" of ");
            out.append(usize_text(n).as_str());
            out.append("\n");
        }
        assert(out@ =~= start + number);
        let first_time: bool = first_of_code(&kept, i);
        assert(error_showable(t, kept@[i as int]@));
        assert(views[i as int] == kept@[i as int]@);
        render_one(&mut out, source, kept[i], first_time);
        let ghost one = error_text(name, t, views[i as int], is_first(views, i as int));
        let ghost gap = if i + 1 < n {
            "\n"@
        } else {
            Seq::empty()
        };
        if i + 1 < n {
            out.append("\n");
        }
        proof {
            assert(out@ =~= start + number + one + gap);
            let g = greeting(n as nat);
            let before = errors_text(name, t, views, i as nat);
            assert(g + before + number + one + gap =~= g + (before + number + one + gap));
        }
        i = i + 1;
    }
    if n == 1 {
        out.append("\n1 error found.\n");
    } else {
        let mut end: String = "\n".to_owned();
        end.append(usize_text(n).as_str());
        end.append(" errors found.\n");
        out.append(end.as_str());
    }
    out
}

// ── laws ────────────────────────────────────────────────────────────────────

/// Of reports that say the same at the same place, the first is kept and no other.
pub proof fn repeats_are_dropped(t: Seq<char>, errors: Seq<ErrorView>, n: nat, i: int, j: int)
    requires
        n <= errors.len(),
        0 <= i < j < kept_errors(t, errors, n).len(),
    ensures
        !same_report(kept_errors(t, errors, n)[i], kept_errors(t, errors, n)[j]),
    decreases n,
{
    if n > 0 {
        let before = kept_errors(t, errors, (n - 1) as nat);
        if j < before.len() {
            repeats_are_dropped(t, errors, (n - 1) as nat, i, j);
        } else {
            assert(!same_report(before[i], errors[n - 1]));
        }
    }
}

/// A syntax error is kept only where nothing before it is reported on the same line.
pub proof fn one_syntax_error_per_line(t: Seq<char>, errors: Seq<ErrorView>, n: nat, i: int, j: int)
    requires
        n <= errors.len(),
        0 <= i < j < kept_errors(t, errors, n).len(),
        kept_errors(t, errors, n)[j].code.category == Category::Syn,
    ensures
        error_line(t, kept_errors(t, errors, n)[i]) != error_line(t, kept_errors(t, errors, n)[j]),
    decreases n,
{
    if n > 0 {
        let before = kept_errors(t, errors, (n - 1) as nat);
        if j < before.len() {
            one_syntax_error_per_line(t, errors, (n - 1) as nat, i, j);
        } else {
            assert(error_line(t, before[i]) != error_line(t, errors[n - 1]));
        }
    }
}

/// Every error that is no syntax error is kept, or repeats one that is.
pub proof fn nothing_else_is_dropped(t: Seq<char>, errors: Seq<ErrorView>, n: nat, k: int)
    requires
        0 <= k < n <= errors.len(),
        errors[k].code.category != Category::Syn,
    ensures
        exists|i: int| 0 <= i < kept_errors(t, errors, n).len() && same_report(
            #[trigger] kept_errors(t, errors, n)[i],
            errors[k],
        ),
    decreases n,
{
    let before = kept_errors(t, errors, (n - 1) as nat);
    let now = kept_errors(t, errors, n);
    if k < n - 1 {
        nothing_else_is_dropped(t, errors, (n - 1) as nat, k);
        let i = choose|i: int| 0 <= i < before.len() && same_report(#[trigger] before[i], errors[k]);
        assert(now[i] == before[i]);
    } else if adds_nothing(t, before, errors[n - 1]) {
        let i = choose|i: int| 0 <= i < before.len() && same_report(#[trigger] before[i], errors[k]);
        assert(now[i] == before[i]);
    } else {
        assert(same_report(now[now.len() - 1], errors[k]));
    }
}

proof fn lemma_label_placed(labels: Seq<LabelView>, l: LabelView)
    requires
        forall|i: int, j: int| 0 <= i < j < labels.len() ==> labels[i].span.start.0 <= labels[j].span.start.0,
    ensures
        ({
            let out = with_label_placed(labels, l);
            &&& out.len() == labels.len() + 1
            &&& forall|i: int, j: int| 0 <= i < j < out.len() ==> out[i].span.start.0 <= out[j].span.start.0
            &&& out.to_multiset() =~= labels.to_multiset().insert(l)
            &&& out.len() > 0
        }),
    decreases labels.len(),
{
    broadcast use vstd::seq_lib::group_to_multiset_ensures;

    if labels.len() == 0 {
        assert(labels.push(l) =~= seq![l]);
    } else if !(labels.last().span.start.0 <= l.span.start.0) {
        let rest = labels.drop_last();
        lemma_label_placed(rest, l);
        let inner = with_label_placed(rest, l);
        let out = inner.push(labels.last());
        assert(rest.push(labels.last()) =~= labels);
        assert forall|i: int, j: int| 0 <= i < j < out.len() implies out[i].span.start.0 <= out[j].span.start.0 by {
            if j == out.len() - 1 {
                assert(inner.to_multiset().contains(inner[i])) by {
                    assert(inner.contains(inner[i]));
                }
                if inner[i] != l {
                    assert(rest.to_multiset().contains(inner[i]));
                    assert(rest.contains(inner[i]));
                    let k = choose|k: int| 0 <= k < rest.len() && rest[k] == inner[i];
                    assert(labels[k].span.start.0 <= labels[labels.len() - 1].span.start.0);
                }
            }
        }
    }
}

/// The places of an error are shown in the order they stand in, each of them once.
pub proof fn labels_are_shown_in_order(labels: Seq<LabelView>, n: nat)
    requires
        n <= labels.len(),
    ensures
        ({
            let out = ordered_labels(labels, n);
            &&& out.len() == n
            &&& forall|i: int, j: int| 0 <= i < j < out.len() ==> out[i].span.start.0 <= out[j].span.start.0
            &&& out.to_multiset() =~= labels.take(n as int).to_multiset()
        }),
    decreases n,
{
    broadcast use vstd::seq_lib::group_to_multiset_ensures;

    if n == 0 {
        assert(labels.take(0) =~= Seq::empty());
    } else {
        labels_are_shown_in_order(labels, (n - 1) as nat);
        lemma_label_placed(ordered_labels(labels, (n - 1) as nat), labels[n - 1]);
        assert(labels.take(n as int) =~= labels.take(n - 1).push(labels[n - 1]));
    }
}

} // verus!
