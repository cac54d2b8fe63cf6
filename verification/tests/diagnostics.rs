//! Errors, notes and positions.

use ahpcl::diagnostics::error::{render, rule_conditions, wrap_rule, Category, Code, Error};
use ahpcl::diagnostics::informer::Informer;
use ahpcl::diagnostics::position::{BytePos, LineCol, SourceFile, Span};

fn file(name: &str, text: &str) -> SourceFile {
    SourceFile::new(name.to_string(), text.to_string())
}

fn error(code: Code, span: Span, what: &str, fix: &str) -> Error {
    Error::new(code, span, what.to_string(), fix.to_string())
}

fn src() -> SourceFile {
    file(
        "main.ahpcl",
        "var:+int 'n' = '10'.\nprint[\"counting\"].\nchange:var:int 'n' = math { ('n') - 20 }.\n",
    )
}

#[test]
fn every_code_in_use_states_its_rule() {
    for category in [
        Category::Lex,
        Category::Syn,
        Category::Type,
        Category::Prec,
        Category::Sign,
        Category::Shape,
        Category::Name,
        Category::Run,
    ] {
        for number in 1..=10 {
            let code = Code::new(category, number);
            if let Some(rule) = rule_conditions(code) {
                assert!(
                    rule.ends_with('.') && rule.len() > 20,
                    "{} reads oddly: {rule:?}",
                    code.render()
                );
            }
        }
    }
    assert!(rule_conditions(Code::new(Category::Type, 2)).is_some());
    assert!(rule_conditions(Code::new(Category::Name, 1)).is_some());
    assert!(rule_conditions(Code::new(Category::Run, 3)).is_some());
}

#[test]
fn a_rule_is_stated_once_per_run() {
    let source = file("m.ahpcl", "var:int 'a' = '1'.
var:int 'b' = '2'.
");
    let one = error(Code::new(Category::Type, 2), Span::new(0, 3), "first", "fix");
    let two = error(Code::new(Category::Type, 2), Span::new(19, 22), "second", "fix");
    let text = render(&source, &[one, two]);
    assert_eq!(
        text.matches("rule conditions:").count(),
        1,
        "the rule should appear once, not per error:\n{text}"
    );
    assert_eq!(text.matches("what went wrong:").count(), 2);
}

#[test]
fn a_long_rule_wraps_under_its_own_label() {
    let wrapped = wrap_rule("one two three four five six seven eight nine ten", 17, 30);
    for (i, line) in wrapped.lines().enumerate() {
        if i > 0 {
            assert!(line.starts_with(&" ".repeat(17)), "continuation not aligned: {line:?}");
        }
    }
    assert!(wrapped.lines().count() > 1, "should have wrapped");
}

#[test]
fn single_error_is_not_numbered_and_reads_singular() {
    let e = error(
        Code::new(Category::Sign, 1),
        Span::new(21, 26),
        "a +int must be above 0 at every point in the program.",
        "declare 'n' as :int.",
    );
    let out = render(&src(), &[e]);
    assert!(out.contains("there's something wrong"));
    assert!(!out.contains("Error 1 of"));
    assert!(out.ends_with("1 error found.\n"));
    assert!(out.contains("[AHPCL-SIGN-0001]"));
}

#[test]
fn several_errors_are_numbered_and_read_plural() {
    let a = error(Code::new(Category::Lex, 1), Span::new(0, 3), "r", "f");
    let b = error(Code::new(Category::Name, 1), Span::new(21, 24), "r", "f");
    let out = render(&src(), &[a, b]);
    assert!(out.contains("there are some things wrong"));
    assert!(out.contains("Error 1 of 2"));
    assert!(out.contains("Error 2 of 2"));
    assert!(out.ends_with("2 errors found.\n"));
}

#[test]
fn an_error_can_point_at_two_places() {
    let e = error(
        Code::new(Category::Sign, 1),
        Span::new(58, 76),
        "a +int must be above 0 at every point in the program.",
        "declare 'n' as :int.",
    )
    .with_label(Span::new(4, 8), "'n' promises to stay above 0 here".to_string())
    .with_label(Span::new(58, 76), "but this can make it -10".to_string());

    let out = render(&src(), &[e]);
    assert!(out.contains("promises to stay above 0 here"));
    assert!(out.contains("but this can make it -10"));
    assert!(out.contains("var:+int 'n' = '10'."));
    assert!(out.contains("change:var:int 'n'"));
}

#[test]
fn repeats_of_the_same_message_at_the_same_place_are_dropped() {
    let one = || error(Code::new(Category::Syn, 1), Span::new(0, 3), "same", "fix");
    let out = render(&src(), &[one(), one(), one()]);
    assert!(out.contains("1 error found."), "{out}");
}

#[test]
fn genuinely_different_errors_are_all_kept() {
    let a = error(Code::new(Category::Syn, 1), Span::new(0, 3), "first", "fix");
    let b = error(Code::new(Category::Syn, 1), Span::new(21, 24), "second", "fix");
    let out = render(&src(), &[a, b]);
    assert!(out.contains("2 errors found."), "{out}");
}

#[test]
fn the_legend_fields_are_present() {
    let e = error(Code::new(Category::Lex, 1), Span::new(0, 3), "r", "f");
    let out = render(&src(), &[e]);
    assert!(out.contains("main.ahpcl:1:1"));
    assert!(out.contains("file: main.ahpcl"));
    assert!(out.contains("line: 1"));
    assert!(out.contains("column: 1"));
}

#[test]
fn notes_carry_positions_and_render_one_per_line() {
    let src = file("main.ahpcl", "var:int 'x' = '1000'.\n");
    let mut inf = Informer::new();
    inf.say(BytePos(8), "'x' widened to 32-bit because of line 12".to_string());
    inf.say_global("lexed 1 line in 0.1ms".to_string());
    let out = inf.render(&src);
    assert!(out.starts_with("AHPCL Informer:\n"));
    assert!(out.contains("informer: main.ahpcl:1:9 — 'x' widened to 32-bit"));
    assert!(out.contains("informer: lexed 1 line in 0.1ms"));
}

#[test]
fn silent_informer_records_nothing() {
    let mut inf = Informer::silent();
    inf.say_global("ignored".to_string());
    assert!(inf.is_empty());
}

#[test]
fn columns_count_graphemes_not_bytes() {
    let family = "\u{1F9D1}\u{200D}\u{1F9D1}\u{200D}\u{1F9D2}\u{200D}\u{1F9D2}";
    assert_eq!(family.chars().count(), 7);
    assert_eq!(family.len(), 25);

    let src = file("t.ahpcl", &format!("{family}C"));
    let at_c = src.line_col(BytePos(family.len()));
    assert_eq!(at_c.column, 2);
}

#[test]
fn two_family_emoji_are_two_columns() {
    let family = "\u{1F9D1}\u{200D}\u{1F9D1}\u{200D}\u{1F9D2}\u{200D}\u{1F9D2}";
    let src = file("t.ahpcl", &format!("{family}{family}X"));
    let at_x = src.line_col(BytePos(family.len() * 2));
    assert_eq!(at_x.column, 3);
}

#[test]
fn thai_tone_mark_does_not_add_a_column() {
    let src = file("t.ahpcl", "ก\u{0E48}X");
    let at_x = src.line_col(BytePos("ก\u{0E48}".len()));
    assert_eq!(at_x.column, 2);
}

#[test]
fn carets_use_display_width_not_graphemes() {
    let src = file("t.ahpcl", "😂ab");
    let span = Span::new("😂".len(), "😂a".len());
    let (pad, width) = src.caret_extent(1, span).unwrap();
    assert_eq!(pad, 2, "emoji occupies two cells");
    assert_eq!(width, 1);
}

#[test]
fn lines_and_columns_are_one_based() {
    let src = file("t.ahpcl", "abc\ndef\n");
    assert_eq!(src.line_col(BytePos(0)), LineCol { line: 1, column: 1 });
    assert_eq!(src.line_col(BytePos(4)), LineCol { line: 2, column: 1 });
    assert_eq!(src.line_col(BytePos(6)), LineCol { line: 2, column: 3 });
    assert_eq!(src.line_text(2), "def");
}

#[test]
fn a_position_past_the_end_is_the_end() {
    let src = file("t.ahpcl", "ab\ncd");
    assert_eq!(src.line_col(BytePos(99)), LineCol { line: 2, column: 3 });
    assert_eq!(src.line_count(), 2);
    assert_eq!(file("t.ahpcl", "ab\n").line_count(), 1);
    assert_eq!(src.caret_extent(3, Span::new(0, 1)), None);
    assert_eq!(src.caret_extent(1, Span::at(1)), Some((1, 1)));
    let two = file("t.ahpcl", "abc\ndef\n");
    assert_eq!(two.caret_extent(2, Span::new(0, 2)), None);
    assert_eq!(two.caret_extent(1, Span::new(5, 6)), None);
    assert_eq!(two.caret_extent(2, Span::at(8)), Some((3, 1)));
    assert_eq!(SourceFile::display_width("日本"), 4);
}

#[test]
fn one_line_has_one_syntax_error() {
    let a = error(Code::new(Category::Syn, 1), Span::new(0, 3), "first", "fix");
    let b = error(Code::new(Category::Syn, 2), Span::new(5, 8), "second", "fix");
    let c = error(Code::new(Category::Type, 2), Span::new(5, 8), "third", "fix");
    let out = render(&src(), &[a, b, c]);
    assert!(out.contains("first") && !out.contains("second") && out.contains("third"), "{out}");
}

#[test]
fn codes_are_padded_and_spans_join() {
    assert_eq!(Code::new(Category::Shape, 12).render(), "AHPCL-SHAPE-0012");
    assert_eq!(Span::new(1, 4).to(Span::new(3, 5)), Span::new(1, 5));
    assert!(Span::at(4).is_empty());
    assert!(Informer::default().is_empty());
}

#[test]
fn lines_joined_by_newlines_are_the_text() {
    for text in ["one\ntwo\n\nfour", "", "\n", "ครับ\n😂 x\nlast\n"] {
        let f = file("m", text);
        let lines = text.matches('\n').count() + 1;
        let mut all: Vec<String> = Vec::new();
        for line in 1..=lines {
            all.push(f.line_text(line));
        }
        assert!(all.iter().all(|l| !l.contains('\n')));
        assert_eq!(all.join("\n"), text);
    }
}

#[test]
fn different_codes_render_differently() {
    let a = Code::new(Category::Sign, 3).render();
    assert_eq!(a, "AHPCL-SIGN-0003");
    assert_ne!(a, Code::new(Category::Sign, 30).render());
    assert_ne!(a, Code::new(Category::Shape, 3).render());
}
