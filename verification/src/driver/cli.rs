//! The command line, which speaks the same syntax as the language.
//!
//! ```text
//! ahpcl task:build. buildfile:main.ahpcl, lib.ahpcl. resultname:myprogram. to:/tmp/out.
//! ```
//!
//! Values are unquoted: the shell strips quotes before we ever see them. **Each argument
//! is one whole token**, never re-split on spaces, so a path containing spaces survives
//! ordinary shell quoting.

use vstd::prelude::*;
use vstd::slice::slice_subrange;
use vstd::string::*;

use crate::eval::decimal::first_index;
use crate::eval::parse::find_char;
use crate::table::Table;
use crate::text::{cat3, chars_of, is_space, same_text, text_of, trim_chars, trimmed};

verus! {

#[derive(Debug)]
pub struct Command {
    pub task: Option<String>,
    pub buildfiles: Vec<String>,
    pub resultname: Option<String>,
    pub to: Option<String>,
    pub flags: Table<String>,
}

#[verifier::ext_equal]
pub struct CommandView {
    pub task: Option<Seq<char>>,
    pub buildfiles: Seq<Seq<char>>,
    pub resultname: Option<Seq<char>>,
    pub to: Option<Seq<char>>,
    pub flags: Map<Seq<char>, Seq<char>>,
}

pub open spec fn text_option(s: Option<String>) -> Option<Seq<char>> {
    match s {
        Some(t) => Some(t@),
        None => None,
    }
}

impl View for Command {
    type V = CommandView;

    open spec fn view(&self) -> CommandView {
        CommandView {
            task: text_option(self.task),
            buildfiles: Seq::new(self.buildfiles@.len(), |i: int| self.buildfiles@[i]@),
            resultname: text_option(self.resultname),
            to: text_option(self.to),
            flags: self.flags.map().map_values(|s: String| s@),
        }
    }
}

#[derive(Debug)]
pub struct CliError {
    pub message: String,
    pub suggestion: String,
}

pub struct CliErrorView {
    pub message: Seq<char>,
    pub suggestion: Seq<char>,
}

impl View for CliError {
    type V = CliErrorView;

    open spec fn view(&self) -> CliErrorView {
        CliErrorView { message: self.message@, suggestion: self.suggestion@ }
    }
}

pub open spec fn command_result(r: Result<Command, CliError>) -> Result<CommandView, CliErrorView> {
    match r {
        Ok(c) => Ok(c@),
        Err(e) => Err(e@),
    }
}

pub open spec fn no_command() -> CommandView {
    CommandView { task: None, buildfiles: Seq::empty(), resultname: None, to: None, flags: Map::empty() }
}

/// Whether a directive ended (`.`), continued (`,`), or did neither.
#[derive(Debug, Clone, Copy, PartialEq, Eq, Structural)]
pub enum Ending {
    Ends,
    Extends,
    Neither,
}

/// One trailing terminator taken off. Only the *last* `.` is one; `main.ahpcl` keeps its
/// own dot.
pub open spec fn ending_of(s: Seq<char>) -> (Seq<char>, Ending) {
    if s.len() > 0 && s.last() == '.' {
        (s.drop_last(), Ending::Ends)
    } else if s.len() > 0 && s.last() == ',' {
        (s.drop_last(), Ending::Extends)
    } else {
        (s, Ending::Neither)
    }
}

pub open spec fn has_space(s: Seq<char>) -> bool {
    exists|i: int| 0 <= i < s.len() && is_space(#[trigger] s[i])
}

/// The directive an argument names, where it names one: what stands before its first `:`.
pub open spec fn named_directive(body: Seq<char>) -> Option<(Seq<char>, Seq<char>)> {
    let at = first_index(body, ':');
    if 0 < at < body.len() && !has_space(body.take(at)) {
        Some((body.take(at), body.skip(at + 1)))
    } else {
        None
    }
}

pub open spec fn unknown_directive(key: Seq<char>) -> CliErrorView {
    CliErrorView {
        message: "'"@ + key + ":' is not a directive AHPCL knows."@,
        suggestion: "try task:, buildfile:, resultname:, to: or flag:."@,
    }
}

pub open spec fn not_a_directive(arg: Seq<char>) -> CliErrorView {
    CliErrorView {
        message: "'"@ + arg + "' is not a directive."@,
        suggestion: "directives look like task:build. or buildfile:main.ahpcl."@,
    }
}

/// A flag's name and value; a flag without a value is on.
pub open spec fn flag_of(value: Seq<char>) -> (Seq<char>, Seq<char>) {
    let at = first_index(value, '=');
    if at < value.len() {
        (trimmed(value.take(at)), trimmed(value.skip(at + 1)))
    } else {
        (trimmed(value), trimmed("on"@))
    }
}

/// A command with one directive applied.
pub open spec fn applied(cmd: CommandView, key: Seq<char>, value: Seq<char>) -> Result<CommandView, CliErrorView> {
    if key == "task"@ {
        Ok(CommandView { task: Some(value), ..cmd })
    } else if key == "buildfile"@ {
        if value.len() > 0 {
            Ok(CommandView { buildfiles: cmd.buildfiles.push(value), ..cmd })
        } else {
            Ok(cmd)
        }
    } else if key == "resultname"@ {
        Ok(CommandView { resultname: Some(value), ..cmd })
    } else if key == "to"@ {
        Ok(CommandView { to: Some(value), ..cmd })
    } else if key == "flag"@ {
        Ok(CommandView { flags: cmd.flags.insert(flag_of(value).0, flag_of(value).1), ..cmd })
    } else {
        Err(unknown_directive(key))
    }
}

/// The directive that goes on after an argument: none behind a `.`.
pub open spec fn continuing_after(key: Seq<char>, ending: Ending) -> Option<Seq<char>> {
    if ending == Ending::Ends {
        None
    } else {
        Some(key)
    }
}

/// The arguments from the `i`-th on, `continuing` being the directive that a bare value
/// belongs to, such as the `lib.ahpcl` in `buildfile:main.ahpcl, lib.ahpcl.`
pub open spec fn parsed_from(args: Seq<Seq<char>>, i: nat, cmd: CommandView, continuing: Option<Seq<char>>) -> Result<
    CommandView,
    CliErrorView,
>
    decreases args.len() - i,
{
    if i >= args.len() {
        Ok(cmd)
    } else {
        let arg = args[i as int];
        if arg.len() == 0 {
            parsed_from(args, i + 1, cmd, continuing)
        } else {
            let (body, ending) = ending_of(arg);
            let directive = match named_directive(body) {
                Some(d) => Some(d),
                None => match continuing {
                    Some(k) => Some((k, body)),
                    None => None,
                },
            };
            match directive {
                None => Err(not_a_directive(arg)),
                Some((key, value)) => match applied(cmd, key, value) {
                    Ok(next) => parsed_from(args, i + 1, next, continuing_after(key, ending)),
                    Err(e) => Err(e),
                },
            }
        }
    }
}

pub open spec fn arg_texts(args: Seq<&str>) -> Seq<Seq<char>> {
    Seq::new(args.len(), |i: int| args[i]@)
}

fn part(s: &Vec<char>, from: usize, to: usize) -> (r: String)
    requires
        from <= to <= s@.len(),
    ensures
        r@ == s@.subrange(from as int, to as int),
{
    text_of(slice_subrange(s.as_slice(), from, to))
}

fn split_ending(s: &str) -> (r: (Vec<char>, Ending))
    ensures
        (r.0@, r.1) == ending_of(s@),
{
    let mut t: Vec<char> = chars_of(s);
    let n: usize = t.len();
    if n > 0 && t[n - 1] == '.' {
        let _ = t.pop();
        assert(t@ =~= s@.drop_last());
        (t, Ending::Ends)
    } else if n > 0 && t[n - 1] == ',' {
        let _ = t.pop();
        assert(t@ =~= s@.drop_last());
        (t, Ending::Extends)
    } else {
        (t, Ending::Neither)
    }
}

fn spaced(s: &Vec<char>, n: usize) -> (r: bool)
    requires
        n <= s@.len(),
    ensures
        r == has_space(s@.take(n as int)),
{
    let ghost head = s@.take(n as int);
    let mut i: usize = 0;
    while i < n
        invariant
            i <= n <= s@.len(),
            head == s@.take(n as int),
            forall|j: int| 0 <= j < i ==> !is_space(#[trigger] head[j]),
        decreases n - i,
    {
        if s[i].is_whitespace() {
            assert(is_space(head[i as int]));
            return true;
        }
        assert(!is_space(head[i as int]));
        i = i + 1;
    }
    false
}

pub open spec fn directive_view(d: Option<(String, String)>) -> Option<(Seq<char>, Seq<char>)> {
    match d {
        Some((k, v)) => Some((k@, v@)),
        None => None,
    }
}

fn directive(body: &Vec<char>) -> (r: Option<(String, String)>)
    ensures
        directive_view(r) == named_directive(body@),
{
    let at: usize = find_char(body.as_slice(), ':');
    if 0 < at && at < body.len() && !spaced(body, at) {
        let key: String = part(body, 0, at);
        let value: String = part(body, at + 1, body.len());
        assert(key@ =~= body@.take(at as int));
        assert(value@ =~= body@.skip(at as int + 1));
        Some((key, value))
    } else {
        None
    }
}

fn trim_text(s: &str) -> (r: String)
    ensures
        r@ == trimmed(s@),
{
    let t: Vec<char> = chars_of(s);
    text_of(trim_chars(t.as_slice()).as_slice())
}

fn flag(value: &str) -> (r: (String, String))
    ensures
        (r.0@, r.1@) == flag_of(value@),
{
    let t: Vec<char> = chars_of(value);
    let at: usize = find_char(t.as_slice(), '=');
    if at < t.len() {
        let name: String = part(&t, 0, at);
        let val: String = part(&t, at + 1, t.len());
        assert(name@ =~= value@.take(at as int));
        assert(val@ =~= value@.skip(at as int + 1));
        (trim_text(name.as_str()), trim_text(val.as_str()))
    } else {
        (trim_text(value), trim_text("on"))
    }
}

impl Default for Command {
    fn default() -> (r: Command)
        ensures
            r@ == no_command(),
    {
        Command::empty()
    }
}

impl Command {
    pub fn empty() -> (r: Self)
        ensures
            r@ == no_command(),
    {
        let r: Command = Command {
            task: None,
            buildfiles: Vec::new(),
            resultname: None,
            to: None,
            flags: Table::new(),
        };
        assert(r@ =~= no_command());
        r
    }
}

fn apply(cmd: &mut Command, key: &str, value: &str) -> (r: Result<(), CliError>)
    ensures
        match applied(old(cmd)@, key@, value@) {
            Ok(next) => r is Ok && final(cmd)@ == next,
            Err(e) => r matches Err(x) && x@ == e,
        },
{
    let ghost before = cmd@;
    if same_text(key, "task") {
        cmd.task = Some(value.to_owned());
        assert(cmd@ =~= applied(before, key@, value@)->Ok_0);
    } else if same_text(key, "buildfile") {
        if !value.is_empty() {
            cmd.buildfiles.push(value.to_owned());
            assert(cmd@.buildfiles =~= before.buildfiles.push(value@));
        }
    } else if same_text(key, "resultname") {
        cmd.resultname = Some(value.to_owned());
        assert(cmd@ =~= applied(before, key@, value@)->Ok_0);
    } else if same_text(key, "to") {
        cmd.to = Some(value.to_owned());
        assert(cmd@ =~= applied(before, key@, value@)->Ok_0);
    } else if same_text(key, "flag") {
        let (name, val) = flag(value);
        cmd.flags.insert(name.as_str(), val);
        assert(cmd@.flags =~= before.flags.insert(name@, val@));
    } else {
        return Err(
            CliError {
                message: cat3("'", key, ":' is not a directive AHPCL knows."),
                suggestion: "try task:, buildfile:, resultname:, to: or flag:.".to_owned(),
            },
        );
    }
    Ok(())
}

/// Read a command line.
pub fn parse(args: &[&str]) -> (r: Result<Command, CliError>)
    ensures
        command_result(r) == parsed_from(arg_texts(args@), 0, no_command(), None),
{
    let ghost all = arg_texts(args@);
    let mut cmd: Command = Command::empty();
    let mut continuing: Option<String> = None;
    let mut i: usize = 0;
    while i < args.len()
        invariant
            i <= args.len(),
            all == arg_texts(args@),
            parsed_from(all, 0, no_command(), None) == parsed_from(all, i as nat, cmd@, text_option(continuing)),
        decreases args.len() - i,
    {
        let arg: &str = args[i];
        assert(all[i as int] == arg@);
        if !arg.is_empty() {
            let (body, ending) = split_ending(arg);
            let (key, value) = match directive(&body) {
                Some(d) => d,
                None => match &continuing {
                    Some(k) => {
                        let v: String = text_of(body.as_slice());
                        (k.clone(), v)
                    },
                    None => {
                        return Err(
                            CliError {
                                message: cat3("'", arg, "' is not a directive."),
                                suggestion: "directives look like task:build. or buildfile:main.ahpcl.".to_owned(),
                            },
                        );
                    },
                },
            };
            match apply(&mut cmd, key.as_str(), value.as_str()) {
                Ok(_) => {},
                Err(e) => {
                    return Err(e);
                },
            }
            continuing = match ending {
                Ending::Ends => None,
                Ending::Extends => Some(key),
                Ending::Neither => Some(key),
            };
        }
        i = i + 1;
    }
    Ok(cmd)
}

// ── laws ────────────────────────────────────────────────────────────────────

/// An argument is one whole token: a value keeps every space that stands in it.
pub proof fn a_value_survives_intact(key: Seq<char>, value: Seq<char>)
    requires
        key.len() > 0,
        !has_space(key),
        forall|i: int| 0 <= i < key.len() ==> key[i] != ':',
    ensures
        named_directive(key + seq![':'] + value) == Some((key, value)),
        ending_of(key + seq![':'] + value + seq!['.']) == (key + seq![':'] + value, Ending::Ends),
{
    let body = key + seq![':'] + value;
    let tail = seq![':'] + value;
    assert(body =~= key + tail);
    crate::eval::laws::lemma_first_index(key, tail, ':');
    assert(body.take(key.len() as int) =~= key);
    assert(body.skip(key.len() as int + 1) =~= value);
    assert((body + seq!['.']).drop_last() =~= body);
}

/// Each directive sets what it is named for and leaves the rest alone; any other is refused.
pub proof fn directives_set_what_they_name(cmd: CommandView, key: Seq<char>, value: Seq<char>)
    ensures
        applied(cmd, "task"@, value) == Ok::<CommandView, CliErrorView>(CommandView { task: Some(value), ..cmd }),
        value.len() > 0 ==> applied(cmd, "buildfile"@, value) == Ok::<CommandView, CliErrorView>(
            CommandView { buildfiles: cmd.buildfiles.push(value), ..cmd },
        ),
        applied(cmd, "resultname"@, value) == Ok::<CommandView, CliErrorView>(CommandView { resultname: Some(value), ..cmd }),
        applied(cmd, "to"@, value) == Ok::<CommandView, CliErrorView>(CommandView { to: Some(value), ..cmd }),
        key != "task"@ && key != "buildfile"@ && key != "resultname"@ && key != "to"@ && key != "flag"@ ==> applied(cmd, key, value) is Err,
        applied(cmd, "flag"@, value) matches Ok(c) && c.task == cmd.task && c.buildfiles == cmd.buildfiles && c.resultname == cmd.resultname
            && c.to == cmd.to,
{
    reveal_strlit("task");
    reveal_strlit("buildfile");
    reveal_strlit("resultname");
    reveal_strlit("to");
    reveal_strlit("flag");
    assert("task"@.len() == 4 && "buildfile"@.len() == 9 && "resultname"@.len() == 10 && "to"@.len() == 2 && "flag"@.len() == 4);
    assert("task"@[0] == 't' && "flag"@[0] == 'f');
}

/// A flag has the value behind its first `=`, without the space around it; one without a value
/// is on.
pub proof fn a_flag_has_the_value_behind_its_sign(name: Seq<char>, value: Seq<char>)
    requires
        forall|i: int| 0 <= i < name.len() ==> name[i] != '=',
    ensures
        flag_of(name + seq!['='] + value) == (trimmed(name), trimmed(value)),
        flag_of(name) == (trimmed(name), "on"@),
{
    reveal_strlit("on");
    let s = name + seq!['='] + value;
    let tail = seq!['='] + value;
    assert(s =~= name + tail);
    crate::eval::laws::lemma_first_index(name, tail, '=');
    assert(s.take(name.len() as int) =~= name);
    assert(s.skip(name.len() as int + 1) =~= value);
    crate::eval::laws::lemma_first_index(name, Seq::empty(), '=');
    assert(name + Seq::<char>::empty() =~= name);
    crate::eval::laws::lemma_nothing_to_trim("on"@);
}

/// A value that names no directive belongs to the one before it, until that has ended.
pub proof fn a_list_goes_on_until_its_full_stop(cmd: CommandView, key: Seq<char>, first: Seq<char>, second: Seq<char>, ends: bool)
    requires
        key.len() > 0,
        !has_space(key),
        forall|i: int| 0 <= i < key.len() ==> key[i] != ':',
        second.len() > 0,
        forall|i: int| 0 <= i < second.len() ==> second[i] != ':',
    ensures
        ({
            let args = seq![
                key + seq![':'] + first + (if ends {
                    seq!['.']
                } else {
                    seq![',']
                }),
                second + seq!['.'],
            ];
            parsed_from(args, 0, cmd, None) == (match applied(cmd, key, first) {
                Err(e) => Err(e),
                Ok(next) => if ends {
                    Err(not_a_directive(second + seq!['.']))
                } else {
                    applied(next, key, second)
                },
            })
        }),
{
    let body = key + seq![':'] + first;
    let mark = if ends {
        seq!['.']
    } else {
        seq![',']
    };
    let args = seq![body + mark, second + seq!['.']];
    a_value_survives_intact(key, first);
    assert((body + mark).drop_last() =~= body);
    assert((body + mark).last() == mark[0]);
    assert((second + seq!['.']).drop_last() =~= second);
    assert((second + seq!['.']).last() == '.');
    crate::eval::laws::lemma_first_index(second, Seq::empty(), ':');
    assert(second + Seq::<char>::empty() =~= second);
    assert(named_directive(second) is None);
    reveal_with_fuel(parsed_from, 4);
    assert(args[0] == body + mark);
    assert(args[1] == second + seq!['.']);
}

} // verus!
