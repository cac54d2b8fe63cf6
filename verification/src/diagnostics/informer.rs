//! The AHPCL Informer.
//!
//! Reports everything the compiler decided or inferred on your behalf. On by default,
//! full detail. One line per note, deliberately *not* the error template, because the
//! volume is completely different: errors are rare, Informer notes are numerous.

use vstd::prelude::*;
use vstd::string::*;

use crate::diagnostics::position::{position_of, showable, BytePos, LineCol, SourceFile};
use crate::text::{cat9, nat_text, usize_text};

verus! {

#[derive(Debug, Clone)]
pub struct Note {
    pub at: Option<BytePos>,
    pub message: String,
}

/// A note, its message taken as text.
pub struct NoteView {
    pub at: Option<BytePos>,
    pub message: Seq<char>,
}

impl View for Note {
    type V = NoteView;

    open spec fn view(&self) -> NoteView {
        NoteView { at: self.at, message: self.message@ }
    }
}

pub open spec fn notes_of(notes: Seq<Note>) -> Seq<NoteView> {
    Seq::new(notes.len(), |i: int| notes[i]@)
}

#[derive(Debug)]
pub struct Informer {
    pub notes: Vec<Note>,
    pub enabled: bool,
}

/// What an informer has noted, and whether it notes anything.
#[verifier::ext_equal]
pub struct InformerView {
    pub notes: Seq<NoteView>,
    pub enabled: bool,
}

impl View for Informer {
    type V = InformerView;

    open spec fn view(&self) -> InformerView {
        InformerView { notes: notes_of(self.notes@), enabled: self.enabled }
    }
}

/// An informer that was told something; a silent one keeps nothing.
pub open spec fn told(i: InformerView, at: Option<BytePos>, message: Seq<char>) -> InformerView {
    if i.enabled {
        InformerView { notes: i.notes.push(NoteView { at, message }), ..i }
    } else {
        i
    }
}

impl Default for Informer {
    fn default() -> (r: Self)
        ensures
            r@ == (InformerView { notes: Seq::empty(), enabled: false }),
    {
        Informer::silent()
    }
}

impl Informer {
    /// On by default, full detail.
    pub fn new() -> (r: Self)
        ensures
            r@ == (InformerView { notes: Seq::empty(), enabled: true }),
    {
        let r: Informer = Informer { notes: Vec::new(), enabled: true };
        assert(r@.notes =~= Seq::empty());
        r
    }

    pub fn silent() -> (r: Self)
        ensures
            r@ == (InformerView { notes: Seq::empty(), enabled: false }),
    {
        let r: Informer = Informer { notes: Vec::new(), enabled: false };
        assert(r@.notes =~= Seq::empty());
        r
    }

    pub fn say(&mut self, at: BytePos, message: String)
        ensures
            final(self)@ == told(old(self)@, Some(at), message@),
    {
        self.note(Some(at), message);
    }

    /// A note with no source position, such as a phase timing.
    pub fn say_global(&mut self, message: String)
        ensures
            final(self)@ == told(old(self)@, None, message@),
    {
        self.note(None, message);
    }

    fn note(&mut self, at: Option<BytePos>, message: String)
        ensures
            final(self)@ == told(old(self)@, at, message@),
    {
        if self.enabled {
            let ghost before = self@;
            self.notes.push(Note { at, message });
            assert(self@.notes =~= before.notes.push(NoteView { at, message: message@ }));
        }
    }

    pub fn is_empty(&self) -> (r: bool)
        ensures
            r == (self@.notes.len() == 0),
    {
        self.notes.len() == 0
    }

    pub fn render(&self, source: &SourceFile) -> (r: String)
        requires
            forall|i: int|
                0 <= i < self@.notes.len() ==> ((#[trigger] self@.notes[i]).at matches Some(p) ==> showable(
                    source.content(),
                    p.0 as int,
                )),
        ensures
            r@ == notes_text(source.title(), source.content(), self@.notes),
    {
        if self.notes.len() == 0 {
            return String::new();
        }
        let ghost name = source.title();
        let ghost t = source.content();
        let ghost views = self@.notes;
        let mut out: String = "AHPCL Informer:\n".to_owned();
        assert(out@ + Seq::<char>::empty() =~= out@);
        let mut i: usize = 0;
        while i < self.notes.len()
            invariant
                i <= self.notes.len(),
                name == source.title(),
                t == source.content(),
                views == self@.notes,
                forall|j: int|
                    0 <= j < views.len() ==> ((#[trigger] views[j]).at matches Some(p) ==> showable(t, p.0 as int)),
                out@ == "AHPCL Informer:\n"@ + note_lines(name, t, views, i as nat),
            decreases self.notes.len() - i,
        {
            let note: &Note = &self.notes[i];
            assert(views[i as int] == note@);
            let line: String = match note.at {
                Some(pos) => {
                    let at: LineCol = source.line_col(pos);
                    cat9(
                        "informer: ",
                        source.name(),
                        ":",
                        usize_text(at.line).as_str(),
                        ":",
                        usize_text(at.column).as_str(),
                        " — ",
                        note.message.as_str(),
                        "\n",
                    )
                },
                None => crate::text::cat3("informer: ", note.message.as_str(), "\n"),
            };
            out.append(line.as_str());
            proof {
                let before = note_lines(name, t, views, i as nat);
                assert("AHPCL Informer:\n"@ + before + line@ =~= "AHPCL Informer:\n"@ + (before + line@));
            }
            i = i + 1;
        }
        out
    }
}

/// One note as it is shown.
pub open spec fn note_line(name: Seq<char>, t: Seq<char>, n: NoteView) -> Seq<char> {
    match n.at {
        Some(pos) => {
            let (line, column) = position_of(t, pos.0 as int);
            "informer: "@ + name + ":"@ + nat_text(line) + ":"@ + nat_text(column) + " — "@ + n.message + "\n"@
        },
        None => "informer: "@ + n.message + "\n"@,
    }
}

/// The first `n` notes, one to a line.
pub open spec fn note_lines(name: Seq<char>, t: Seq<char>, notes: Seq<NoteView>, n: nat) -> Seq<char>
    decreases n,
{
    if n == 0 {
        Seq::empty()
    } else {
        note_lines(name, t, notes, (n - 1) as nat) + note_line(name, t, notes[n - 1])
    }
}

/// All notes as they are shown; nothing where there are none.
pub open spec fn notes_text(name: Seq<char>, t: Seq<char>, notes: Seq<NoteView>) -> Seq<char> {
    if notes.len() == 0 {
        Seq::empty()
    } else {
        "AHPCL Informer:\n"@ + note_lines(name, t, notes, notes.len())
    }
}

} // verus!
