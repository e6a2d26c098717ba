//! The plain-text form of an entry, as the dictionary's text dump shows it.

use crate::text::{decimal, push_chars, push_decimal, push_str, string_of};
use crate::toadua::{Note, NoteView, Toa, ToaView};
use vstd::prelude::*;

verus! {

/// How a score is shown: `±` for zero, with an explicit sign otherwise.
pub open spec fn score_text(score: int) -> Seq<char> {
    if score == 0 {
        "±"@
    } else if score > 0 {
        "+"@ + decimal(score)
    } else {
        decimal(score)
    }
}

/// How a note is shown: author, date in brackets, and content.
pub open spec fn note_line(n: NoteView) -> Seq<char> {
    n.user + " ("@ + n.date + "): "@ + n.content
}

/// The lines of the first `k` notes joined with line breaks.
pub open spec fn note_lines(ns: Seq<NoteView>, k: int) -> Seq<char>
    decreases k,
{
    if k <= 0 {
        Seq::empty()
    } else if k == 1 {
        note_line(ns[0])
    } else {
        note_lines(ns, k - 1) + "\n"@ + note_line(ns[k - 1])
    }
}

/// How an entry is shown: a warning sign when flagged, the headword, score,
/// scope, author, id and date on the first line, then the body, then the notes
/// one per line.
pub open spec fn readable(t: ToaView) -> Seq<char> {
    (if t.warn {
        "⚠ "@
    } else {
        Seq::empty()
    }) + t.head + " "@ + score_text(t.score as int) + " `"@ + t.scope + "` @"@ + t.user + " #"@
        + t.id + " "@ + t.date + "\n"@ + t.body + (if t.notes.len() == 0 {
        Seq::empty()
    } else {
        "\n"@ + note_lines(t.notes, t.notes.len() as int)
    })
}

fn push_note(out: &mut Vec<char>, n: &Note)
    ensures
        final(out)@ == old(out)@ + note_line(n@),
{
    push_str(out, n.user.as_str());
    push_str(out, " (");
    push_str(out, n.date.as_str());
    push_str(out, "): ");
    push_str(out, n.content.as_str());
    assert(out@ =~= old(out)@ + note_line(n@));
}

impl Toa {
    /// The plain-text form of the entry.
    pub fn to_string(&self) -> (r: String)
        ensures
            r@ == readable(self@),
    {
        let mut out: Vec<char> = Vec::new();
        if self.warn {
            push_str(&mut out, "⚠ ");
        }
        push_str(&mut out, self.head.as_str());
        push_str(&mut out, " ");
        if self.score == 0 {
            push_str(&mut out, "±");
        } else if self.score > 0 {
            push_str(&mut out, "+");
            push_decimal(&mut out, self.score);
        } else {
            push_decimal(&mut out, self.score);
        }
        push_str(&mut out, " `");
        push_str(&mut out, self.scope.as_str());
        push_str(&mut out, "` @");
        push_str(&mut out, self.user.as_str());
        push_str(&mut out, " #");
        push_str(&mut out, self.id.as_str());
        push_str(&mut out, " ");
        push_str(&mut out, self.date.as_str());
        push_str(&mut out, "\n");
        push_str(&mut out, self.body.as_str());
        let ghost first = out@;
        let ghost ns = self@.notes;
        if self.notes.len() > 0 {
            push_str(&mut out, "\n");
            let ghost start = out@;
            let mut k: usize = 0;
            while k < self.notes.len()
                invariant
                    k <= self.notes@.len(),
                    ns == self@.notes,
                    out@ == start + note_lines(ns, k as int),
                decreases self.notes.len() - k,
            {
                if k > 0 {
                    push_str(&mut out, "\n");
                }
                push_note(&mut out, &self.notes[k]);
                assert(ns[k as int] == self.notes@[k as int]@);
                k = k + 1;
                assert(out@ =~= start + note_lines(ns, k as int));
            }
        }
        assert(out@ =~= readable(self@));
        string_of(&out)
    }
}

} // verus!
