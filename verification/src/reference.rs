//! References between notes: what stands between the brackets of a wikilink,
//! and which note of the vault a referenced title means.

use vstd::prelude::*;
use crate::events::option_chars;
use crate::text::{chars_of, extend_chars, find_char, find_from, slice_chars, string_of};

verus! {

/// What a wikilink names: a note, a section in it, and the text to show.
#[derive(Clone, Debug, PartialEq, Eq)]
pub struct NoteReference {
    /// The referenced note; `None` means the note that holds the reference.
    pub file: Option<String>,
    /// The heading or block the reference points at.
    pub section: Option<String>,
    /// The text shown in place of the reference.
    pub label: Option<String>,
}

pub struct NoteReferenceView {
    pub file: Option<Seq<char>>,
    pub section: Option<Seq<char>>,
    pub label: Option<Seq<char>>,
}

impl View for NoteReference {
    type V = NoteReferenceView;

    open spec fn view(&self) -> NoteReferenceView {
        NoteReferenceView {
            file: option_chars(self.file),
            section: option_chars(self.section),
            label: option_chars(self.label),
        }
    }
}

/// `s` if it has characters, nothing otherwise.
pub open spec fn non_empty(s: Seq<char>) -> Option<Seq<char>> {
    if s.len() == 0 {
        None
    } else {
        Some(s)
    }
}

/// Reads `file#section|label`: the label is what follows the first `|`, the
/// section what stands between the first `#` before that and the `|`, the
/// file what stands before both. A part without characters is absent.
pub open spec fn parse_reference(text: Seq<char>) -> NoteReferenceView {
    let bar = find_from(text, '|', 0);
    let hash = find_from(text, '#', 0);
    let file_end = if hash < bar {
        hash
    } else {
        bar
    };
    NoteReferenceView {
        file: non_empty(text.take(file_end)),
        section: if hash < bar {
            non_empty(text.subrange(hash + 1, bar))
        } else {
            None
        },
        label: if bar < text.len() {
            non_empty(text.skip(bar + 1))
        } else {
            None
        },
    }
}

/// The text shown for a reference: its label; without one the file, the
/// section, or `file > section` where it has both.
pub open spec fn display_text(reference: NoteReferenceView) -> Seq<char> {
    match reference.label {
        Some(label) => label,
        None => match (reference.file, reference.section) {
            (Some(file), Some(section)) => file + seq![' ', '>', ' '] + section,
            (Some(file), None) => file,
            (None, Some(section)) => section,
            (None, None) => Seq::<char>::empty(),
        },
    }
}

fn optional_string(v: &Vec<char>, from: usize, to: usize) -> (r: Option<String>)
    requires
        from <= to <= v.len(),
    ensures
        option_chars(r) == non_empty(v@.subrange(from as int, to as int)),
{
    if from == to {
        None
    } else {
        Some(crate::text::string_of_range(v, from, to))
    }
}

impl NoteReference {
    /// Reads what stands between the brackets of a wikilink.
    pub fn from_str(text: &str) -> (reference: NoteReference)
        ensures
            reference@ == parse_reference(text@),
    {
        let chars = chars_of(text);
        let n = chars.len();
        let bar = find_char(&chars, '|', 0);
        let hash = find_char(&chars, '#', 0);
        let file_end = if hash < bar {
            hash
        } else {
            bar
        };
        let file = optional_string(&chars, 0, file_end);
        let section = if hash < bar {
            optional_string(&chars, hash + 1, bar)
        } else {
            None
        };
        let label = if bar < n {
            optional_string(&chars, bar + 1, n)
        } else {
            None
        };
        proof {
            assert(chars@.subrange(0, file_end as int) =~= chars@.take(file_end as int));
            if bar < n {
                assert(chars@.subrange(bar + 1, n as int) =~= chars@.skip(bar + 1));
            }
        }
        NoteReference { file, section, label }
    }

    /// The text shown for this reference.
    pub fn display(&self) -> (text: String)
        ensures
            text@ == display_text(self@),
    {
        match &self.label {
            Some(label) => label.clone(),
            None => match (&self.file, &self.section) {
                (Some(file), Some(section)) => {
                    let mut chars = chars_of(file.as_str());
                    chars.push(' ');
                    chars.push('>');
                    chars.push(' ');
                    let tail = chars_of(section.as_str());
                    extend_chars(&mut chars, &tail);
                    assert(chars@ =~= file@ + seq![' ', '>', ' '] + section@);
                    string_of(&chars)
                },
                (Some(file), None) => file.clone(),
                (None, Some(section)) => section.clone(),
                (None, None) => String::new(),
            },
        }
    }
}

/// `path` is `name`, or ends with `name` right after a slash.
pub open spec fn ends_with_name(path: Seq<char>, name: Seq<char>) -> bool {
    ||| path == name
    ||| path.len() > name.len() && path.skip(path.len() - name.len()) == name && path[path.len()
        - name.len() - 1] == '/'
}

/// The note at `path` goes by the title `title`: the path, or its last
/// components, are the title, with or without the extension `.md`.
pub open spec fn has_title(path: Seq<char>, title: Seq<char>) -> bool {
    ends_with_name(path, title) || ends_with_name(path, title + seq!['.', 'm', 'd'])
}

/// `a` comes before `b` in the alphabet, for sequences of one length.
pub open spec fn alphabetic_before(a: Seq<char>, b: Seq<char>, from: int) -> bool
    decreases a.len() - from,
{
    if from < 0 || from >= a.len() || from >= b.len() {
        false
    } else if a[from] != b[from] {
        (a[from] as u32) < (b[from] as u32)
    } else {
        alphabetic_before(a, b, from + 1)
    }
}

/// `a` is preferred to `b` among the notes that share a title: the shorter
/// path, and of two paths of one length the one that comes first in the
/// alphabet.
pub open spec fn preferred(a: Seq<char>, b: Seq<char>) -> bool {
    a.len() < b.len() || (a.len() == b.len() && alphabetic_before(a, b, 0))
}

/// The index of the preferred note among the first `upto` paths that go by
/// `title`; -1 if none of them does. Of equally good notes the first wins.
pub open spec fn best_match(paths: Seq<Seq<char>>, title: Seq<char>, upto: int) -> int
    decreases upto,
{
    if upto <= 0 || upto > paths.len() {
        -1
    } else {
        let before = best_match(paths, title, upto - 1);
        if has_title(paths[upto - 1], title) && (before < 0 || preferred(
            paths[upto - 1],
            paths[before],
        )) {
            upto - 1
        } else {
            before
        }
    }
}

/// How many of the first `upto` paths go by `title`.
pub open spec fn match_count(paths: Seq<Seq<char>>, title: Seq<char>, upto: int) -> nat
    decreases upto,
{
    if upto <= 0 || upto > paths.len() {
        0
    } else if has_title(paths[upto - 1], title) {
        match_count(paths, title, upto - 1) + 1
    } else {
        match_count(paths, title, upto - 1)
    }
}

/// What a title resolves to among the notes of a vault.
#[derive(Clone, Copy, Debug, PartialEq, Eq, Structural)]
pub enum Resolution {
    /// Exactly one note goes by the title: its index.
    Resolved(usize),
    /// Several notes go by the title: the index of the preferred one.
    Ambiguous(usize),
    /// No note goes by the title.
    Unresolved,
}

impl Resolution {
    /// The index of the note meant, if there is one.
    pub open spec fn target(self) -> Option<usize> {
        match self {
            Resolution::Resolved(i) => Some(i),
            Resolution::Ambiguous(i) => Some(i),
            Resolution::Unresolved => None,
        }
    }

    /// The index of the note meant, if there is one.
    pub fn index(&self) -> (r: Option<usize>)
        ensures
            r == self.target(),
    {
        match self {
            Resolution::Resolved(i) => Some(*i),
            Resolution::Ambiguous(i) => Some(*i),
            Resolution::Unresolved => None,
        }
    }
}

/// What `title` resolves to among `paths`.
pub open spec fn resolution(paths: Seq<Seq<char>>, title: Seq<char>) -> Resolution {
    let best = best_match(paths, title, paths.len() as int);
    let count = match_count(paths, title, paths.len() as int);
    if best < 0 {
        Resolution::Unresolved
    } else if count == 1 {
        Resolution::Resolved(best as usize)
    } else {
        Resolution::Ambiguous(best as usize)
    }
}

/// Computes `ends_with_name`.
pub fn path_ends_with_name(path: &Vec<char>, name: &Vec<char>) -> (r: bool)
    ensures
        r == ends_with_name(path@, name@),
{
    let p = path.len();
    let n = name.len();
    if p < n {
        return false;
    }
    let offset = p - n;
    let mut i: usize = 0;
    while i < n
        invariant
            i <= n,
            p == path.len(),
            n == name.len(),
            offset + n == p,
            forall|j: int| 0 <= j < i ==> path@[offset + j] == name@[j],
        decreases n - i,
    {
        if path[offset + i] != name[i] {
            assert(path@.skip(offset as int)[i as int] != name@[i as int]);
            return false;
        }
        i = i + 1;
    }
    assert(path@.skip(offset as int) =~= name@);
    if offset == 0 {
        assert(path@ =~= path@.skip(0));
        true
    } else {
        path[offset - 1] == '/'
    }
}

/// Computes `has_title`.
pub fn path_has_title(path: &Vec<char>, title: &Vec<char>) -> (r: bool)
    ensures
        r == has_title(path@, title@),
{
    if path_ends_with_name(path, title) {
        return true;
    }
    let mut with_extension = slice_chars(title, 0, title.len());
    assert(title@.subrange(0, title.len() as int) =~= title@);
    with_extension.push('.');
    with_extension.push('m');
    with_extension.push('d');
    assert(with_extension@ =~= title@ + seq!['.', 'm', 'd']);
    path_ends_with_name(path, &with_extension)
}

/// Computes `preferred`.
pub fn is_preferred(a: &Vec<char>, b: &Vec<char>) -> (r: bool)
    ensures
        r == preferred(a@, b@),
{
    if a.len() != b.len() {
        return a.len() < b.len();
    }
    let mut i: usize = 0;
    while i < a.len()
        invariant
            i <= a.len(),
            a.len() == b.len(),
            alphabetic_before(a@, b@, 0) == alphabetic_before(a@, b@, i as int),
        decreases a.len() - i,
    {
        if a[i] != b[i] {
            return (a[i] as u32) < (b[i] as u32);
        }
        i = i + 1;
    }
    false
}

/// The best match is a note that goes by the title, and no note that goes
/// by the title is preferred to it.
pub proof fn lemma_best_match(paths: Seq<Seq<char>>, title: Seq<char>, upto: int)
    requires
        0 <= upto <= paths.len(),
    ensures
        -1 <= best_match(paths, title, upto) < upto,
        best_match(paths, title, upto) >= 0 ==> has_title(
            paths[best_match(paths, title, upto)],
            title,
        ),
        best_match(paths, title, upto) < 0 <==> match_count(paths, title, upto) == 0,
        forall|j: int|
            0 <= j < upto && has_title(#[trigger] paths[j], title) ==> best_match(paths, title, upto)
                >= 0 && !preferred(paths[j], paths[best_match(paths, title, upto)]),
    decreases upto,
{
    if upto > 0 {
        lemma_best_match(paths, title, upto - 1);
        let before = best_match(paths, title, upto - 1);
        let last = paths[upto - 1];
        if has_title(last, title) && before >= 0 && preferred(last, paths[before]) {
            assert forall|j: int| 0 <= j < upto && has_title(#[trigger] paths[j], title) implies !preferred(
                paths[j],
                last,
            ) by {
                if j < upto - 1 {
                    if preferred(paths[j], last) {
                        lemma_preferred_transitive(paths[j], last, paths[before]);
                    }
                } else {
                    lemma_preferred_irreflexive(last);
                }
            }
        } else if has_title(last, title) && before < 0 {
            lemma_preferred_irreflexive(last);
        }
    }
}

/// No sequence comes before itself in the alphabet.
pub proof fn lemma_alphabetic_irreflexive(a: Seq<char>, from: int)
    ensures
        !alphabetic_before(a, a, from),
    decreases a.len() - from,
{
    if 0 <= from < a.len() {
        lemma_alphabetic_irreflexive(a, from + 1);
    }
}

/// No path is preferred to itself.
pub proof fn lemma_preferred_irreflexive(a: Seq<char>)
    ensures
        !preferred(a, a),
{
    lemma_alphabetic_irreflexive(a, 0);
}

/// What comes before what comes before a third comes before the third.
pub proof fn lemma_alphabetic_transitive(a: Seq<char>, b: Seq<char>, c: Seq<char>, from: int)
    requires
        a.len() == b.len() == c.len(),
        alphabetic_before(a, b, from),
        alphabetic_before(b, c, from),
    ensures
        alphabetic_before(a, c, from),
    decreases a.len() - from,
{
    if 0 <= from < a.len() {
        if a[from] == b[from] && b[from] == c[from] {
            lemma_alphabetic_transitive(a, b, c, from + 1);
        }
    }
}

/// What is preferred to what is preferred to a third is preferred to the
/// third.
pub proof fn lemma_preferred_transitive(a: Seq<char>, b: Seq<char>, c: Seq<char>)
    requires
        preferred(a, b),
        preferred(b, c),
    ensures
        preferred(a, c),
{
    if a.len() == b.len() && b.len() == c.len() {
        lemma_alphabetic_transitive(a, b, c, 0);
    }
}

} // verus!
