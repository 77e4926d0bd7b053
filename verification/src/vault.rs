//! The vault: the notes of one export run, each with its path, its
//! frontmatter and its body.

use vstd::prelude::*;
use crate::events::{events_view, Event, EventView};
use crate::reference::{
    best_match, is_preferred, match_count, path_has_title, resolution, Resolution,
};
use crate::text::chars_of;

verus! {

/// One note of the vault.
#[derive(Clone, Debug, PartialEq, Eq)]
pub struct Note {
    /// The path of the note, relative to the root of the vault, with `/`
    /// between its components.
    pub path: String,
    /// The frontmatter of the note; empty if it has none.
    pub frontmatter: serde_yaml::Mapping,
    /// The body of the note.
    pub events: Vec<Event>,
}

impl Note {
    /// A note made of its parts.
    pub fn new(path: String, frontmatter: serde_yaml::Mapping, events: Vec<Event>) -> (note: Note)
        ensures
            note.path == path,
            note.frontmatter == frontmatter,
            note.events == events,
    {
        Note { path, frontmatter, events }
    }
}

/// The notes of one export run. They do not change while it runs.
#[derive(Clone, Debug, PartialEq, Eq)]
pub struct Vault {
    pub notes: Vec<Note>,
}

impl Vault {
    /// The paths of the notes, in the order of the notes.
    pub open spec fn paths(&self) -> Seq<Seq<char>> {
        Seq::new(self.notes@.len(), |i: int| self.notes@[i].path@)
    }

    /// The body of the note `n`.
    pub open spec fn body(&self, n: int) -> Seq<EventView> {
        events_view(self.notes@[n].events@)
    }

    /// A vault without notes.
    pub fn new() -> (vault: Vault)
        ensures
            vault.notes@.len() == 0,
    {
        Vault { notes: Vec::new() }
    }

    /// Adds a note at the end.
    pub fn add(&mut self, note: Note)
        ensures
            final(self).notes@ == old(self).notes@.push(note),
    {
        self.notes.push(note);
    }

    /// The note that `title` means: the one note that goes by it, or of
    /// several the one with the shortest path, and of those the first in
    /// the alphabet.
    pub fn resolve(&self, title: &str) -> (r: Resolution)
        ensures
            r == resolution(self.paths(), title@),
            r.target() matches Some(i) ==> i < self.notes.len(),
    {
        let wanted = chars_of(title);
        let ghost paths = self.paths();
        let mut best: Option<(usize, Vec<char>)> = None;
        let mut several = false;
        let mut i: usize = 0;
        while i < self.notes.len()
            invariant
                i <= self.notes.len(),
                paths == self.paths(),
                wanted@ == title@,
                match best {
                    Some((at, path)) => at == best_match(paths, title@, i as int) && at < i
                        && path@ == paths[at as int],
                    None => best_match(paths, title@, i as int) == -1,
                },
                best is None <==> match_count(paths, title@, i as int) == 0,
                several <==> match_count(paths, title@, i as int) >= 2,
            decreases self.notes.len() - i,
        {
            let path = chars_of(self.notes[i].path.as_str());
            if path_has_title(&path, &wanted) {
                let better = match &best {
                    Some((_, chosen)) => is_preferred(&path, chosen),
                    None => true,
                };
                if best.is_some() {
                    several = true;
                }
                if better {
                    best = Some((i, path));
                }
            }
            i = i + 1;
        }
        match best {
            None => Resolution::Unresolved,
            Some((at, _)) => if several {
                Resolution::Ambiguous(at)
            } else {
                Resolution::Resolved(at)
            },
        }
    }
}

} // verus!
