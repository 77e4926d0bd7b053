//! Expansion of one note: its wikilinks become links, its embeds are
//! replaced by the notes they name, expanded in turn, and its postprocessors
//! run on what comes of that.

use vstd::prelude::*;
use crate::context::{Context, FileTree};
use crate::events::{
    append_events, events_view, option_chars, strings_view, Event, EventView, LinkType, Tag,
    TagView,
};
use crate::exporter::Exporter;
use crate::frontmatter::mapping_entries;
use crate::mapper::{keeps, lemma_keeps_transitive, lemma_mapped_keeps, mapped, PathMapper};
use crate::paths::{relative_link, relative_path};
use crate::postprocessors::{
    chain_effect, run_postprocessors, ExportOptions, Postprocessor, PostprocessorResult,
};
use crate::reference::{
    display_text, parse_reference, resolution, NoteReference, NoteReferenceView,
};
use crate::scanner::{find_reference, reference_at};
use crate::text::{chars_of, extend_chars, string_of};
use crate::vault::Vault;

verus! {

/// The note that a reference found in the note `current` means: that note
/// itself where the reference names no file, else what the file resolves to.
pub open spec fn target_of(paths: Seq<Seq<char>>, current: int, reference: NoteReferenceView) -> Option<int> {
    match reference.file {
        None => Some(current),
        Some(title) => match resolution(paths, title).target() {
            Some(i) => Some(i as int),
            None => None,
        },
    }
}

/// The events of a link to `destination` that shows `label`.
pub open spec fn link_events(destination: Seq<char>, label: Seq<char>) -> Seq<EventView> {
    let tag = TagView::Link { kind: LinkType::Inline, destination, title: Seq::<char>::empty() };
    seq![EventView::Start(tag), EventView::Text(label), EventView::End(tag)]
}

/// The events that stand for a reference to a note that does not exist: its
/// text, emphasized.
pub open spec fn literal_events(label: Seq<char>) -> Seq<EventView> {
    seq![
        EventView::Start(TagView::Emphasis),
        EventView::Text(label),
        EventView::End(TagView::Emphasis),
    ]
}

/// Where a link leads: the path from the file `from` to the file `to`, and
/// the section behind a `#` if the reference names one.
pub open spec fn link_destination(from: Seq<char>, to: Seq<char>, section: Option<Seq<char>>) -> Seq<char> {
    match section {
        Some(section) => relative_path(from, to) + seq!['#'] + section,
        None => relative_path(from, to),
    }
}

/// What is to be done at one event of a body.
#[derive(Clone, Debug, PartialEq, Eq)]
pub enum Step {
    /// No wikilink starts here: the event is taken over.
    Keep,
    /// A reference to a note that does not exist: it becomes its text,
    /// emphasized.
    Literal { label: String, used: usize },
    /// A link, or an embed where embeds are not expanded: it becomes a link
    /// to the note `target`.
    Link { target: usize, section: Option<String>, label: String, used: usize },
    /// An embed: it is replaced by what the note `target` expands to.
    Embed { target: usize, used: usize },
}

pub enum StepView {
    Keep,
    Literal { label: Seq<char>, used: int },
    Link { target: int, section: Option<Seq<char>>, label: Seq<char>, used: int },
    Embed { target: int, used: int },
}

impl View for Step {
    type V = StepView;

    open spec fn view(&self) -> StepView {
        match *self {
            Step::Keep => StepView::Keep,
            Step::Literal { label, used } => StepView::Literal { label: label@, used: used as int },
            Step::Link { target, section, label, used } => StepView::Link {
                target: target as int,
                section: option_chars(section),
                label: label@,
                used: used as int,
            },
            Step::Embed { target, used } => StepView::Embed {
                target: target as int,
                used: used as int,
            },
        }
    }
}

impl StepView {
    /// How many events of the body the step takes up.
    pub open spec fn used(self) -> int {
        match self {
            StepView::Keep => 1,
            StepView::Literal { used, .. } => used,
            StepView::Link { used, .. } => used,
            StepView::Embed { used, .. } => used,
        }
    }
}

/// What is to be done at the event `pos` of the note `n`.
pub open spec fn step_at(options: &ExportOptions, vault: &Vault, n: int, pos: int) -> StepView {
    match reference_at(vault.body(n), pos) {
        None => StepView::Keep,
        Some(found) => {
            let reference = parse_reference(found.text);
            match target_of(vault.paths(), n, reference) {
                None => StepView::Literal { label: display_text(reference), used: found.events },
                Some(target) => if found.embed && options.recursive_embeds {
                    StepView::Embed { target, used: found.events }
                } else {
                    StepView::Link {
                        target,
                        section: reference.section,
                        label: display_text(reference),
                        used: found.events,
                    }
                },
            }
        },
    }
}

/// Every step takes up at least one event.
pub proof fn lemma_step_takes_events(options: &ExportOptions, vault: &Vault, n: int, pos: int)
    ensures
        step_at(options, vault, n, pos).used() >= 1,
{
}

/// The notes that the embeds of the note `n` name, in the order of the
/// embeds, from the event `pos` on. Only embeds that are to be expanded
/// count: there are none where embeds are not expanded.
pub open spec fn embeds_from(options: &ExportOptions, vault: &Vault, n: int, pos: int) -> Seq<int>
    decreases vault.body(n).len() - pos,
{
    if pos < 0 || pos >= vault.body(n).len() {
        Seq::<int>::empty()
    } else {
        let step = step_at(options, vault, n, pos);
        if step.used() < 1 {
            Seq::<int>::empty()
        } else {
            let rest = embeds_from(options, vault, n, pos + step.used());
            match step {
                StepView::Embed { target, .. } => seq![target] + rest,
                _ => rest,
            }
        }
    }
}

/// The notes that the note `n` embeds, in the order of the embeds.
pub open spec fn embeds_of(options: &ExportOptions, vault: &Vault, n: int) -> Seq<int> {
    embeds_from(options, vault, n, 0)
}

/// Whether the note at `path` cannot be embedded under the ancestry `tree`:
/// it stands in `tree` already, or with it the chain would be longer than
/// the limit.
pub open spec fn refused(options: &ExportOptions, tree: Seq<Seq<char>>, path: Seq<char>) -> bool {
    tree.contains(path) || tree.len() + 1 > options.recursion_limit
}

/// The first embed that cannot be expanded when the notes `targets` are
/// embedded one after the other under the ancestry `tree`, each expanded in
/// full before the next: the ancestry down to the note that is refused.
/// `None` if all of them can be expanded.
pub open spec fn failure_among(
    vault: &Vault,
    options: &ExportOptions,
    targets: Seq<int>,
    tree: Seq<Seq<char>>,
) -> Option<Seq<Seq<char>>>
    decreases options.recursion_limit - tree.len(), 0nat, targets.len(),
{
    if targets.len() == 0 {
        None
    } else {
        let path = vault.paths()[targets[0]];
        if refused(options, tree, path) {
            Some(tree.push(path))
        } else {
            match note_failure(vault, options, targets[0], tree.push(path)) {
                Some(trace) => Some(trace),
                None => failure_among(vault, options, targets.drop_first(), tree),
            }
        }
    }
}

/// The first embed that cannot be expanded when the note `n` is expanded
/// under the ancestry `tree`, whose last path is that of `n`. `None` if the
/// note can be expanded.
pub open spec fn note_failure(vault: &Vault, options: &ExportOptions, n: int, tree: Seq<Seq<char>>) -> Option<
    Seq<Seq<char>>,
>
    decreases options.recursion_limit - tree.len(), 1nat, 0nat,
{
    failure_among(vault, options, embeds_of(options, vault, n), tree)
}

/// What the expansion of one note comes to.
#[derive(Clone, Debug, PartialEq, Eq)]
pub struct Expansion {
    /// The context of the note as its postprocessors left it.
    pub context: Context,
    /// The body of the note as its postprocessors left it.
    pub events: Vec<Event>,
    /// How the chain of postprocessors ended.
    pub outcome: PostprocessorResult,
}

/// The body that is spliced in for an embedded note: nothing where its
/// postprocessors skipped it, else the body they left.
pub open spec fn spliced(child: Expansion) -> Seq<EventView> {
    if child.outcome == PostprocessorResult::StopAndSkipNote {
        Seq::<EventView>::empty()
    } else {
        events_view(child.events@)
    }
}

/// The note whose body is being expanded.
pub struct Site {
    /// The index of the note in the vault.
    pub note: int,
    /// The ancestry of the note: the chain of notes from the root of the
    /// export down to the note itself.
    pub tree: Seq<Seq<char>>,
    /// The destination of the note.
    pub own: Seq<char>,
}

/// How far the expansion of a body has come.
pub struct Stage {
    /// The event of the body that is next.
    pub pos: int,
    /// What the mapper has handed out.
    pub mapper: PathMapper,
    /// The expanded body so far.
    pub events: Seq<EventView>,
}

/// Names the mapper and the expansion that an embed comes to.
pub open spec fn embedded(after: PathMapper, child: Expansion) -> bool {
    true
}

/// One way in which the expansion of a body may go on from the stage `at`
/// to end in the stage `end`.
///
/// An event that starts no wikilink is taken over. A reference to a note
/// that does not exist becomes its text, emphasized. A link, and an embed
/// where embeds are not expanded, becomes a link from the destination of
/// the note to the destination of its target. An embed is replaced by what
/// its target expands to under the ancestry of the note with the target
/// added, or by nothing where the target's postprocessors skipped it.
pub open spec fn body_expansion(
    exporter: &Exporter,
    vault: &Vault,
    site: Site,
    at: Stage,
    end: Stage,
) -> bool
    decreases exporter.options.recursion_limit - site.tree.len(), 0nat, vault.body(site.note).len()
        - at.pos,
{
    let events = vault.body(site.note);
    let step = step_at(&exporter.options, vault, site.note, at.pos);
    if at.pos < 0 || at.pos >= events.len() {
        end == at
    } else if step.used() < 1 {
        false
    } else {
        let next = at.pos + step.used();
        match step {
            StepView::Keep => body_expansion(
                exporter,
                vault,
                site,
                Stage { pos: next, mapper: at.mapper, events: at.events.push(events[at.pos]) },
                end,
            ),
            StepView::Literal { label, .. } => body_expansion(
                exporter,
                vault,
                site,
                Stage { pos: next, mapper: at.mapper, events: at.events + literal_events(label) },
                end,
            ),
            StepView::Link { target, section, label, .. } => {
                let path = vault.paths()[target];
                let link = link_destination(site.own, at.mapper.destination_of(path), section);
                exists|after: PathMapper|
                    {
                        &&& #[trigger] mapped(at.mapper, path, after)
                        &&& body_expansion(
                            exporter,
                            vault,
                            site,
                            Stage {
                                pos: next,
                                mapper: after,
                                events: at.events + link_events(link, label),
                            },
                            end,
                        )
                    }
            },
            StepView::Embed { target, .. } => {
                let path = vault.paths()[target];
                if refused(&exporter.options, site.tree, path) {
                    false
                } else {
                    exists|after: PathMapper, child: Expansion|
                        {
                            &&& #[trigger] embedded(after, child)
                            &&& note_expansion(
                                exporter,
                                vault,
                                target,
                                site.tree.push(path),
                                at.mapper,
                                after,
                                child,
                            )
                            &&& body_expansion(
                                exporter,
                                vault,
                                site,
                                Stage {
                                    pos: next,
                                    mapper: after,
                                    events: at.events + spliced(child),
                                },
                                end,
                            )
                        }
                }
            },
        }
    }
}

/// The note `n` under the ancestry `tree`, where the mapper stands at
/// `before` when its expansion begins.
pub open spec fn site_of(vault: &Vault, n: int, tree: Seq<Seq<char>>, before: PathMapper) -> Site {
    Site { note: n, tree, own: before.destination_of(vault.paths()[n]) }
}

/// One way in which the note `n` may be expanded under the ancestry `tree`,
/// with the mapper at `m0` before and at `m1` after. The note gets its
/// destination, its body is expanded, and its chain of postprocessors runs
/// on a context of its own, which holds its own frontmatter, and on the
/// expanded body.
pub open spec fn note_expansion(
    exporter: &Exporter,
    vault: &Vault,
    n: int,
    tree: Seq<Seq<char>>,
    m0: PathMapper,
    m1: PathMapper,
    result: Expansion,
) -> bool
    decreases exporter.options.recursion_limit - tree.len(), 1nat, 0nat,
{
    exists|placed: PathMapper, start: Context, body: Seq<Event>|
        {
            &&& #[trigger] mapped(m0, vault.paths()[n], placed)
            &&& body_expansion(
                exporter,
                vault,
                site_of(vault, n, tree, m0),
                Stage { pos: 0, mapper: placed, events: Seq::<EventView>::empty() },
                Stage { pos: vault.body(n).len() as int, mapper: m1, events: events_view(body) },
            )
            &&& start.is_for(
                tree,
                site_of(vault, n, tree, m0).own,
                mapping_entries(vault.notes@[n].frontmatter),
            )
            &&& #[trigger] chain_effect(
                exporter.chain_for(tree),
                0,
                start,
                body,
                &exporter.options,
                result.context,
                result.events@,
                result.outcome,
            )
        }
}

/// Every way to go on from the stage `now` is a way to go on from the
/// stage `start`.
pub open spec fn continues(exporter: &Exporter, vault: &Vault, site: Site, start: Stage, now: Stage) -> bool {
    forall|end: Stage| #[trigger]
        body_expansion(exporter, vault, site, now, end) ==> body_expansion(
            exporter,
            vault,
            site,
            start,
            end,
        )
}

proof fn lemma_keep_step(exporter: &Exporter, vault: &Vault, site: Site, start: Stage, now: Stage)
    requires
        continues(exporter, vault, site, start, now),
        0 <= now.pos < vault.body(site.note).len(),
        step_at(&exporter.options, vault, site.note, now.pos) == StepView::Keep,
    ensures
        continues(
            exporter,
            vault,
            site,
            start,
            Stage {
                pos: now.pos + 1,
                mapper: now.mapper,
                events: now.events.push(vault.body(site.note)[now.pos]),
            },
        ),
{
    let next = Stage {
        pos: now.pos + 1,
        mapper: now.mapper,
        events: now.events.push(vault.body(site.note)[now.pos]),
    };
    assert forall|end: Stage| #[trigger] body_expansion(exporter, vault, site, next, end) implies body_expansion(
        exporter,
        vault,
        site,
        start,
        end,
    ) by {
        assert(body_expansion(exporter, vault, site, now, end));
    }
}

proof fn lemma_literal_step(exporter: &Exporter, vault: &Vault, site: Site, start: Stage, now: Stage)
    requires
        continues(exporter, vault, site, start, now),
        0 <= now.pos < vault.body(site.note).len(),
        step_at(&exporter.options, vault, site.note, now.pos) is Literal,
    ensures
        ({
            let step = step_at(&exporter.options, vault, site.note, now.pos);
            continues(
                exporter,
                vault,
                site,
                start,
                Stage {
                    pos: now.pos + step.used(),
                    mapper: now.mapper,
                    events: now.events + literal_events(step->Literal_label),
                },
            )
        }),
{
    let step = step_at(&exporter.options, vault, site.note, now.pos);
    let next = Stage {
        pos: now.pos + step.used(),
        mapper: now.mapper,
        events: now.events + literal_events(step->Literal_label),
    };
    assert forall|end: Stage| #[trigger] body_expansion(exporter, vault, site, next, end) implies body_expansion(
        exporter,
        vault,
        site,
        start,
        end,
    ) by {
        assert(body_expansion(exporter, vault, site, now, end));
    }
}

proof fn lemma_link_step(
    exporter: &Exporter,
    vault: &Vault,
    site: Site,
    start: Stage,
    now: Stage,
    after: PathMapper,
)
    requires
        continues(exporter, vault, site, start, now),
        0 <= now.pos < vault.body(site.note).len(),
        step_at(&exporter.options, vault, site.note, now.pos) is Link,
        mapped(
            now.mapper,
            vault.paths()[step_at(&exporter.options, vault, site.note, now.pos)->Link_target],
            after,
        ),
    ensures
        ({
            let step = step_at(&exporter.options, vault, site.note, now.pos);
            let path = vault.paths()[step->Link_target];
            let link = link_destination(
                site.own,
                now.mapper.destination_of(path),
                step->Link_section,
            );
            continues(
                exporter,
                vault,
                site,
                start,
                Stage {
                    pos: now.pos + step.used(),
                    mapper: after,
                    events: now.events + link_events(link, step->Link_label),
                },
            )
        }),
{
    let step = step_at(&exporter.options, vault, site.note, now.pos);
    let path = vault.paths()[step->Link_target];
    let link = link_destination(site.own, now.mapper.destination_of(path), step->Link_section);
    let next = Stage {
        pos: now.pos + step.used(),
        mapper: after,
        events: now.events + link_events(link, step->Link_label),
    };
    assert forall|end: Stage| #[trigger] body_expansion(exporter, vault, site, next, end) implies body_expansion(
        exporter,
        vault,
        site,
        start,
        end,
    ) by {
        assert(mapped(now.mapper, path, after));
        assert(body_expansion(exporter, vault, site, now, end));
    }
}

proof fn lemma_embed_step(
    exporter: &Exporter,
    vault: &Vault,
    site: Site,
    start: Stage,
    now: Stage,
    after: PathMapper,
    child: Expansion,
)
    requires
        continues(exporter, vault, site, start, now),
        0 <= now.pos < vault.body(site.note).len(),
        step_at(&exporter.options, vault, site.note, now.pos) is Embed,
        ({
            let step = step_at(&exporter.options, vault, site.note, now.pos);
            let path = vault.paths()[step->Embed_target];
            &&& !refused(&exporter.options, site.tree, path)
            &&& note_expansion(
                exporter,
                vault,
                step->Embed_target,
                site.tree.push(path),
                now.mapper,
                after,
                child,
            )
        }),
    ensures
        continues(
            exporter,
            vault,
            site,
            start,
            Stage {
                pos: now.pos + step_at(&exporter.options, vault, site.note, now.pos).used(),
                mapper: after,
                events: now.events + spliced(child),
            },
        ),
{
    let step = step_at(&exporter.options, vault, site.note, now.pos);
    let next = Stage {
        pos: now.pos + step.used(),
        mapper: after,
        events: now.events + spliced(child),
    };
    assert forall|end: Stage| #[trigger] body_expansion(exporter, vault, site, next, end) implies body_expansion(
        exporter,
        vault,
        site,
        start,
        end,
    ) by {
        assert(embedded(after, child));
        assert(body_expansion(exporter, vault, site, now, end));
    }
}

/// Appends the events of a link to `destination` that shows `label`.
fn push_link(out: &mut Vec<Event>, destination: String, label: String)
    ensures
        events_view(final(out)@) == events_view(old(out)@) + link_events(destination@, label@),
{
    let opening = Tag::Link {
        kind: LinkType::Inline,
        destination: destination.clone(),
        title: String::new(),
    };
    let closing = Tag::Link { kind: LinkType::Inline, destination, title: String::new() };
    out.push(Event::Start(opening));
    out.push(Event::Text(label));
    out.push(Event::End(closing));
    assert(events_view(out@) =~= events_view(old(out)@) + link_events(destination@, label@));
}

/// Appends the emphasized text that stands for a reference to a note that
/// does not exist.
fn push_literal(out: &mut Vec<Event>, label: String)
    ensures
        events_view(final(out)@) == events_view(old(out)@) + literal_events(label@),
{
    out.push(Event::Start(Tag::Emphasis));
    out.push(Event::Text(label));
    out.push(Event::End(Tag::Emphasis));
    assert(events_view(out@) =~= events_view(old(out)@) + literal_events(label@));
}

/// Computes `link_destination`.
fn link_target(from: &str, to: &str, section: &Option<String>) -> (r: String)
    ensures
        r@ == link_destination(from@, to@, option_chars(*section)),
{
    let path = relative_link(from, to);
    match section {
        None => path,
        Some(section) => {
            let mut chars = chars_of(path.as_str());
            chars.push('#');
            let tail = chars_of(section.as_str());
            extend_chars(&mut chars, &tail);
            assert(chars@ =~= path@ + seq!['#'] + section@);
            string_of(&chars)
        },
    }
}

impl Exporter {
    /// What is to be done at the event `pos` of the note `n`.
    pub fn step(&self, vault: &Vault, n: usize, pos: usize) -> (step: Step)
        requires
            n < vault.notes.len(),
            pos < vault.notes@[n as int].events.len(),
        ensures
            step@ == step_at(&self.options, vault, n as int, pos as int),
            1 <= step@.used(),
            pos + step@.used() <= vault.notes@[n as int].events.len(),
            step matches Step::Link { target, .. } ==> target < vault.notes.len(),
            step matches Step::Embed { target, .. } ==> target < vault.notes.len(),
    {
        let found = match find_reference(&vault.notes[n].events, pos) {
            None => {
                return Step::Keep;
            },
            Some(found) => found,
        };
        let reference = NoteReference::from_str(found.text.as_str());
        let target = match &reference.file {
            None => Some(n),
            Some(title) => vault.resolve(title.as_str()).index(),
        };
        match target {
            None => Step::Literal { label: reference.display(), used: found.events },
            Some(target) => if found.embed && self.options.recursive_embeds {
                Step::Embed { target, used: found.events }
            } else {
                let label = reference.display();
                Step::Link { target, section: reference.section, label, used: found.events }
            },
        }
    }

    /// Expands the note `n` under the ancestry `tree`, whose last path is
    /// that of `n`. Fails with the ancestry down to the first embed that
    /// cannot be expanded, because it closes a cycle or would make the
    /// chain longer than the limit.
    pub fn expand_note(&self, vault: &Vault, n: usize, tree: FileTree, mapper: &mut PathMapper) -> (r:
        Result<Expansion, Vec<String>>)
        requires
            n < vault.notes.len(),
            tree@.last() == vault.paths()[n as int],
            old(mapper).wf(),
        ensures
            final(mapper).wf(),
            keeps(*old(mapper), *final(mapper)),
            match r {
                Err(trace) => note_failure(vault, &self.options, n as int, tree@) == Some(
                    strings_view(trace@),
                ),
                Ok(expansion) => {
                    &&& note_failure(vault, &self.options, n as int, tree@) is None
                    &&& note_expansion(
                        self,
                        vault,
                        n as int,
                        tree@,
                        *old(mapper),
                        *final(mapper),
                        expansion,
                    )
                },
            },
        decreases self.options.recursion_limit - tree@.len(),
    {
        let note = &vault.notes[n];
        let own = mapper.map(note.path.as_str());
        let depth = tree.depth();
        let ghost site = site_of(vault, n as int, tree@, *old(mapper));
        let ghost start = Stage { pos: 0, mapper: *mapper, events: Seq::<EventView>::empty() };
        let ghost paths = vault.paths();
        proof {
            lemma_mapped_keeps(*old(mapper), note.path@, *mapper);
        }
        let mut out: Vec<Event> = Vec::new();
        let mut pos: usize = 0;
        assert(events_view(out@) =~= Seq::<EventView>::empty());
        while pos < note.events.len()
            invariant
                n < vault.notes.len(),
                note == vault.notes@[n as int],
                paths == vault.paths(),
                pos <= note.events.len(),
                depth == tree@.len(),
                site == site_of(vault, n as int, tree@, *old(mapper)),
                own@ == site.own,
                mapper.wf(),
                keeps(*old(mapper), *mapper),
                failure_among(vault, &self.options, embeds_of(&self.options, vault, n as int), tree@)
                    == failure_among(
                    vault,
                    &self.options,
                    embeds_from(&self.options, vault, n as int, pos as int),
                    tree@,
                ),
                continues(
                    self,
                    vault,
                    site,
                    start,
                    Stage { pos: pos as int, mapper: *mapper, events: events_view(out@) },
                ),
            decreases note.events.len() - pos,
        {
            let ghost now = Stage { pos: pos as int, mapper: *mapper, events: events_view(out@) };
            let ghost rest = embeds_from(&self.options, vault, n as int, pos as int);
            match self.step(vault, n, pos) {
                Step::Keep => {
                    out.push(note.events[pos].duplicate());
                    proof {
                        lemma_keep_step(self, vault, site, start, now);
                        assert(events_view(out@) =~= now.events.push(vault.body(n as int)[pos as int]));
                    }
                    pos = pos + 1;
                },
                Step::Literal { label, used } => {
                    push_literal(&mut out, label);
                    proof {
                        lemma_literal_step(self, vault, site, start, now);
                    }
                    pos = pos + used;
                },
                Step::Link { target, section, label, used } => {
                    let path = &vault.notes[target].path;
                    let destination = mapper.map(path.as_str());
                    let link = link_target(own.as_str(), destination.as_str(), &section);
                    push_link(&mut out, link, label);
                    proof {
                        lemma_mapped_keeps(now.mapper, path@, *mapper);
                        lemma_keeps_transitive(*old(mapper), now.mapper, *mapper);
                        lemma_link_step(self, vault, site, start, now, *mapper);
                    }
                    pos = pos + used;
                },
                Step::Embed { target, used } => {
                    let path = &vault.notes[target].path;
                    let below = if depth >= self.options.recursion_limit {
                        None
                    } else {
                        tree.child(path.as_str())
                    };
                    let below = match below {
                        None => {
                            let mut trace = tree.to_vec();
                            trace.push(path.clone());
                            assert(strings_view(trace@) =~= tree@.push(path@));
                            return Err(trace);
                        },
                        Some(below) => below,
                    };
                    let expanded = self.expand_note(vault, target, below, mapper);
                    proof {
                        lemma_keeps_transitive(*old(mapper), now.mapper, *mapper);
                    }
                    let child = match expanded {
                        Err(trace) => {
                            return Err(trace);
                        },
                        Ok(child) => child,
                    };
                    match child.outcome {
                        PostprocessorResult::StopAndSkipNote => {
                            assert(events_view(out@) =~= now.events + spliced(child));
                        },
                        _ => {
                            append_events(&mut out, &child.events);
                        },
                    }
                    proof {
                        lemma_embed_step(self, vault, site, start, now, *mapper, child);
                        assert(rest.drop_first() =~= embeds_from(
                            &self.options,
                            vault,
                            n as int,
                            pos + used,
                        ));
                    }
                    pos = pos + used;
                },
            }
        }
        let ghost body = out@;
        let ghost end = Stage { pos: pos as int, mapper: *mapper, events: events_view(body) };
        let frontmatter = note.frontmatter.clone();
        let is_root = depth <= 1;
        let mut context = Context::new(tree, own, frontmatter);
        let ghost first = context;
        let outcome = if is_root {
            run_postprocessors(&self.postprocessors, &mut context, &mut out, &self.options)
        } else {
            run_postprocessors(&self.embed_postprocessors, &mut context, &mut out, &self.options)
        };
        let expansion = Expansion { context, events: out, outcome };
        proof {
            assert(body_expansion(self, vault, site, end, end));
            assert(mapped(*old(mapper), paths[n as int], start.mapper));
            assert(chain_effect(
                self.chain_for(tree@),
                0,
                first,
                body,
                &self.options,
                expansion.context,
                expansion.events@,
                expansion.outcome,
            ));
        }
        Ok(expansion)
    }
}

/// The chain of postprocessors of a note that expanded ran on the note's
/// own context: one with the note's own ancestry, destination and
/// frontmatter.
pub proof fn lemma_expansion_runs_chain(
    exporter: &Exporter,
    vault: &Vault,
    n: int,
    tree: Seq<Seq<char>>,
    m0: PathMapper,
    m1: PathMapper,
    result: Expansion,
)
    requires
        note_expansion(exporter, vault, n, tree, m0, m1, result),
    ensures
        exists|start: Context, body: Seq<Event>|
            {
                &&& start.is_for(
                    tree,
                    m0.destination_of(vault.paths()[n]),
                    mapping_entries(vault.notes@[n].frontmatter),
                )
                &&& #[trigger] chain_effect(
                    exporter.chain_for(tree),
                    0,
                    start,
                    body,
                    &exporter.options,
                    result.context,
                    result.events@,
                    result.outcome,
                )
            },
{
    let (placed, start, body) = choose|placed: PathMapper, start: Context, body: Seq<Event>|
        {
            &&& #[trigger] mapped(m0, vault.paths()[n], placed)
            &&& body_expansion(
                exporter,
                vault,
                site_of(vault, n, tree, m0),
                Stage { pos: 0, mapper: placed, events: Seq::<EventView>::empty() },
                Stage { pos: vault.body(n).len() as int, mapper: m1, events: events_view(body) },
            )
            &&& start.is_for(
                tree,
                site_of(vault, n, tree, m0).own,
                mapping_entries(vault.notes@[n].frontmatter),
            )
            &&& #[trigger] chain_effect(
                exporter.chain_for(tree),
                0,
                start,
                body,
                &exporter.options,
                result.context,
                result.events@,
                result.outcome,
            )
        };
    assert(chain_effect(
        exporter.chain_for(tree),
        0,
        start,
        body,
        &exporter.options,
        result.context,
        result.events@,
        result.outcome,
    ));
}

/// A note that embeds nothing never fails to expand: where every embed is
/// already flattened, none is expanded again.
pub proof fn lemma_flattened_note_expands(
    vault: &Vault,
    options: &ExportOptions,
    n: int,
    tree: Seq<Seq<char>>,
)
    requires
        embeds_of(options, vault, n).len() == 0,
    ensures
        note_failure(vault, options, n, tree) is None,
{
}

/// Where embeds are not expanded, no note embeds anything.
pub proof fn lemma_no_embeds_without_recursion(
    vault: &Vault,
    options: &ExportOptions,
    n: int,
    pos: int,
)
    requires
        !options.recursive_embeds,
    ensures
        embeds_from(options, vault, n, pos).len() == 0,
    decreases vault.body(n).len() - pos,
{
    if 0 <= pos < vault.body(n).len() {
        let step = step_at(options, vault, n, pos);
        lemma_no_embeds_without_recursion(vault, options, n, pos + step.used());
    }
}

/// Where embeds are not expanded, no note fails to expand.
pub proof fn lemma_no_failure_without_recursion(
    vault: &Vault,
    options: &ExportOptions,
    n: int,
    tree: Seq<Seq<char>>,
)
    requires
        !options.recursive_embeds,
    ensures
        note_failure(vault, options, n, tree) is None,
{
    lemma_no_embeds_without_recursion(vault, options, n, 0);
}

/// A cycle of two: where the first embed of the note `a` is the note `b`
/// and the first embed of `b` is `a`, the export of `a` fails, and the trace
/// is `a`, `b`, `a`.
pub proof fn lemma_cycle_is_reported(vault: &Vault, options: &ExportOptions, a: int, b: int)
    requires
        options.recursion_limit >= 2,
        embeds_of(options, vault, a).len() >= 1,
        embeds_of(options, vault, a)[0] == b,
        embeds_of(options, vault, b).len() >= 1,
        embeds_of(options, vault, b)[0] == a,
        vault.paths()[a] != vault.paths()[b],
    ensures
        note_failure(vault, options, a, seq![vault.paths()[a]]) == Some(
            seq![vault.paths()[a], vault.paths()[b], vault.paths()[a]],
        ),
{
    let pa = vault.paths()[a];
    let pb = vault.paths()[b];
    let root = seq![pa];
    let below = root.push(pb);
    assert(!root.contains(pb)) by {
        if root.contains(pb) {
            let at = choose|at: int| 0 <= at < root.len() && root[at] == pb;
        }
    }
    assert(below[0] == pa);
    assert(below.contains(pa));
    assert(refused(options, below, pa));
    assert(failure_among(vault, options, embeds_of(options, vault, b), below) == Some(
        below.push(pa),
    ));
    assert(note_failure(vault, options, b, below) == Some(below.push(pa)));
    assert(!refused(options, root, pb));
    assert(failure_among(vault, options, embeds_of(options, vault, a), root) == Some(
        below.push(pa),
    ));
    assert(below.push(pa) =~= seq![pa, pb, pa]);
}

/// The paths of the first `count` notes of `chain`.
pub open spec fn chain_paths(vault: &Vault, chain: Seq<int>, count: int) -> Seq<Seq<char>> {
    Seq::new(count as nat, |i: int| vault.paths()[chain[i]])
}

/// `chain` is a chain of notes each of which embeds the next and nothing
/// else, and the last of which embeds nothing, all with different paths.
pub open spec fn is_embed_chain(options: &ExportOptions, vault: &Vault, chain: Seq<int>) -> bool {
    &&& chain.len() >= 1
    &&& forall|i: int|
        0 <= i < chain.len() - 1 ==> #[trigger] embeds_of(options, vault, chain[i]) == seq![
            chain[i + 1],
        ]
    &&& embeds_of(options, vault, chain.last()).len() == 0
    &&& forall|i: int, j: int|
        0 <= i < j < chain.len() ==> vault.paths()[chain[i]] != vault.paths()[chain[j]]
}

proof fn lemma_chain_from(vault: &Vault, options: &ExportOptions, chain: Seq<int>, at: int)
    requires
        is_embed_chain(options, vault, chain),
        0 <= at < chain.len(),
        at + 1 <= options.recursion_limit,
    ensures
        note_failure(vault, options, chain[at], chain_paths(vault, chain, at + 1)) is Some
            <==> options.recursion_limit < chain.len(),
    decreases chain.len() - at,
{
    let tree = chain_paths(vault, chain, at + 1);
    if at == chain.len() - 1 {
        assert(chain[at] == chain.last());
    } else {
        let next = chain[at + 1];
        let path = vault.paths()[next];
        let targets = embeds_of(options, vault, chain[at]);
        assert(targets == seq![next]);
        assert(targets[0] == next);
        assert(targets.drop_first() =~= Seq::<int>::empty());
        assert(!tree.contains(path)) by {
            if tree.contains(path) {
                let i = choose|i: int| 0 <= i < tree.len() && tree[i] == path;
                assert(vault.paths()[chain[i]] != vault.paths()[chain[at + 1]]);
            }
        }
        assert(tree.push(path) =~= chain_paths(vault, chain, at + 2));
        if at + 2 <= options.recursion_limit {
            lemma_chain_from(vault, options, chain, at + 1);
            assert(!refused(options, tree, path));
            assert(failure_among(vault, options, targets.drop_first(), tree) is None);
        } else {
            assert(refused(options, tree, path));
        }
    }
}

/// A chain of notes, each embedding the next: the export of the first fails
/// exactly when the limit is smaller than the number of notes in the chain.
pub proof fn lemma_depth_limit(vault: &Vault, options: &ExportOptions, chain: Seq<int>)
    requires
        options.recursion_limit >= 1,
        is_embed_chain(options, vault, chain),
    ensures
        note_failure(vault, options, chain[0], seq![vault.paths()[chain[0]]]) is Some
            <==> options.recursion_limit < chain.len(),
{
    assert(chain_paths(vault, chain, 1) =~= seq![vault.paths()[chain[0]]]);
    lemma_chain_from(vault, options, chain, 0);
}

/// Every call of the first postprocessor of `chain` under `options` skips
/// the note.
pub open spec fn first_always_skips(chain: Seq<Box<dyn Postprocessor>>, options: &ExportOptions) -> bool {
    forall|
        before: Context,
        events_before: Seq<Event>,
        after: Context,
        events_after: Seq<Event>,
        outcome: PostprocessorResult,
    |
        (#[trigger] chain[0].effect(
            before,
            events_before,
            options,
            after,
            events_after,
            outcome,
        )) ==> outcome == PostprocessorResult::StopAndSkipNote
}

/// A chain whose first postprocessor always skips the note ends with the
/// note skipped.
pub proof fn lemma_first_skip_ends_chain(
    chain: Seq<Box<dyn Postprocessor>>,
    before: Context,
    events_before: Seq<Event>,
    options: &ExportOptions,
    after: Context,
    events_after: Seq<Event>,
    outcome: PostprocessorResult,
)
    requires
        chain.len() >= 1,
        first_always_skips(chain, options),
        chain_effect(chain, 0, before, events_before, options, after, events_after, outcome),
    ensures
        outcome == PostprocessorResult::StopAndSkipNote,
{
    let (between, events_between, step) = choose|
        between: Context,
        events_between: Seq<Event>,
        step: PostprocessorResult,
    |
        {
            &&& #[trigger] chain[0].effect(before, events_before, options, between, events_between, step)
            &&& if step == PostprocessorResult::Continue {
                chain_effect(
                    chain,
                    1,
                    between,
                    events_between,
                    options,
                    after,
                    events_after,
                    outcome,
                )
            } else {
                after == between && events_after == events_between && outcome == step
            }
        };
}

/// An embedded note whose first postprocessor always skips it leaves no
/// event in the note that embeds it.
pub proof fn lemma_skipped_embed_leaves_nothing(
    exporter: &Exporter,
    vault: &Vault,
    n: int,
    tree: Seq<Seq<char>>,
    m0: PathMapper,
    m1: PathMapper,
    child: Expansion,
)
    requires
        tree.len() >= 2,
        exporter.embed_postprocessors@.len() >= 1,
        first_always_skips(exporter.embed_postprocessors@, &exporter.options),
        note_expansion(exporter, vault, n, tree, m0, m1, child),
    ensures
        child.outcome == PostprocessorResult::StopAndSkipNote,
        spliced(child).len() == 0,
{
    lemma_expansion_runs_chain(exporter, vault, n, tree, m0, m1, child);
    let (start, body) = choose|start: Context, body: Seq<Event>|
        {
            &&& start.is_for(
                tree,
                m0.destination_of(vault.paths()[n]),
                mapping_entries(vault.notes@[n].frontmatter),
            )
            &&& #[trigger] chain_effect(
                exporter.chain_for(tree),
                0,
                start,
                body,
                &exporter.options,
                child.context,
                child.events@,
                child.outcome,
            )
        };
    lemma_first_skip_ends_chain(
        exporter.embed_postprocessors@,
        start,
        body,
        &exporter.options,
        child.context,
        child.events@,
        child.outcome,
    );
}

/// The first postprocessor that runs on a note is handed the context of
/// that note: the note's own frontmatter and the note's own ancestry,
/// whether the note is the root or embedded.
pub proof fn lemma_postprocessor_sees_own_note(
    exporter: &Exporter,
    vault: &Vault,
    n: int,
    tree: Seq<Seq<char>>,
    m0: PathMapper,
    m1: PathMapper,
    result: Expansion,
)
    requires
        exporter.chain_for(tree).len() >= 1,
        note_expansion(exporter, vault, n, tree, m0, m1, result),
    ensures
        exists|
            before: Context,
            events_before: Seq<Event>,
            after: Context,
            events_after: Seq<Event>,
            outcome: PostprocessorResult,
        |
            {
                &&& #[trigger] exporter.chain_for(tree)[0].effect(
                    before,
                    events_before,
                    &exporter.options,
                    after,
                    events_after,
                    outcome,
                )
                &&& before.file_tree@ == tree
                &&& mapping_entries(before.frontmatter) == mapping_entries(
                    vault.notes@[n].frontmatter,
                )
            },
{
    lemma_expansion_runs_chain(exporter, vault, n, tree, m0, m1, result);
    let (start, body) = choose|start: Context, body: Seq<Event>|
        {
            &&& start.is_for(
                tree,
                m0.destination_of(vault.paths()[n]),
                mapping_entries(vault.notes@[n].frontmatter),
            )
            &&& #[trigger] chain_effect(
                exporter.chain_for(tree),
                0,
                start,
                body,
                &exporter.options,
                result.context,
                result.events@,
                result.outcome,
            )
        };
    let chain = exporter.chain_for(tree);
    let (between, events_between, step) = choose|
        between: Context,
        events_between: Seq<Event>,
        step: PostprocessorResult,
    |
        {
            &&& #[trigger] chain[0].effect(start, body, &exporter.options, between, events_between, step)
            &&& if step == PostprocessorResult::Continue {
                chain_effect(
                    chain,
                    1,
                    between,
                    events_between,
                    &exporter.options,
                    result.context,
                    result.events@,
                    result.outcome,
                )
            } else {
                result.context == between && result.events@ == events_between && result.outcome
                    == step
            }
        };
}

} // verus!
