//! Nesting of spans: every `End` closes a `Start`. Expansion keeps bodies
//! well nested: what it takes out is text, and what it puts in is well
//! nested itself.

use vstd::prelude::*;
use crate::context::Context;
use crate::events::{events_view, Event, EventView};
use crate::expander::{
    body_expansion, embedded, link_destination, link_events, literal_events, note_expansion,
    site_of, spliced, step_at, Expansion, Site, Stage, StepView,
};
use crate::exporter::Exporter;
use crate::frontmatter::mapping_entries;
use crate::mapper::{mapped, PathMapper};
use crate::postprocessors::{chain_effect, PostprocessorResult};
use crate::reference::{lemma_best_match, parse_reference};
use crate::scanner::{inner_len, reference_at};
use crate::vault::Vault;

verus! {

/// How many spans are open after `events`, where `depth` were open before
/// them; `None` where an `End` finds no span open.
pub open spec fn depth_after(events: Seq<EventView>, depth: int) -> Option<int>
    decreases events.len(),
{
    if events.len() == 0 {
        Some(depth)
    } else {
        match depth_after(events.drop_last(), depth) {
            None => None,
            Some(open) => match events.last() {
                EventView::Start(_) => Some(open + 1),
                EventView::End(_) => if open <= 0 {
                    None
                } else {
                    Some(open - 1)
                },
                _ => Some(open),
            },
        }
    }
}

/// Every span that `events` open they close, and they close no other.
pub open spec fn well_nested(events: Seq<EventView>) -> bool {
    depth_after(events, 0) == Some(0int)
}

/// `events` leave open what was open: they may stand anywhere in a well
/// nested body.
pub open spec fn neutral(events: Seq<EventView>) -> bool {
    forall|depth: int| depth >= 0 ==> #[trigger] depth_after(events, depth) == Some(depth)
}

proof fn lemma_depth_of_concat(a: Seq<EventView>, b: Seq<EventView>, depth: int)
    ensures
        depth_after(a + b, depth) == match depth_after(a, depth) {
            None => None,
            Some(open) => depth_after(b, open),
        },
    decreases b.len(),
{
    if b.len() == 0 {
        assert(a + b =~= a);
    } else {
        lemma_depth_of_concat(a, b.drop_last(), depth);
        assert((a + b).drop_last() =~= a + b.drop_last());
        assert((a + b).last() == b.last());
    }
}

proof fn lemma_depth_is_not_negative(events: Seq<EventView>, depth: int)
    requires
        depth >= 0,
    ensures
        depth_after(events, depth) matches Some(open) ==> open >= 0,
    decreases events.len(),
{
    if events.len() > 0 {
        lemma_depth_is_not_negative(events.drop_last(), depth);
    }
}

proof fn lemma_depth_shifts(events: Seq<EventView>, depth: int, more: int)
    requires
        depth >= 0,
        more >= 0,
        depth_after(events, depth) is Some,
    ensures
        depth_after(events, depth + more) == Some(depth_after(events, depth)->0 + more),
    decreases events.len(),
{
    if events.len() > 0 {
        lemma_depth_shifts(events.drop_last(), depth, more);
        lemma_depth_is_not_negative(events.drop_last(), depth);
    }
}

/// A well nested run of events is neutral.
pub proof fn lemma_well_nested_is_neutral(events: Seq<EventView>)
    requires
        well_nested(events),
    ensures
        neutral(events),
{
    assert forall|depth: int| depth >= 0 implies #[trigger] depth_after(events, depth) == Some(
        depth,
    ) by {
        lemma_depth_shifts(events, 0, depth);
    }
}

proof fn lemma_text_is_neutral(events: Seq<EventView>)
    requires
        forall|i: int| 0 <= i < events.len() ==> #[trigger] events[i] is Text,
    ensures
        neutral(events),
    decreases events.len(),
{
    if events.len() > 0 {
        let front = events.drop_last();
        assert forall|i: int| 0 <= i < front.len() implies #[trigger] front[i] is Text by {
            assert(front[i] == events[i]);
        }
        lemma_text_is_neutral(front);
        assert(events.last() == events[events.len() - 1]);
        assert forall|depth: int| depth >= 0 implies #[trigger] depth_after(events, depth) == Some(
            depth,
        ) by {
            assert(depth_after(front, depth) == Some(depth));
        }
    } else {
        assert forall|depth: int| depth >= 0 implies #[trigger] depth_after(events, depth) == Some(
            depth,
        ) by {}
    }
}

proof fn lemma_link_is_neutral(destination: Seq<char>, label: Seq<char>)
    ensures
        neutral(link_events(destination, label)),
{
    let events = link_events(destination, label);
    assert forall|depth: int| depth >= 0 implies #[trigger] depth_after(events, depth) == Some(
        depth,
    ) by {
        let two = events.drop_last();
        let one = two.drop_last();
        assert(one.drop_last() =~= Seq::<EventView>::empty());
        assert(depth_after(one.drop_last(), depth) == Some(depth));
        assert(depth_after(one, depth) == Some(depth + 1));
        assert(depth_after(two, depth) == Some(depth + 1));
    }
}

proof fn lemma_literal_is_neutral(label: Seq<char>)
    ensures
        neutral(literal_events(label)),
{
    let events = literal_events(label);
    assert forall|depth: int| depth >= 0 implies #[trigger] depth_after(events, depth) == Some(
        depth,
    ) by {
        let two = events.drop_last();
        let one = two.drop_last();
        assert(one.drop_last() =~= Seq::<EventView>::empty());
        assert(depth_after(one.drop_last(), depth) == Some(depth));
        assert(depth_after(one, depth) == Some(depth + 1));
        assert(depth_after(two, depth) == Some(depth + 1));
    }
}

/// Putting one neutral run in the place of another leaves the depth as it
/// was.
proof fn lemma_swap_neutral(
    before: Seq<EventView>,
    taken: Seq<EventView>,
    put: Seq<EventView>,
    after: Seq<EventView>,
)
    requires
        neutral(taken),
        neutral(put),
    ensures
        depth_after(before + put + after, 0) == depth_after(before + taken + after, 0),
{
    lemma_depth_of_concat(before + put, after, 0);
    lemma_depth_of_concat(before, put, 0);
    lemma_depth_of_concat(before + taken, after, 0);
    lemma_depth_of_concat(before, taken, 0);
    lemma_depth_is_not_negative(before, 0);
}

proof fn lemma_inner_is_text(events: Seq<EventView>, from: int, at: int)
    requires
        0 <= from <= at < from + inner_len(events, from),
    ensures
        at < events.len(),
        events[at] is Text,
    decreases events.len() - from,
{
    if at > from {
        lemma_inner_is_text(events, from + 1, at);
    }
}

/// A wikilink is made of text runs alone.
proof fn lemma_reference_is_text(events: Seq<EventView>, at: int)
    requires
        reference_at(events, at) is Some,
    ensures
        at + reference_at(events, at)->0.events <= events.len(),
        forall|i: int|
            at <= i < at + reference_at(events, at)->0.events ==> #[trigger] events[i] is Text,
{
    let count = inner_len(events, at + 2);
    assert forall|i: int| at <= i < at + count + 4 implies #[trigger] events[i] is Text by {
        if at + 2 <= i < at + 2 + count {
            lemma_inner_is_text(events, at + 2, i);
        }
    }
}

/// The depth that a body comes to if it goes on from the stage `at` as the
/// source has it.
pub open spec fn depth_ahead(vault: &Vault, site: Site, at: Stage) -> Option<int> {
    depth_after(at.events + vault.body(site.note).skip(at.pos), 0)
}

/// No postprocessor is registered, for root notes or for embedded notes.
pub open spec fn runs_no_postprocessor(exporter: &Exporter) -> bool {
    exporter.postprocessors@.len() == 0 && exporter.embed_postprocessors@.len() == 0
}

/// The body of every note of the vault is well nested.
pub open spec fn all_well_nested(vault: &Vault) -> bool {
    forall|n: int| 0 <= n < vault.notes@.len() ==> well_nested(#[trigger] vault.body(n))
}

proof fn lemma_body_keeps_depth(
    exporter: &Exporter,
    vault: &Vault,
    site: Site,
    at: Stage,
    end: Stage,
)
    requires
        runs_no_postprocessor(exporter),
        all_well_nested(vault),
        0 <= site.note < vault.notes@.len(),
        0 <= at.pos <= vault.body(site.note).len(),
        body_expansion(exporter, vault, site, at, end),
    ensures
        depth_after(end.events, 0) == depth_ahead(vault, site, at),
    decreases exporter.options.recursion_limit - site.tree.len(), 0nat, vault.body(site.note).len()
        - at.pos,
{
    let events = vault.body(site.note);
    let step = step_at(&exporter.options, vault, site.note, at.pos);
    if at.pos >= events.len() {
        assert(at.events + events.skip(at.pos) =~= at.events);
    } else {
        let next = at.pos + step.used();
        let taken = events.subrange(at.pos, next);
        let rest = events.skip(next);
        match step {
            StepView::Keep => {
                let stage = Stage {
                    pos: next,
                    mapper: at.mapper,
                    events: at.events.push(events[at.pos]),
                };
                lemma_body_keeps_depth(exporter, vault, site, stage, end);
                assert(stage.events + rest =~= at.events + events.skip(at.pos));
            },
            StepView::Literal { label, .. } => {
                let put = literal_events(label);
                let stage = Stage { pos: next, mapper: at.mapper, events: at.events + put };
                lemma_reference_is_text(events, at.pos);
                lemma_body_keeps_depth(exporter, vault, site, stage, end);
                lemma_literal_is_neutral(label);
                assert forall|i: int| 0 <= i < taken.len() implies #[trigger] taken[i] is Text by {
                    assert(taken[i] == events[at.pos + i]);
                }
                lemma_text_is_neutral(taken);
                lemma_swap_neutral(at.events, taken, put, rest);
                assert(at.events + taken + rest =~= at.events + events.skip(at.pos));
            },
            StepView::Link { target, section, label, .. } => {
                let path = vault.paths()[target];
                let link = link_destination(site.own, at.mapper.destination_of(path), section);
                let put = link_events(link, label);
                let after = choose|after: PathMapper|
                    {
                        &&& #[trigger] mapped(at.mapper, path, after)
                        &&& body_expansion(
                            exporter,
                            vault,
                            site,
                            Stage { pos: next, mapper: after, events: at.events + put },
                            end,
                        )
                    };
                let stage = Stage { pos: next, mapper: after, events: at.events + put };
                lemma_reference_is_text(events, at.pos);
                lemma_body_keeps_depth(exporter, vault, site, stage, end);
                lemma_link_is_neutral(link, label);
                assert forall|i: int| 0 <= i < taken.len() implies #[trigger] taken[i] is Text by {
                    assert(taken[i] == events[at.pos + i]);
                }
                lemma_text_is_neutral(taken);
                lemma_swap_neutral(at.events, taken, put, rest);
                assert(at.events + taken + rest =~= at.events + events.skip(at.pos));
            },
            StepView::Embed { target, .. } => {
                let path = vault.paths()[target];
                let (after, child) = choose|after: PathMapper, child: Expansion|
                    {
                        &&& #[trigger] embedded(after, child)
                        &&& note_expansion(
                            exporter,
                            vault,
                            target,
                            site.tree.push(path),
                            at.mapper,
                            after,
                            child,
                        )
                        &&& body_expansion(
                            exporter,
                            vault,
                            site,
                            Stage {
                                pos: next,
                                mapper: after,
                                events: at.events + spliced(child),
                            },
                            end,
                        )
                    };
                let put = spliced(child);
                let stage = Stage { pos: next, mapper: after, events: at.events + put };
                lemma_reference_is_text(events, at.pos);
                assert(0 <= target < vault.notes@.len()) by {
                    lemma_target_is_note(exporter, vault, site.note, at.pos);
                }
                lemma_note_keeps_nesting(
                    exporter,
                    vault,
                    target,
                    site.tree.push(path),
                    at.mapper,
                    after,
                    child,
                );
                lemma_body_keeps_depth(exporter, vault, site, stage, end);
                if child.outcome == PostprocessorResult::StopAndSkipNote {
                    assert(neutral(put)) by {
                        assert forall|depth: int| depth >= 0 implies #[trigger] depth_after(
                            put,
                            depth,
                        ) == Some(depth) by {}
                    }
                } else {
                    lemma_well_nested_is_neutral(put);
                }
                assert forall|i: int| 0 <= i < taken.len() implies #[trigger] taken[i] is Text by {
                    assert(taken[i] == events[at.pos + i]);
                }
                lemma_text_is_neutral(taken);
                lemma_swap_neutral(at.events, taken, put, rest);
                assert(at.events + taken + rest =~= at.events + events.skip(at.pos));
            },
        }
    }
}

/// An embed that is to be expanded names a note of the vault.
proof fn lemma_target_is_note(exporter: &Exporter, vault: &Vault, n: int, pos: int)
    requires
        0 <= n < vault.notes@.len(),
        step_at(&exporter.options, vault, n, pos) is Embed,
    ensures
        0 <= step_at(&exporter.options, vault, n, pos)->Embed_target < vault.notes@.len(),
{
    let found = reference_at(vault.body(n), pos)->0;
    let reference = parse_reference(found.text);
    match reference.file {
        None => {},
        Some(title) => {
            lemma_best_match(vault.paths(), title, vault.paths().len() as int);
        },
    }
}

/// Where no postprocessor is registered and the body of every note of the
/// vault is well nested, the body of every expansion is well nested:
/// splicing keeps the nesting.
pub proof fn lemma_note_keeps_nesting(
    exporter: &Exporter,
    vault: &Vault,
    n: int,
    tree: Seq<Seq<char>>,
    m0: PathMapper,
    m1: PathMapper,
    result: Expansion,
)
    requires
        runs_no_postprocessor(exporter),
        all_well_nested(vault),
        0 <= n < vault.notes@.len(),
        note_expansion(exporter, vault, n, tree, m0, m1, result),
    ensures
        well_nested(events_view(result.events@)),
        result.outcome == PostprocessorResult::Continue,
    decreases exporter.options.recursion_limit - tree.len(), 1nat, 0nat,
{
    let site = site_of(vault, n, tree, m0);
    let (placed, start, body) = choose|placed: PathMapper, start: Context, body: Seq<Event>|
        {
            &&& #[trigger] mapped(m0, vault.paths()[n], placed)
            &&& body_expansion(
                exporter,
                vault,
                site_of(vault, n, tree, m0),
                Stage { pos: 0, mapper: placed, events: Seq::<EventView>::empty() },
                Stage { pos: vault.body(n).len() as int, mapper: m1, events: events_view(body) },
            )
            &&& start.is_for(
                tree,
                site_of(vault, n, tree, m0).own,
                mapping_entries(vault.notes@[n].frontmatter),
            )
            &&& #[trigger] chain_effect(
                exporter.chain_for(tree),
                0,
                start,
                body,
                &exporter.options,
                result.context,
                result.events@,
                result.outcome,
            )
        };
    let first = Stage { pos: 0, mapper: placed, events: Seq::<EventView>::empty() };
    let last = Stage { pos: vault.body(n).len() as int, mapper: m1, events: events_view(body) };
    lemma_body_keeps_depth(exporter, vault, site, first, last);
    assert(first.events + vault.body(n).skip(0) =~= vault.body(n));
    assert(well_nested(vault.body(n)));
}

} // verus!
