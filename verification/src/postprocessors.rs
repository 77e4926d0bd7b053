//! Postprocessors: the steps that reshape a note once its embeds are
//! expanded, the chain that runs them in order, and the two that come with
//! the library.

use vstd::prelude::*;
use crate::context::Context;
use crate::events::{events_view, Event, EventView, MarkdownEvents};
use crate::frontmatter::{
    flag_at, mapping_entries, mapping_flag, FrontmatterStrategy, YamlView,
};

verus! {

/// What a postprocessor asks of the chain it runs in.
#[derive(Clone, Copy, Debug, PartialEq, Eq, Structural)]
pub enum PostprocessorResult {
    /// Go on with the next postprocessor.
    Continue,
    /// Run no further postprocessor; the note stands as it is now.
    StopHere,
    /// Run no further postprocessor and drop the note.
    StopAndSkipNote,
}

/// The settings of an export run. They are fixed before the run starts.
#[derive(Clone, Debug, PartialEq, Eq)]
pub struct ExportOptions {
    /// Whether the output gets a frontmatter block.
    pub frontmatter_strategy: FrontmatterStrategy,
    /// Whether embeds are expanded in place. If not, each becomes a link.
    pub recursive_embeds: bool,
    /// Whether all output lies directly under the destination root.
    pub flat_layout: bool,
    /// The longest chain of notes, root included, that embeds may build.
    pub recursion_limit: usize,
    /// The sub-path under which notes are export roots, if it is restricted.
    pub start_at: Option<String>,
    /// The frontmatter key that `yaml_includer` looks for, if it is in use.
    pub yaml_inclusion_key: Option<String>,
}

impl ExportOptions {
    /// The settings of a run for which nothing was chosen: frontmatter by
    /// `Auto`, embeds expanded down to ten notes, the source's hierarchy
    /// kept, every note a root, no inclusion key.
    pub fn new() -> (options: ExportOptions)
        ensures
            options.frontmatter_strategy == FrontmatterStrategy::Auto,
            options.recursive_embeds,
            !options.flat_layout,
            options.recursion_limit == 10,
            options.start_at is None,
            options.yaml_inclusion_key is None,
    {
        ExportOptions {
            frontmatter_strategy: FrontmatterStrategy::Auto,
            recursive_embeds: true,
            flat_layout: false,
            recursion_limit: 10,
            start_at: None,
            yaml_inclusion_key: None,
        }
    }
}

/// A step that reshapes one note. It may change the frontmatter and the
/// destination in the context, change, add and remove events, and says how
/// the chain goes on.
pub trait Postprocessor {
    /// What one call may do: how the context and the events after the call
    /// relate to those before it, and with which result. A postprocessor
    /// that states nothing may do anything.
    open spec fn effect(
        &self,
        before: Context,
        events_before: Seq<Event>,
        options: &ExportOptions,
        after: Context,
        events_after: Seq<Event>,
        outcome: PostprocessorResult,
    ) -> bool {
        true
    }

    fn process(&self, context: &mut Context, events: &mut MarkdownEvents, options: &ExportOptions) -> (outcome:
        PostprocessorResult)
        ensures
            self.effect(
                *old(context),
                old(events)@,
                options,
                *final(context),
                final(events)@,
                outcome,
            ),
    ;
}

/// What running the postprocessors `chain[from..]` in order may do. Each is
/// handed what the one before it left. The chain ends after the last one,
/// with `Continue`, or at the first one that does not return `Continue`,
/// with that result.
pub open spec fn chain_effect(
    chain: Seq<Box<dyn Postprocessor>>,
    from: int,
    before: Context,
    events_before: Seq<Event>,
    options: &ExportOptions,
    after: Context,
    events_after: Seq<Event>,
    outcome: PostprocessorResult,
) -> bool
    decreases chain.len() - from,
{
    if from < 0 || from >= chain.len() {
        after == before && events_after == events_before && outcome == PostprocessorResult::Continue
    } else {
        exists|between: Context, events_between: Seq<Event>, step: PostprocessorResult|
            {
                &&& #[trigger] chain[from].effect(
                    before,
                    events_before,
                    options,
                    between,
                    events_between,
                    step,
                )
                &&& if step == PostprocessorResult::Continue {
                    chain_effect(
                        chain,
                        from + 1,
                        between,
                        events_between,
                        options,
                        after,
                        events_after,
                        outcome,
                    )
                } else {
                    after == between && events_after == events_between && outcome == step
                }
            }
    }
}

/// Runs the postprocessors `chain[from..]` in order on one note.
pub fn run_postprocessors_from(
    chain: &Vec<Box<dyn Postprocessor>>,
    from: usize,
    context: &mut Context,
    events: &mut MarkdownEvents,
    options: &ExportOptions,
) -> (outcome: PostprocessorResult)
    requires
        from <= chain.len(),
    ensures
        chain_effect(
            chain@,
            from as int,
            *old(context),
            old(events)@,
            options,
            *final(context),
            final(events)@,
            outcome,
        ),
    decreases chain.len() - from,
{
    if from >= chain.len() {
        return PostprocessorResult::Continue;
    }
    let step = chain[from].process(context, events, options);
    let ghost between = *context;
    let ghost events_between = events@;
    match step {
        PostprocessorResult::Continue => {
            let outcome = run_postprocessors_from(chain, from + 1, context, events, options);
            assert(chain@[from as int].effect(
                *old(context),
                old(events)@,
                options,
                between,
                events_between,
                step,
            ));
            outcome
        },
        _ => {
            assert(chain@[from as int].effect(
                *old(context),
                old(events)@,
                options,
                between,
                events_between,
                step,
            ));
            step
        },
    }
}

/// Runs a chain of postprocessors on one note, in the order they were
/// registered.
pub fn run_postprocessors(
    chain: &Vec<Box<dyn Postprocessor>>,
    context: &mut Context,
    events: &mut MarkdownEvents,
    options: &ExportOptions,
) -> (outcome: PostprocessorResult)
    ensures
        chain_effect(
            chain@,
            0,
            *old(context),
            old(events)@,
            options,
            *final(context),
            final(events)@,
            outcome,
        ),
{
    run_postprocessors_from(chain, 0, context, events, options)
}

/// An event with a soft break made hard; any other event as it is.
pub open spec fn harden(event: EventView) -> EventView {
    match event {
        EventView::SoftBreak => EventView::HardBreak,
        other => other,
    }
}

/// Each event of a body with `harden` applied.
pub open spec fn hardened(events: Seq<EventView>) -> Seq<EventView> {
    Seq::new(events.len(), |i: int| harden(events[i]))
}

/// Turns every soft line break into a hard one and leaves all else as it
/// is.
pub fn softbreaks_to_hardbreaks(
    context: &mut Context,
    events: &mut MarkdownEvents,
    options: &ExportOptions,
) -> (outcome: PostprocessorResult)
    ensures
        outcome == PostprocessorResult::Continue,
        *final(context) == *old(context),
        events_view(final(events)@) == hardened(events_view(old(events)@)),
{
    let mut i: usize = 0;
    while i < events.len()
        invariant
            i <= events.len(),
            events.len() == old(events).len(),
            forall|j: int| 0 <= j < i ==> (#[trigger] events@[j])@ == harden(old(events)@[j]@),
            forall|j: int| i <= j < events.len() ==> events@[j] == old(events)@[j],
        decreases events.len() - i,
    {
        let soft = match &events[i] {
            Event::SoftBreak => true,
            _ => false,
        };
        if soft {
            events.set(i, Event::HardBreak);
        }
        i = i + 1;
    }
    assert(events_view(events@) =~= hardened(events_view(old(events)@)));
    PostprocessorResult::Continue
}

/// Whether a note with the frontmatter `entries` passes the inclusion gate:
/// with no key set every note does, with a key set a note whose frontmatter
/// holds the boolean `true` under it.
pub open spec fn included(entries: Seq<(YamlView, YamlView)>, key: Option<String>) -> bool {
    match key {
        None => true,
        Some(key) => flag_at(entries, key@) == Some(true),
    }
}

/// Lets a note pass if its frontmatter holds `true` under the inclusion key
/// of the options, and skips it otherwise. Changes nothing.
pub fn yaml_includer(
    context: &mut Context,
    events: &mut MarkdownEvents,
    options: &ExportOptions,
) -> (outcome: PostprocessorResult)
    ensures
        *final(context) == *old(context),
        final(events)@ == old(events)@,
        outcome == if included(mapping_entries(old(context).frontmatter), options.yaml_inclusion_key) {
            PostprocessorResult::Continue
        } else {
            PostprocessorResult::StopAndSkipNote
        },
{
    match &options.yaml_inclusion_key {
        None => PostprocessorResult::Continue,
        Some(key) => match mapping_flag(&context.frontmatter, key.as_str()) {
            Some(true) => PostprocessorResult::Continue,
            _ => PostprocessorResult::StopAndSkipNote,
        },
    }
}

/// `softbreaks_to_hardbreaks` as a postprocessor to register.
#[derive(Clone, Copy, Debug)]
pub struct SoftbreaksToHardbreaks;

impl Postprocessor for SoftbreaksToHardbreaks {
    open spec fn effect(
        &self,
        before: Context,
        events_before: Seq<Event>,
        options: &ExportOptions,
        after: Context,
        events_after: Seq<Event>,
        outcome: PostprocessorResult,
    ) -> bool {
        &&& outcome == PostprocessorResult::Continue
        &&& after == before
        &&& events_view(events_after) == hardened(events_view(events_before))
    }

    fn process(&self, context: &mut Context, events: &mut MarkdownEvents, options: &ExportOptions) -> (outcome:
        PostprocessorResult) {
        softbreaks_to_hardbreaks(context, events, options)
    }
}

/// `yaml_includer` as a postprocessor to register.
#[derive(Clone, Copy, Debug)]
pub struct YamlIncluder;

impl Postprocessor for YamlIncluder {
    open spec fn effect(
        &self,
        before: Context,
        events_before: Seq<Event>,
        options: &ExportOptions,
        after: Context,
        events_after: Seq<Event>,
        outcome: PostprocessorResult,
    ) -> bool {
        &&& after == before
        &&& events_after == events_before
        &&& outcome == if included(mapping_entries(before.frontmatter), options.yaml_inclusion_key) {
            PostprocessorResult::Continue
        } else {
            PostprocessorResult::StopAndSkipNote
        }
    }

    fn process(&self, context: &mut Context, events: &mut MarkdownEvents, options: &ExportOptions) -> (outcome:
        PostprocessorResult) {
        yaml_includer(context, events, options)
    }
}

} // verus!
