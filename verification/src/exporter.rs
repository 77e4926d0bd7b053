//! The exporter: the settings of a run and the postprocessors registered for
//! it, and the export of one root note.

use vstd::prelude::*;
use crate::context::{Context, FileTree};
use crate::events::{strings_view, Event};
use crate::expander::{note_expansion, note_failure, Expansion};
use crate::frontmatter::{
    keeps_frontmatter, mapping_entries, resolve_frontmatter, FrontmatterStrategy,
};
use crate::mapper::{keeps, lemma_keeps_itself, lemma_keeps_transitive, Layout, PathMapper};
use crate::postprocessors::{ExportOptions, Postprocessor, PostprocessorResult};
use crate::text::chars_of;
use crate::vault::Vault;

verus! {

/// The settings of an export run and its two chains of postprocessors: one
/// for root notes, one for embedded notes.
pub struct Exporter {
    pub options: ExportOptions,
    /// The postprocessors run on each root note, in this order.
    pub postprocessors: Vec<Box<dyn Postprocessor>>,
    /// The postprocessors run on each embedded note, in this order.
    pub embed_postprocessors: Vec<Box<dyn Postprocessor>>,
}

impl Exporter {
    /// An exporter with the default settings and no postprocessors.
    pub fn new() -> (exporter: Exporter)
        ensures
            exporter.options.frontmatter_strategy == FrontmatterStrategy::Auto,
            exporter.options.recursive_embeds,
            !exporter.options.flat_layout,
            exporter.options.recursion_limit == 10,
            exporter.options.start_at is None,
            exporter.options.yaml_inclusion_key is None,
            exporter.postprocessors@.len() == 0,
            exporter.embed_postprocessors@.len() == 0,
    {
        Exporter {
            options: ExportOptions::new(),
            postprocessors: Vec::new(),
            embed_postprocessors: Vec::new(),
        }
    }

    /// The chain that runs on a note with the ancestry `tree`: the root
    /// chain on the root note, the embed chain on every other.
    pub open spec fn chain_for(&self, tree: Seq<Seq<char>>) -> Seq<Box<dyn Postprocessor>> {
        if tree.len() <= 1 {
            self.postprocessors@
        } else {
            self.embed_postprocessors@
        }
    }
}

/// Why a root note could not be exported.
#[derive(Clone, Debug, PartialEq, Eq)]
pub enum ExportError {
    /// An embed closes a cycle, or makes the chain of embedded notes longer
    /// than the limit. `file_tree` is the chain from the root note down to
    /// the note that could not be embedded.
    RecursionLimitExceeded { file_tree: Vec<String> },
}

/// A root note ready to be written.
#[derive(Clone, Debug, PartialEq, Eq)]
pub struct ExportedNote {
    /// Where the note is to be written, relative to the destination root.
    pub destination: String,
    /// The frontmatter block of the output; `None` if it has none.
    pub frontmatter: Option<serde_yaml::Mapping>,
    /// The body of the output.
    pub events: Vec<Event>,
}

/// What is written for a root note that expanded to `expansion`: nothing if
/// its postprocessors skipped it; else the body and the destination they
/// left, and the frontmatter they left where the strategy keeps it.
pub open spec fn exported(
    expansion: Expansion,
    strategy: FrontmatterStrategy,
    written: Option<ExportedNote>,
) -> bool {
    match written {
        None => expansion.outcome == PostprocessorResult::StopAndSkipNote,
        Some(note) => {
            &&& expansion.outcome != PostprocessorResult::StopAndSkipNote
            &&& note.destination == expansion.context.destination
            &&& note.events == expansion.events
            &&& note.frontmatter is Some <==> keeps_frontmatter(
                strategy,
                mapping_entries(expansion.context.frontmatter).len(),
            )
            &&& note.frontmatter is Some ==> note.frontmatter->0 == expansion.context.frontmatter
        },
    }
}

/// Whether `path` lies under the sub-path `start`: it is `start`, or it
/// goes on after `start` in a new component.
pub open spec fn lies_under(path: Seq<char>, start: Seq<char>) -> bool {
    &&& path.len() >= start.len()
    &&& path.take(start.len() as int) == start
    &&& (start.len() == 0 || path.len() == start.len() || path[start.len() as int] == '/'
        || start.last() == '/')
}

impl Exporter {
    /// Sets how frontmatter is carried into the output.
    pub fn frontmatter_strategy(&mut self, strategy: FrontmatterStrategy)
        ensures
            final(self).options == (ExportOptions { frontmatter_strategy: strategy, ..old(self).options }),
            final(self).postprocessors == old(self).postprocessors,
            final(self).embed_postprocessors == old(self).embed_postprocessors,
    {
        self.options.frontmatter_strategy = strategy;
    }

    /// Sets whether embeds are expanded in place.
    pub fn process_embeds_recursively(&mut self, recursive: bool)
        ensures
            final(self).options == (ExportOptions { recursive_embeds: recursive, ..old(self).options }),
            final(self).postprocessors == old(self).postprocessors,
            final(self).embed_postprocessors == old(self).embed_postprocessors,
    {
        self.options.recursive_embeds = recursive;
    }

    /// Sets whether all output lies directly under the destination root.
    pub fn flat_export(&mut self, flat: bool)
        ensures
            final(self).options == (ExportOptions { flat_layout: flat, ..old(self).options }),
            final(self).postprocessors == old(self).postprocessors,
            final(self).embed_postprocessors == old(self).embed_postprocessors,
    {
        self.options.flat_layout = flat;
    }

    /// Sets the longest chain of notes that embeds may build.
    pub fn recursion_limit(&mut self, limit: usize)
        ensures
            final(self).options == (ExportOptions { recursion_limit: limit, ..old(self).options }),
            final(self).postprocessors == old(self).postprocessors,
            final(self).embed_postprocessors == old(self).embed_postprocessors,
    {
        self.options.recursion_limit = limit;
    }

    /// Sets the frontmatter key that `yaml_includer` looks for.
    pub fn yaml_inclusion_key(&mut self, key: &str)
        ensures
            final(self).options.yaml_inclusion_key matches Some(set) && set@ == key@,
            final(self).options == (ExportOptions {
                yaml_inclusion_key: final(self).options.yaml_inclusion_key,
                ..old(self).options
            }),
            final(self).postprocessors == old(self).postprocessors,
            final(self).embed_postprocessors == old(self).embed_postprocessors,
    {
        self.options.yaml_inclusion_key = Some(key.to_owned());
    }

    /// Restricts the export roots to the notes under `path`.
    pub fn start_at(&mut self, path: &str)
        ensures
            final(self).options.start_at matches Some(set) && set@ == path@,
            final(self).options == (ExportOptions {
                start_at: final(self).options.start_at,
                ..old(self).options
            }),
            final(self).postprocessors == old(self).postprocessors,
            final(self).embed_postprocessors == old(self).embed_postprocessors,
    {
        self.options.start_at = Some(path.to_owned());
    }

    /// Registers a postprocessor for root notes, after those registered
    /// before.
    pub fn add_postprocessor(&mut self, postprocessor: Box<dyn Postprocessor>)
        ensures
            final(self).postprocessors@ == old(self).postprocessors@.push(postprocessor),
            final(self).options == old(self).options,
            final(self).embed_postprocessors == old(self).embed_postprocessors,
    {
        self.postprocessors.push(postprocessor);
    }

    /// Registers a postprocessor for embedded notes, after those registered
    /// before.
    pub fn add_embed_postprocessor(&mut self, postprocessor: Box<dyn Postprocessor>)
        ensures
            final(self).embed_postprocessors@ == old(self).embed_postprocessors@.push(postprocessor),
            final(self).options == old(self).options,
            final(self).postprocessors == old(self).postprocessors,
    {
        self.embed_postprocessors.push(postprocessor);
    }

    /// The layout that these settings ask for.
    pub open spec fn layout(&self) -> Layout {
        if self.options.flat_layout {
            Layout::Flat
        } else {
            Layout::Hierarchy
        }
    }

    /// A mapper for a run with these settings, with nothing handed out yet.
    pub fn new_mapper(&self) -> (mapper: PathMapper)
        ensures
            mapper.wf(),
            mapper.sources().len() == 0,
            mapper.layout == self.layout(),
    {
        if self.options.flat_layout {
            PathMapper::new(Layout::Flat)
        } else {
            PathMapper::new(Layout::Hierarchy)
        }
    }

    /// Whether the note at `path` is a root of the export: every note is,
    /// unless the roots are restricted to a sub-path, and then the notes
    /// under it.
    pub fn is_export_root(&self, path: &str) -> (is_root: bool)
        ensures
            is_root == match self.options.start_at {
                None => true,
                Some(start) => lies_under(path@, start@),
            },
    {
        match &self.options.start_at {
            None => true,
            Some(start) => {
                let whole = chars_of(path);
                let prefix = chars_of(start.as_str());
                let n = prefix.len();
                if whole.len() < n {
                    return false;
                }
                let mut i: usize = 0;
                while i < n
                    invariant
                        i <= n,
                        n == prefix.len(),
                        n <= whole.len(),
                        whole@ == path@,
                        prefix@ == start@,
                        self.options.start_at == Some(*start),
                        forall|j: int| 0 <= j < i ==> whole@[j] == prefix@[j],
                    decreases n - i,
                {
                    if whole[i] != prefix[i] {
                        assert(path@.take(start@.len() as int)[i as int] != start@[i as int]);
                        return false;
                    }
                    i = i + 1;
                }
                assert(path@.take(n as int) =~= start@);
                n == 0 || whole.len() == n || whole[n] == '/' || prefix[n - 1] == '/'
            },
        }
    }

    /// Exports the root note `root`: expands its embeds, rewrites its links,
    /// runs the postprocessors, and settles the frontmatter by strategy.
    /// Nothing is to be written where a postprocessor skipped the note.
    /// Fails where an embed closes a cycle or goes deeper than the limit.
    pub fn export_note(&self, vault: &Vault, root: usize, mapper: &mut PathMapper) -> (r: Result<
        Option<ExportedNote>,
        ExportError,
    >)
        requires
            root < vault.notes.len(),
            old(mapper).wf(),
        ensures
            final(mapper).wf(),
            keeps(*old(mapper), *final(mapper)),
            match r {
                Err(ExportError::RecursionLimitExceeded { file_tree }) => note_failure(
                    vault,
                    &self.options,
                    root as int,
                    seq![vault.paths()[root as int]],
                ) == Some(strings_view(file_tree@)),
                Ok(written) => {
                    &&& note_failure(
                        vault,
                        &self.options,
                        root as int,
                        seq![vault.paths()[root as int]],
                    ) is None
                    &&& exists|expansion: Expansion|
                        {
                            &&& #[trigger] exported(
                                expansion,
                                self.options.frontmatter_strategy,
                                written,
                            )
                            &&& note_expansion(
                                self,
                                vault,
                                root as int,
                                seq![vault.paths()[root as int]],
                                *old(mapper),
                                *final(mapper),
                                expansion,
                            )
                        }
                },
            },
    {
        let tree = FileTree::root(vault.notes[root].path.as_str());
        match self.expand_note(vault, root, tree, mapper) {
            Err(file_tree) => Err(ExportError::RecursionLimitExceeded { file_tree }),
            Ok(expansion) => {
                let ghost whole = expansion;
                let written = match expansion.outcome {
                    PostprocessorResult::StopAndSkipNote => None,
                    _ => {
                        let Expansion { context, events, outcome: _ } = expansion;
                        let Context { file_tree: _, destination, frontmatter } = context;
                        Some(
                            ExportedNote {
                                destination,
                                frontmatter: resolve_frontmatter(
                                    self.options.frontmatter_strategy,
                                    frontmatter,
                                ),
                                events,
                            },
                        )
                    },
                };
                assert(exported(whole, self.options.frontmatter_strategy, written));
                Ok(written)
            },
        }
    }
}

/// What came of one note of the vault in a run.
#[derive(Clone, Debug, PartialEq, Eq)]
pub enum NoteOutcome {
    /// The note is no root of the export: nothing was done with it.
    NotARoot,
    /// A postprocessor skipped the note: nothing is to be written.
    Skipped,
    /// The note was exported and is to be written.
    Written(ExportedNote),
    /// The note could not be exported.
    Failed(ExportError),
}

/// `outcome` is what comes of the note `n` in a run that reaches it with
/// the mapper at `m0` and leaves it with the mapper at `m1`.
pub open spec fn outcome_fits(
    exporter: &Exporter,
    vault: &Vault,
    n: int,
    m0: PathMapper,
    m1: PathMapper,
    outcome: NoteOutcome,
) -> bool {
    let path = vault.paths()[n];
    let is_root = match exporter.options.start_at {
        None => true,
        Some(start) => lies_under(path, start@),
    };
    let failure = note_failure(vault, &exporter.options, n, seq![path]);
    keeps(m0, m1) && match outcome {
        NoteOutcome::NotARoot => !is_root && m1 == m0,
        NoteOutcome::Failed(ExportError::RecursionLimitExceeded { file_tree }) => is_root
            && failure == Some(strings_view(file_tree@)),
        NoteOutcome::Skipped => is_root && failure is None && exists|expansion: Expansion|
            {
                &&& #[trigger] exported(expansion, exporter.options.frontmatter_strategy, None)
                &&& note_expansion(exporter, vault, n, seq![path], m0, m1, expansion)
            },
        NoteOutcome::Written(note) => is_root && failure is None && exists|expansion: Expansion|
            {
                &&& #[trigger] exported(
                    expansion,
                    exporter.options.frontmatter_strategy,
                    Some(note),
                )
                &&& note_expansion(exporter, vault, n, seq![path], m0, m1, expansion)
            },
    }
}

/// `outcomes` is what comes of the notes of the vault, one after the other
/// in the order of the vault, in a run that starts with the mapper at `m0`
/// and ends with it at `m1`.
pub open spec fn run_fits(
    exporter: &Exporter,
    vault: &Vault,
    m0: PathMapper,
    m1: PathMapper,
    outcomes: Seq<NoteOutcome>,
) -> bool {
    exists|mappers: Seq<PathMapper>|
        {
            &&& mappers.len() == outcomes.len() + 1
            &&& mappers[0] == m0
            &&& #[trigger] mappers[outcomes.len() as int] == m1
            &&& forall|n: int|
                0 <= n < outcomes.len() ==> #[trigger] outcome_fits(
                    exporter,
                    vault,
                    n,
                    mappers[n],
                    mappers[n + 1],
                    outcomes[n],
                )
        }
}

impl Exporter {
    /// Exports every root note of the vault, in the order of the vault, with
    /// a mapper that has handed out nothing yet. A note that fails does not
    /// keep the others from being exported: each note has its own outcome.
    pub fn run(&self, vault: &Vault) -> (outcomes: Vec<NoteOutcome>)
        ensures
            outcomes.len() == vault.notes.len(),
            exists|start: PathMapper, end: PathMapper|
                {
                    &&& start.wf()
                    &&& start.sources().len() == 0
                    &&& start.layout == self.layout()
                    &&& #[trigger] run_fits(self, vault, start, end, outcomes@)
                },
    {
        let mut mapper = self.new_mapper();
        let ghost start = mapper;
        let outcomes = self.run_with(vault, &mut mapper);
        assert(run_fits(self, vault, start, mapper, outcomes@));
        outcomes
    }

    /// Exports every root note of the vault, in the order of the vault, and
    /// goes on with what `mapper` has handed out before. A note that fails
    /// does not keep the others from being exported: each note has its own
    /// outcome.
    pub fn run_with(&self, vault: &Vault, mapper: &mut PathMapper) -> (outcomes: Vec<NoteOutcome>)
        requires
            old(mapper).wf(),
        ensures
            final(mapper).wf(),
            keeps(*old(mapper), *final(mapper)),
            outcomes.len() == vault.notes.len(),
            run_fits(self, vault, *old(mapper), *final(mapper), outcomes@),
    {
        let mut outcomes: Vec<NoteOutcome> = Vec::new();
        let ghost mut mappers: Seq<PathMapper> = seq![*mapper];
        let mut n: usize = 0;
        proof {
            lemma_keeps_itself(*mapper);
        }
        while n < vault.notes.len()
            invariant
                n <= vault.notes.len(),
                outcomes.len() == n,
                mapper.wf(),
                keeps(*old(mapper), *mapper),
                mappers.len() == n + 1,
                mappers[0] == *old(mapper),
                mappers[n as int] == *mapper,
                forall|i: int|
                    0 <= i < n ==> #[trigger] outcome_fits(
                        self,
                        vault,
                        i,
                        mappers[i],
                        mappers[i + 1],
                        outcomes@[i],
                    ),
            decreases vault.notes.len() - n,
        {
            let ghost before = mappers;
            let ghost reached = outcomes@;
            let outcome = if !self.is_export_root(vault.notes[n].path.as_str()) {
                NoteOutcome::NotARoot
            } else {
                match self.export_note(vault, n, mapper) {
                    Err(error) => NoteOutcome::Failed(error),
                    Ok(None) => NoteOutcome::Skipped,
                    Ok(Some(note)) => NoteOutcome::Written(note),
                }
            };
            proof {
                mappers = mappers.push(*mapper);
                if outcome is NotARoot {
                    lemma_keeps_itself(*mapper);
                }
                lemma_keeps_transitive(*old(mapper), before[n as int], *mapper);
                assert(outcome_fits(self, vault, n as int, before[n as int], *mapper, outcome));
            }
            outcomes.push(outcome);
            n = n + 1;
            proof {
                assert forall|i: int| 0 <= i < n implies #[trigger] outcome_fits(
                    self,
                    vault,
                    i,
                    mappers[i],
                    mappers[i + 1],
                    outcomes@[i],
                ) by {
                    if i < n - 1 {
                        assert(outcome_fits(
                            self,
                            vault,
                            i,
                            before[i],
                            before[i + 1],
                            reached[i],
                        ));
                    }
                }
            }
        }
        proof {
            assert(mappers[outcomes@.len() as int] == *mapper);
        }
        outcomes
    }
}

/// Under `Never` nothing that is written has a frontmatter block.
pub proof fn lemma_never_strips_frontmatter(expansion: Expansion, written: ExportedNote)
    requires
        exported(expansion, FrontmatterStrategy::Never, Some(written)),
    ensures
        written.frontmatter is None,
{
}

/// Under `Always` everything that is written has a frontmatter block, an
/// empty one where the note has no entries.
pub proof fn lemma_always_keeps_frontmatter(expansion: Expansion, written: ExportedNote)
    requires
        exported(expansion, FrontmatterStrategy::Always, Some(written)),
    ensures
        written.frontmatter is Some,
        mapping_entries(written.frontmatter->0) == mapping_entries(expansion.context.frontmatter),
{
}

/// Under `Auto` what is written has a frontmatter block exactly if the
/// frontmatter has entries once the postprocessors have run: those of the
/// source, or those a postprocessor added.
pub proof fn lemma_auto_keeps_entries(expansion: Expansion, written: ExportedNote)
    requires
        exported(expansion, FrontmatterStrategy::Auto, Some(written)),
    ensures
        written.frontmatter is Some <==> mapping_entries(expansion.context.frontmatter).len() > 0,
{
}

/// A root note whose first postprocessor always skips it is not written.
pub proof fn lemma_skipped_root_is_not_written(
    exporter: &Exporter,
    vault: &Vault,
    root: int,
    m0: PathMapper,
    m1: PathMapper,
    expansion: Expansion,
    written: Option<ExportedNote>,
)
    requires
        exporter.postprocessors@.len() >= 1,
        crate::expander::first_always_skips(exporter.postprocessors@, &exporter.options),
        note_expansion(exporter, vault, root, seq![vault.paths()[root]], m0, m1, expansion),
        exported(expansion, exporter.options.frontmatter_strategy, written),
    ensures
        written is None,
{
    let tree = seq![vault.paths()[root]];
    crate::expander::lemma_expansion_runs_chain(exporter, vault, root, tree, m0, m1, expansion);
    let (start, body) = choose|start: Context, body: Seq<Event>|
        {
            &&& start.is_for(
                tree,
                m0.destination_of(vault.paths()[root]),
                mapping_entries(vault.notes@[root].frontmatter),
            )
            &&& #[trigger] crate::postprocessors::chain_effect(
                exporter.chain_for(tree),
                0,
                start,
                body,
                &exporter.options,
                expansion.context,
                expansion.events@,
                expansion.outcome,
            )
        };
    crate::expander::lemma_first_skip_ends_chain(
        exporter.postprocessors@,
        start,
        body,
        &exporter.options,
        expansion.context,
        expansion.events@,
        expansion.outcome,
    );
}

/// Where no postprocessor is registered for root notes, a root note is
/// never skipped, and it keeps the destination that the mapper gave it and
/// the frontmatter of its source.
pub proof fn lemma_root_without_postprocessors(
    exporter: &Exporter,
    vault: &Vault,
    root: int,
    m0: PathMapper,
    m1: PathMapper,
    expansion: Expansion,
)
    requires
        exporter.postprocessors@.len() == 0,
        note_expansion(exporter, vault, root, seq![vault.paths()[root]], m0, m1, expansion),
    ensures
        expansion.outcome == PostprocessorResult::Continue,
        expansion.context.destination@ == m0.destination_of(vault.paths()[root]),
        expansion.context.file_tree@ == seq![vault.paths()[root]],
        mapping_entries(expansion.context.frontmatter) == mapping_entries(
            vault.notes@[root].frontmatter,
        ),
{
    let tree = seq![vault.paths()[root]];
    crate::expander::lemma_expansion_runs_chain(exporter, vault, root, tree, m0, m1, expansion);
    let (start, body) = choose|start: Context, body: Seq<Event>|
        {
            &&& start.is_for(
                tree,
                m0.destination_of(vault.paths()[root]),
                mapping_entries(vault.notes@[root].frontmatter),
            )
            &&& #[trigger] crate::postprocessors::chain_effect(
                exporter.chain_for(tree),
                0,
                start,
                body,
                &exporter.options,
                expansion.context,
                expansion.events@,
                expansion.outcome,
            )
        };
}

} // verus!
