use obsidian_export::postprocessors::{
    run_postprocessors, softbreaks_to_hardbreaks, yaml_includer, SoftbreaksToHardbreaks,
    YamlIncluder,
};
use obsidian_export::{
    Context, Event, ExportOptions, Exporter, FileTree, MarkdownEvents, Note, Postprocessor,
    PostprocessorResult, Tag, Vault,
};
use serde_yaml::{Mapping, Value};

fn text(s: &str) -> Event {
    Event::Text(s.to_string())
}

fn paragraph(inner: Vec<Event>) -> Vec<Event> {
    let mut events = vec![Event::Start(Tag::Paragraph)];
    events.extend(inner);
    events.push(Event::End(Tag::Paragraph));
    events
}

fn embed(title: &str) -> Vec<Event> {
    vec![text("!["), text("["), text(title), text("]"), text("]")]
}

fn flag(key: &str, value: bool) -> Mapping {
    let mut mapping = Mapping::new();
    mapping.insert(Value::String(key.to_string()), Value::Bool(value));
    mapping
}

fn note(path: &str, frontmatter: Mapping, events: Vec<Event>) -> Note {
    Note::new(path.to_string(), frontmatter, events)
}

fn context_for(path: &str, frontmatter: Mapping) -> Context {
    Context::new(FileTree::root(path), path.to_string(), frontmatter)
}

/// Replaces "foo" by "bar" in every text run.
struct FooToBar;

impl Postprocessor for FooToBar {
    fn process(
        &self,
        _context: &mut Context,
        events: &mut MarkdownEvents,
        _options: &ExportOptions,
    ) -> PostprocessorResult {
        for event in events.iter_mut() {
            if let Event::Text(run) = event {
                *run = run.replace("foo", "bar");
            }
        }
        PostprocessorResult::Continue
    }
}

/// Adds `bar: baz` to the frontmatter.
struct AppendFrontmatter;

impl Postprocessor for AppendFrontmatter {
    fn process(
        &self,
        context: &mut Context,
        _events: &mut MarkdownEvents,
        _options: &ExportOptions,
    ) -> PostprocessorResult {
        context.frontmatter.insert(
            Value::String("bar".to_string()),
            Value::String("baz".to_string()),
        );
        PostprocessorResult::Continue
    }
}

/// Always returns the result it was made with.
struct Always(PostprocessorResult);

impl Postprocessor for Always {
    fn process(
        &self,
        _context: &mut Context,
        _events: &mut MarkdownEvents,
        _options: &ExportOptions,
    ) -> PostprocessorResult {
        self.0
    }
}

/// Must never run.
struct Unreachable;

impl Postprocessor for Unreachable {
    fn process(
        &self,
        _context: &mut Context,
        _events: &mut MarkdownEvents,
        _options: &ExportOptions,
    ) -> PostprocessorResult {
        panic!("should not be called due to above processor")
    }
}

/// Sends the note to `MovedNote.md`.
struct MoveNote;

impl Postprocessor for MoveNote {
    fn process(
        &self,
        context: &mut Context,
        _events: &mut MarkdownEvents,
        _options: &ExportOptions,
    ) -> PostprocessorResult {
        context.destination = "MovedNote.md".to_string();
        PostprocessorResult::Continue
    }
}

/// Panics unless the note it runs on has `is_root_note` set to the value
/// it was made with.
struct ExpectRootFlag(bool);

impl Postprocessor for ExpectRootFlag {
    fn process(
        &self,
        context: &mut Context,
        _events: &mut MarkdownEvents,
        _options: &ExportOptions,
    ) -> PostprocessorResult {
        let is_root_note = context.frontmatter.get("is_root_note").unwrap();
        assert_eq!(is_root_note, &Value::Bool(self.0));
        PostprocessorResult::Continue
    }
}

fn root_and_embed() -> Vault {
    let mut vault = Vault::new();
    let mut body = paragraph(vec![text("foo root")]);
    body.extend(embed("Embedded"));
    body.extend(paragraph(vec![text("after")]));
    vault.add(note("Note.md", flag("is_root_note", true), body));
    vault.add(note(
        "Embedded.md",
        flag("is_root_note", false),
        paragraph(vec![text("foo embedded")]),
    ));
    vault
}

#[test]
fn test_postprocessors() {
    let vault = root_and_embed();
    let mut exporter = Exporter::new();
    exporter.add_postprocessor(Box::new(FooToBar));
    exporter.add_postprocessor(Box::new(AppendFrontmatter));
    let mut mapper = exporter.new_mapper();
    let written = exporter.export_note(&vault, 0, &mut mapper).unwrap().unwrap();
    let mut expected = paragraph(vec![text("bar root")]);
    expected.extend(paragraph(vec![text("bar embedded")]));
    expected.extend(paragraph(vec![text("after")]));
    assert_eq!(written.events, expected);
    let frontmatter = written.frontmatter.unwrap();
    assert_eq!(frontmatter.get("bar"), Some(&Value::String("baz".to_string())));
    assert_eq!(frontmatter.get("is_root_note"), Some(&Value::Bool(true)));
    assert_eq!(written.destination, "Note.md");
}

#[test]
fn test_postprocessor_stophere() {
    let vault = root_and_embed();
    let mut exporter = Exporter::new();
    exporter.add_postprocessor(Box::new(Always(PostprocessorResult::StopHere)));
    exporter.add_embed_postprocessor(Box::new(Always(PostprocessorResult::StopHere)));
    exporter.add_postprocessor(Box::new(Unreachable));
    exporter.add_embed_postprocessor(Box::new(Unreachable));
    let mut mapper = exporter.new_mapper();
    let written = exporter.export_note(&vault, 0, &mut mapper).unwrap();
    assert!(written.is_some());
}

#[test]
fn test_postprocessor_stop_and_skip() {
    let vault = root_and_embed();
    let mut exporter = Exporter::new();
    let mut mapper = exporter.new_mapper();
    assert!(exporter.export_note(&vault, 0, &mut mapper).unwrap().is_some());

    exporter.add_postprocessor(Box::new(Always(PostprocessorResult::StopAndSkipNote)));
    let mut mapper = exporter.new_mapper();
    assert!(exporter.export_note(&vault, 0, &mut mapper).unwrap().is_none());
}

#[test]
fn test_postprocessor_change_destination() {
    let vault = root_and_embed();
    let mut exporter = Exporter::new();
    let mut mapper = exporter.new_mapper();
    let written = exporter.export_note(&vault, 0, &mut mapper).unwrap().unwrap();
    assert_eq!(written.destination, "Note.md");

    exporter.add_postprocessor(Box::new(MoveNote));
    let mut mapper = exporter.new_mapper();
    let written = exporter.export_note(&vault, 0, &mut mapper).unwrap().unwrap();
    assert_eq!(written.destination, "MovedNote.md");
}

#[test]
fn test_embed_postprocessors() {
    let vault = root_and_embed();
    let mut exporter = Exporter::new();
    exporter.add_embed_postprocessor(Box::new(FooToBar));
    exporter.add_embed_postprocessor(Box::new(AppendFrontmatter));
    let mut mapper = exporter.new_mapper();
    let written = exporter.export_note(&vault, 0, &mut mapper).unwrap().unwrap();
    let mut expected = paragraph(vec![text("foo root")]);
    expected.extend(paragraph(vec![text("bar embedded")]));
    expected.extend(paragraph(vec![text("after")]));
    assert_eq!(written.events, expected);
    let frontmatter = written.frontmatter.unwrap();
    assert_eq!(frontmatter.get("bar"), None);
    assert_eq!(frontmatter.len(), 1);
}

#[test]
fn test_embed_postprocessors_stop_and_skip() {
    let vault = root_and_embed();
    let mut exporter = Exporter::new();
    exporter.add_embed_postprocessor(Box::new(Always(PostprocessorResult::StopAndSkipNote)));
    let mut mapper = exporter.new_mapper();
    let written = exporter.export_note(&vault, 0, &mut mapper).unwrap().unwrap();
    let mut expected = paragraph(vec![text("foo root")]);
    expected.extend(paragraph(vec![text("after")]));
    assert_eq!(written.events, expected);
}

#[test]
fn test_embed_postprocessors_context() {
    let vault = root_and_embed();
    let mut exporter = Exporter::new();
    exporter.add_postprocessor(Box::new(ExpectRootFlag(true)));
    exporter.add_embed_postprocessor(Box::new(ExpectRootFlag(false)));
    let mut mapper = exporter.new_mapper();
    let written = exporter.export_note(&vault, 0, &mut mapper).unwrap();
    assert!(written.is_some());
}

#[test]
fn test_softbreaks_to_hardbreaks() {
    let mut vault = Vault::new();
    vault.add(note(
        "hard_linebreaks.md",
        Mapping::new(),
        paragraph(vec![
            text("one"),
            Event::SoftBreak,
            text("two"),
            Event::HardBreak,
            text("three"),
            Event::SoftBreak,
        ]),
    ));
    let mut exporter = Exporter::new();
    exporter.add_postprocessor(Box::new(SoftbreaksToHardbreaks));
    let mut mapper = exporter.new_mapper();
    let written = exporter.export_note(&vault, 0, &mut mapper).unwrap().unwrap();
    assert_eq!(
        written.events,
        paragraph(vec![
            text("one"),
            Event::HardBreak,
            text("two"),
            Event::HardBreak,
            text("three"),
            Event::HardBreak,
        ])
    );
}

#[test]
fn softbreaks_to_hardbreaks_leaves_the_context_alone() {
    let mut context = context_for("a.md", flag("k", true));
    let mut events = vec![Event::SoftBreak, Event::Rule, Event::SoftBreak];
    let outcome = softbreaks_to_hardbreaks(&mut context, &mut events, &ExportOptions::new());
    assert_eq!(outcome, PostprocessorResult::Continue);
    assert_eq!(events, vec![Event::HardBreak, Event::Rule, Event::HardBreak]);
    assert_eq!(context.destination, "a.md");
    assert_eq!(context.frontmatter, flag("k", true));
}

#[test]
fn test_yaml_inclusion() {
    let files = ["yaml_exclusion.md", "yaml_inclusion.md", "no_yaml.md"];
    let desired = [false, true, false];
    let mut vault = Vault::new();
    vault.add(note(files[0], flag("export", false), paragraph(vec![text("no")])));
    vault.add(note(files[1], flag("export", true), paragraph(vec![text("yes")])));
    vault.add(note(files[2], Mapping::new(), paragraph(vec![text("none")])));

    let mut exporter = Exporter::new();
    exporter.yaml_inclusion_key("export");
    exporter.add_postprocessor(Box::new(YamlIncluder));
    let mut mapper = exporter.new_mapper();
    for (i, wanted) in desired.iter().enumerate() {
        let written = exporter.export_note(&vault, i, &mut mapper).unwrap();
        assert!(written.is_some() == *wanted);
    }
}

#[test]
fn test_yaml_inclusion_embedded() {
    let mut vault = Vault::new();
    let mut body = paragraph(vec![text("root")]);
    body.extend(embed("yaml_exclusion"));
    body.extend(embed("no_yaml"));
    body.extend(embed("included"));
    vault.add(note("yaml_inclusion.md", flag("export", true), body));
    vault.add(note("yaml_exclusion.md", flag("export", false), paragraph(vec![text("no")])));
    vault.add(note("no_yaml.md", Mapping::new(), paragraph(vec![text("none")])));
    vault.add(note("included.md", flag("export", true), paragraph(vec![text("yes")])));

    let mut exporter = Exporter::new();
    exporter.yaml_inclusion_key("export");
    exporter.add_embed_postprocessor(Box::new(YamlIncluder));
    let mut mapper = exporter.new_mapper();
    let written = exporter.export_note(&vault, 0, &mut mapper).unwrap().unwrap();
    let mut expected = paragraph(vec![text("root")]);
    expected.extend(paragraph(vec![text("yes")]));
    assert_eq!(written.events, expected);
}

#[test]
fn yaml_includer_wants_the_boolean_true() {
    let mut options = ExportOptions::new();
    let mut events: MarkdownEvents = vec![text("x")];

    let mut context = context_for("a.md", flag("export", true));
    assert_eq!(yaml_includer(&mut context, &mut events, &options), PostprocessorResult::Continue);

    options.yaml_inclusion_key = Some("export".to_string());
    assert_eq!(yaml_includer(&mut context, &mut events, &options), PostprocessorResult::Continue);

    let mut context = context_for("a.md", flag("export", false));
    assert_eq!(
        yaml_includer(&mut context, &mut events, &options),
        PostprocessorResult::StopAndSkipNote
    );

    let mut other = Mapping::new();
    other.insert(Value::String("export".to_string()), Value::String("true".to_string()));
    let mut context = context_for("a.md", other);
    assert_eq!(
        yaml_includer(&mut context, &mut events, &options),
        PostprocessorResult::StopAndSkipNote
    );

    let mut context = context_for("a.md", flag("publish", true));
    assert_eq!(
        yaml_includer(&mut context, &mut events, &options),
        PostprocessorResult::StopAndSkipNote
    );
    assert_eq!(events, vec![text("x")]);
}

#[test]
fn chain_runs_in_order_and_stops_at_the_first_stop() {
    let chain: Vec<Box<dyn Postprocessor>> = vec![
        Box::new(FooToBar),
        Box::new(Always(PostprocessorResult::StopHere)),
        Box::new(Unreachable),
    ];
    let mut context = context_for("a.md", Mapping::new());
    let mut events = vec![text("foo")];
    let outcome = run_postprocessors(&chain, &mut context, &mut events, &ExportOptions::new());
    assert_eq!(outcome, PostprocessorResult::StopHere);
    assert_eq!(events, vec![text("bar")]);

    let empty: Vec<Box<dyn Postprocessor>> = Vec::new();
    let outcome = run_postprocessors(&empty, &mut context, &mut events, &ExportOptions::new());
    assert_eq!(outcome, PostprocessorResult::Continue);
    assert_eq!(events, vec![text("bar")]);
}
