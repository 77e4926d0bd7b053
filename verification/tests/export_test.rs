use obsidian_export::expander::Step;
use obsidian_export::postprocessors::YamlIncluder;
use obsidian_export::{
    Context, Event, ExportError, Exporter, FileTree, FrontmatterStrategy, LinkType, Note,
    NoteOutcome, PostprocessorResult, Tag, Vault,
};
use serde_yaml::{Mapping, Value};

fn text(s: &str) -> Event {
    Event::Text(s.to_string())
}

fn link(title: &str) -> Vec<Event> {
    vec![text("["), text("["), text(title), text("]"), text("]")]
}

fn embed(title: &str) -> Vec<Event> {
    vec![text("!["), text("["), text(title), text("]"), text("]")]
}

fn linked(destination: &str, label: &str) -> Vec<Event> {
    let tag = Tag::Link {
        kind: LinkType::Inline,
        destination: destination.to_string(),
        title: String::new(),
    };
    vec![Event::Start(tag.clone()), text(label), Event::End(tag)]
}

fn literal(label: &str) -> Vec<Event> {
    vec![Event::Start(Tag::Emphasis), text(label), Event::End(Tag::Emphasis)]
}

fn note(path: &str, events: Vec<Event>) -> Note {
    Note::new(path.to_string(), Mapping::new(), events)
}

fn concat(parts: Vec<Vec<Event>>) -> Vec<Event> {
    parts.into_iter().flatten().collect()
}

fn one_entry() -> Mapping {
    let mut mapping = Mapping::new();
    mapping.insert(Value::String("foo".to_string()), Value::String("bar".to_string()));
    mapping
}

fn paths(trace: &[&str]) -> Vec<String> {
    trace.iter().map(|s| s.to_string()).collect()
}

#[test]
fn link_is_rewritten_to_a_relative_path() {
    let mut vault = Vault::new();
    vault.add(note("a/Note.md", concat(vec![vec![text("see ")], link("Target")])));
    vault.add(note("b/Target.md", vec![text("target")]));
    let exporter = Exporter::new();
    let mut mapper = exporter.new_mapper();
    let written = exporter.export_note(&vault, 0, &mut mapper).unwrap().unwrap();
    assert_eq!(written.destination, "a/Note.md");
    assert_eq!(
        written.events,
        concat(vec![vec![text("see ")], linked("../b/Target.md", "Target")])
    );
    let written = exporter.export_note(&vault, 1, &mut mapper).unwrap().unwrap();
    assert_eq!(written.destination, "b/Target.md");
    assert_eq!(written.events, vec![text("target")]);
}

#[test]
fn link_keeps_its_label_and_its_section() {
    let mut vault = Vault::new();
    vault.add(note(
        "a/Note.md",
        concat(vec![
            link("Target|the target"),
            link("Target#Part"),
            link("Target#Part|shown"),
            link("#Here"),
        ]),
    ));
    vault.add(note("b/Target.md", Vec::new()));
    let exporter = Exporter::new();
    let mut mapper = exporter.new_mapper();
    let written = exporter.export_note(&vault, 0, &mut mapper).unwrap().unwrap();
    assert_eq!(
        written.events,
        concat(vec![
            linked("../b/Target.md", "the target"),
            linked("../b/Target.md#Part", "Target > Part"),
            linked("../b/Target.md#Part", "shown"),
            linked("Note.md#Here", "Here"),
        ])
    );
}

#[test]
fn link_under_flat_layout() {
    let mut vault = Vault::new();
    vault.add(note("a/Note.md", link("b/Note")));
    vault.add(note("b/Note.md", link("a/Note")));
    let mut exporter = Exporter::new();
    exporter.flat_export(true);
    let mut mapper = exporter.new_mapper();
    let first = exporter.export_note(&vault, 0, &mut mapper).unwrap().unwrap();
    let second = exporter.export_note(&vault, 1, &mut mapper).unwrap().unwrap();
    assert_eq!(first.destination, "Note.md");
    assert_eq!(second.destination, "Note-1.md");
    assert_eq!(first.events, linked("Note-1.md", "b/Note"));
    assert_eq!(second.events, linked("Note.md", "a/Note"));
}

#[test]
fn layouts_keep_two_notes_of_one_name_apart() {
    let mut vault = Vault::new();
    vault.add(note("a/Note.md", vec![text("one")]));
    vault.add(note("b/Note.md", vec![text("two")]));

    let exporter = Exporter::new();
    let mut mapper = exporter.new_mapper();
    let first = exporter.export_note(&vault, 0, &mut mapper).unwrap().unwrap();
    let second = exporter.export_note(&vault, 1, &mut mapper).unwrap().unwrap();
    assert_eq!(first.destination, "a/Note.md");
    assert_eq!(second.destination, "b/Note.md");

    let mut exporter = Exporter::new();
    exporter.flat_export(true);
    let mut mapper = exporter.new_mapper();
    let first = exporter.export_note(&vault, 0, &mut mapper).unwrap().unwrap();
    let second = exporter.export_note(&vault, 1, &mut mapper).unwrap().unwrap();
    assert_ne!(first.destination, second.destination);
    assert_eq!(first.destination, "Note.md");
    assert_eq!(second.destination, "Note-1.md");
    assert_eq!(first.events, vec![text("one")]);
    assert_eq!(second.events, vec![text("two")]);
}

#[test]
fn reference_to_a_missing_note_stays_as_text() {
    let mut vault = Vault::new();
    vault.add(note(
        "Note.md",
        concat(vec![link("Missing"), embed("Gone|shown"), vec![text("end")]]),
    ));
    let exporter = Exporter::new();
    let mut mapper = exporter.new_mapper();
    let written = exporter.export_note(&vault, 0, &mut mapper).unwrap().unwrap();
    assert_eq!(
        written.events,
        concat(vec![literal("Missing"), literal("shown"), vec![text("end")]])
    );
}

#[test]
fn broken_brackets_stay_as_they_are() {
    let events = vec![text("["), text("["), text("Note"), text("]"), text("x"), text("![")];
    let mut vault = Vault::new();
    vault.add(note("Note.md", events.clone()));
    let exporter = Exporter::new();
    let mut mapper = exporter.new_mapper();
    let written = exporter.export_note(&vault, 0, &mut mapper).unwrap().unwrap();
    assert_eq!(written.events, events);
}

#[test]
fn embeds_are_expanded_in_order_and_in_depth() {
    let mut vault = Vault::new();
    vault.add(note(
        "Root.md",
        concat(vec![vec![text("r1")], embed("A"), vec![text("r2")], embed("B"), vec![text("r3")]]),
    ));
    vault.add(note("A.md", concat(vec![vec![text("a1")], embed("C"), vec![text("a2")]])));
    vault.add(note("B.md", vec![text("b")]));
    vault.add(note("C.md", concat(vec![vec![text("c")], link("B")])));
    let exporter = Exporter::new();
    let mut mapper = exporter.new_mapper();
    let written = exporter.export_note(&vault, 0, &mut mapper).unwrap().unwrap();
    assert_eq!(
        written.events,
        concat(vec![
            vec![text("r1"), text("a1"), text("c")],
            linked("B.md", "B"),
            vec![text("a2"), text("r2"), text("b"), text("r3")],
        ])
    );
}

#[test]
fn one_note_may_be_embedded_twice() {
    let mut vault = Vault::new();
    vault.add(note("Root.md", concat(vec![embed("A"), embed("A")])));
    vault.add(note("A.md", vec![text("a")]));
    let exporter = Exporter::new();
    let mut mapper = exporter.new_mapper();
    let written = exporter.export_note(&vault, 0, &mut mapper).unwrap().unwrap();
    assert_eq!(written.events, vec![text("a"), text("a")]);
}

#[test]
fn embeds_become_links_where_they_are_not_expanded() {
    let mut vault = Vault::new();
    vault.add(note("a/A.md", concat(vec![vec![text("a")], embed("B")])));
    vault.add(note("b/B.md", concat(vec![vec![text("b")], embed("A")])));
    let mut exporter = Exporter::new();
    exporter.process_embeds_recursively(false);
    let mut mapper = exporter.new_mapper();
    let written = exporter.export_note(&vault, 0, &mut mapper).unwrap().unwrap();
    assert_eq!(written.events, concat(vec![vec![text("a")], linked("../b/B.md", "B")]));
}

#[test]
fn cycle_of_two_is_reported_with_its_trace() {
    let mut vault = Vault::new();
    vault.add(note("A.md", concat(vec![vec![text("a")], embed("B")])));
    vault.add(note("B.md", concat(vec![vec![text("b")], embed("A")])));
    let exporter = Exporter::new();
    let mut mapper = exporter.new_mapper();
    assert_eq!(
        exporter.export_note(&vault, 0, &mut mapper).err(),
        Some(ExportError::RecursionLimitExceeded { file_tree: paths(&["A.md", "B.md", "A.md"]) })
    );
    assert_eq!(
        exporter.export_note(&vault, 1, &mut mapper).err(),
        Some(ExportError::RecursionLimitExceeded { file_tree: paths(&["B.md", "A.md", "B.md"]) })
    );
}

#[test]
fn note_that_embeds_itself_is_a_cycle() {
    let mut vault = Vault::new();
    vault.add(note("A.md", embed("A")));
    vault.add(note("B.md", embed("#Part")));
    let exporter = Exporter::new();
    let mut mapper = exporter.new_mapper();
    assert_eq!(
        exporter.export_note(&vault, 0, &mut mapper).err(),
        Some(ExportError::RecursionLimitExceeded { file_tree: paths(&["A.md", "A.md"]) })
    );
    assert_eq!(
        exporter.export_note(&vault, 1, &mut mapper).err(),
        Some(ExportError::RecursionLimitExceeded { file_tree: paths(&["B.md", "B.md"]) })
    );
}

#[test]
fn the_first_failure_in_document_order_is_reported() {
    let mut vault = Vault::new();
    vault.add(note("Root.md", concat(vec![embed("Fine"), embed("Loop"), embed("Root")])));
    vault.add(note("Fine.md", vec![text("fine")]));
    vault.add(note("Loop.md", embed("Loop")));
    let exporter = Exporter::new();
    let mut mapper = exporter.new_mapper();
    assert_eq!(
        exporter.export_note(&vault, 0, &mut mapper).err(),
        Some(ExportError::RecursionLimitExceeded {
            file_tree: paths(&["Root.md", "Loop.md", "Loop.md"])
        })
    );
}

fn chain(count: usize) -> Vault {
    let mut vault = Vault::new();
    for i in 0..count {
        let mut events = vec![text(&format!("n{}", i))];
        if i + 1 < count {
            events.extend(embed(&format!("N{}", i + 1)));
        }
        vault.add(note(&format!("N{}.md", i), events));
    }
    vault
}

#[test]
fn chain_fails_below_its_length_and_succeeds_at_it() {
    let vault = chain(4);
    let mut exporter = Exporter::new();

    exporter.recursion_limit(4);
    let mut mapper = exporter.new_mapper();
    let written = exporter.export_note(&vault, 0, &mut mapper).unwrap().unwrap();
    assert_eq!(written.events, vec![text("n0"), text("n1"), text("n2"), text("n3")]);

    exporter.recursion_limit(3);
    let mut mapper = exporter.new_mapper();
    assert_eq!(
        exporter.export_note(&vault, 0, &mut mapper).err(),
        Some(ExportError::RecursionLimitExceeded {
            file_tree: paths(&["N0.md", "N1.md", "N2.md", "N3.md"])
        })
    );

    exporter.recursion_limit(1);
    let mut mapper = exporter.new_mapper();
    assert_eq!(
        exporter.export_note(&vault, 0, &mut mapper).err(),
        Some(ExportError::RecursionLimitExceeded { file_tree: paths(&["N0.md", "N1.md"]) })
    );
    let written = exporter.export_note(&vault, 3, &mut mapper).unwrap().unwrap();
    assert_eq!(written.events, vec![text("n3")]);

    exporter.recursion_limit(0);
    let mut mapper = exporter.new_mapper();
    assert!(exporter.export_note(&vault, 3, &mut mapper).is_ok());
    assert!(exporter.export_note(&vault, 2, &mut mapper).is_err());
}

#[test]
fn default_limit_is_ten_notes() {
    let exporter = Exporter::new();
    let mut mapper = exporter.new_mapper();
    assert!(exporter.export_note(&chain(10), 0, &mut mapper).is_ok());
    let mut mapper = exporter.new_mapper();
    assert!(exporter.export_note(&chain(11), 0, &mut mapper).is_err());
}

#[test]
fn exporting_what_was_exported_expands_nothing() {
    let mut vault = Vault::new();
    vault.add(note("Root.md", concat(vec![vec![text("r")], embed("A"), embed("Missing")])));
    vault.add(note("A.md", concat(vec![vec![text("a")], link("Root")])));
    let exporter = Exporter::new();
    let mut mapper = exporter.new_mapper();
    let first = exporter.export_note(&vault, 0, &mut mapper).unwrap().unwrap();

    let mut again = Vault::new();
    again.add(note("Root.md", first.events.clone()));
    again.add(note("A.md", vec![text("must not show up")]));
    let mut mapper = exporter.new_mapper();
    let second = exporter.export_note(&again, 0, &mut mapper).unwrap().unwrap();
    assert_eq!(second.events, first.events);
}

#[test]
fn frontmatter_by_strategy() {
    let mut vault = Vault::new();
    vault.add(Note::new("With.md".to_string(), one_entry(), vec![text("w")]));
    vault.add(note("Without.md", vec![text("o")]));
    let mut exporter = Exporter::new();

    let mut mapper = exporter.new_mapper();
    let with = exporter.export_note(&vault, 0, &mut mapper).unwrap().unwrap();
    let without = exporter.export_note(&vault, 1, &mut mapper).unwrap().unwrap();
    assert_eq!(with.frontmatter, Some(one_entry()));
    assert_eq!(without.frontmatter, None);

    exporter.frontmatter_strategy(FrontmatterStrategy::Always);
    let with = exporter.export_note(&vault, 0, &mut mapper).unwrap().unwrap();
    let without = exporter.export_note(&vault, 1, &mut mapper).unwrap().unwrap();
    assert_eq!(with.frontmatter, Some(one_entry()));
    assert_eq!(without.frontmatter, Some(Mapping::new()));

    exporter.frontmatter_strategy(FrontmatterStrategy::Never);
    let with = exporter.export_note(&vault, 0, &mut mapper).unwrap().unwrap();
    let without = exporter.export_note(&vault, 1, &mut mapper).unwrap().unwrap();
    assert_eq!(with.frontmatter, None);
    assert_eq!(without.frontmatter, None);
}

#[test]
fn frontmatter_of_an_embedded_note_does_not_reach_the_root() {
    let mut vault = Vault::new();
    vault.add(note("Root.md", embed("With")));
    vault.add(Note::new("With.md".to_string(), one_entry(), vec![text("w")]));
    let exporter = Exporter::new();
    let mut mapper = exporter.new_mapper();
    let written = exporter.export_note(&vault, 0, &mut mapper).unwrap().unwrap();
    assert_eq!(written.frontmatter, None);
    assert_eq!(written.events, vec![text("w")]);
}

#[test]
fn export_roots_under_a_sub_path() {
    let mut exporter = Exporter::new();
    assert!(exporter.is_export_root("a/Note.md"));
    exporter.start_at("notes/sub");
    assert!(exporter.is_export_root("notes/sub/Note.md"));
    assert!(exporter.is_export_root("notes/sub/deep/Note.md"));
    assert!(exporter.is_export_root("notes/sub"));
    assert!(!exporter.is_export_root("notes/subway/Note.md"));
    assert!(!exporter.is_export_root("notes/Note.md"));
    assert!(!exporter.is_export_root("other/notes/sub/Note.md"));
    assert!(!exporter.is_export_root("notes"));
    exporter.start_at("notes/");
    assert!(exporter.is_export_root("notes/Note.md"));
    assert!(!exporter.is_export_root("notes"));
    exporter.start_at("");
    assert!(exporter.is_export_root("anything.md"));
}

#[test]
fn settings_default_and_set() {
    let mut exporter = Exporter::new();
    assert_eq!(exporter.options.frontmatter_strategy, FrontmatterStrategy::Auto);
    assert!(exporter.options.recursive_embeds);
    assert!(!exporter.options.flat_layout);
    assert_eq!(exporter.options.recursion_limit, 10);
    assert_eq!(exporter.options.start_at, None);
    assert_eq!(exporter.options.yaml_inclusion_key, None);
    exporter.yaml_inclusion_key("export");
    exporter.start_at("sub");
    exporter.flat_export(true);
    exporter.process_embeds_recursively(false);
    exporter.recursion_limit(3);
    exporter.frontmatter_strategy(FrontmatterStrategy::Never);
    assert_eq!(exporter.options.yaml_inclusion_key, Some("export".to_string()));
    assert_eq!(exporter.options.start_at, Some("sub".to_string()));
    assert!(exporter.options.flat_layout);
    assert!(!exporter.options.recursive_embeds);
    assert_eq!(exporter.options.recursion_limit, 3);
    assert_eq!(exporter.options.frontmatter_strategy, FrontmatterStrategy::Never);
}

#[test]
fn context_knows_its_note_and_its_root() {
    let tree = FileTree::root("Root.md");
    assert!(tree.contains("Root.md"));
    assert!(!tree.contains("A.md"));
    assert!(tree.child("Root.md").is_none());
    let below = tree.child("dir/A.md").unwrap();
    assert!(below.child("Root.md").is_none());
    assert!(below.child("dir/A.md").is_none());
    assert_eq!(below.depth(), 2);
    let context = Context::new(below, "out/A.md".to_string(), one_entry());
    assert_eq!(context.current_file(), "dir/A.md");
    assert_eq!(context.root_file(), "Root.md");
    assert_eq!(context.note_depth(), 2);
    assert_eq!(context.file_tree(), paths(&["Root.md", "dir/A.md"]));
    assert_eq!(context.destination, "out/A.md");
    assert_eq!(context.frontmatter, one_entry());
}

#[test]
fn run_gives_every_note_its_own_outcome() {
    let mut included = Mapping::new();
    included.insert(Value::String("export".to_string()), Value::Bool(true));
    let mut vault = Vault::new();
    vault.add(note("drafts/Draft.md", vec![text("draft")]));
    vault.add(Note::new(
        "notes/a/Note.md".to_string(),
        included.clone(),
        concat(vec![link("b/Note"), embed("Private")]),
    ));
    vault.add(Note::new("notes/b/Note.md".to_string(), included.clone(), embed("Loop")));
    vault.add(Note::new("notes/Loop.md".to_string(), included.clone(), embed("Loop")));
    vault.add(note("notes/Private.md", vec![text("private")]));
    vault.add(Note::new("notes/c/Note.md".to_string(), included, vec![text("c")]));

    let mut exporter = Exporter::new();
    exporter.start_at("notes");
    exporter.flat_export(true);
    exporter.yaml_inclusion_key("export");
    exporter.add_postprocessor(Box::new(YamlIncluder));
    let outcomes = exporter.run(&vault);

    assert_eq!(outcomes.len(), 6);
    assert!(matches!(outcomes[0], NoteOutcome::NotARoot));
    match &outcomes[1] {
        NoteOutcome::Written(written) => {
            assert_eq!(written.destination, "Note.md");
            assert_eq!(
                written.events,
                concat(vec![linked("Note-1.md", "b/Note"), vec![text("private")]])
            );
        }
        _ => panic!("the first note is written"),
    }
    match &outcomes[2] {
        NoteOutcome::Failed(ExportError::RecursionLimitExceeded { file_tree }) => {
            assert_eq!(
                file_tree,
                &paths(&["notes/b/Note.md", "notes/Loop.md", "notes/Loop.md"])
            );
        }
        _ => panic!("the second note fails"),
    }
    assert!(matches!(outcomes[3], NoteOutcome::Failed(_)));
    assert!(matches!(outcomes[4], NoteOutcome::Skipped));
    match &outcomes[5] {
        NoteOutcome::Written(written) => {
            assert_eq!(written.destination, "Note-2.md");
            assert_eq!(written.events, vec![text("c")]);
        }
        _ => panic!("the last note is written"),
    }
}

#[test]
fn steps_of_a_body() {
    let mut vault = Vault::new();
    vault.add(note(
        "a/Note.md",
        concat(vec![
            vec![text("plain")],
            link("Target#Part|shown"),
            embed("Target"),
            link("Missing"),
            embed("Gone"),
        ]),
    ));
    vault.add(note("b/Target.md", Vec::new()));
    let mut exporter = Exporter::new();

    assert!(matches!(exporter.step(&vault, 0, 0), Step::Keep));
    match exporter.step(&vault, 0, 1) {
        Step::Link { target, section, label, used } => {
            assert_eq!(target, 1);
            assert_eq!(section, Some("Part".to_string()));
            assert_eq!(label, "shown");
            assert_eq!(used, 5);
        }
        _ => panic!("a link starts at the second event"),
    }
    assert!(matches!(exporter.step(&vault, 0, 2), Step::Keep));
    assert!(matches!(exporter.step(&vault, 0, 6), Step::Embed { target: 1, used: 5 }));
    match exporter.step(&vault, 0, 11) {
        Step::Literal { label, used } => {
            assert_eq!(label, "Missing");
            assert_eq!(used, 5);
        }
        _ => panic!("a reference to a missing note starts here"),
    }
    assert!(matches!(exporter.step(&vault, 0, 16), Step::Literal { .. }));
    assert!(matches!(exporter.step(&vault, 0, 20), Step::Keep));

    exporter.process_embeds_recursively(false);
    match exporter.step(&vault, 0, 6) {
        Step::Link { target, section, label, used } => {
            assert_eq!(target, 1);
            assert_eq!(section, None);
            assert_eq!(label, "Target");
            assert_eq!(used, 5);
        }
        _ => panic!("an embed that is not expanded is a link"),
    }
}

#[test]
fn expansion_of_an_embedded_note_has_its_own_context() {
    let mut vault = Vault::new();
    vault.add(note("Root.md", embed("dir/Child")));
    vault.add(Note::new("dir/Child.md".to_string(), one_entry(), link("Root")));
    let exporter = Exporter::new();
    let mut mapper = exporter.new_mapper();
    let tree = FileTree::root("Root.md").child("dir/Child.md").unwrap();
    let expansion = exporter.expand_note(&vault, 1, tree, &mut mapper).ok().unwrap();
    assert_eq!(expansion.outcome, PostprocessorResult::Continue);
    assert_eq!(expansion.events, linked("../Root.md", "Root"));
    assert_eq!(expansion.context.current_file(), "dir/Child.md");
    assert_eq!(expansion.context.root_file(), "Root.md");
    assert_eq!(expansion.context.destination, "dir/Child.md");
    assert_eq!(expansion.context.frontmatter, one_entry());
    assert_eq!(mapper.position("dir/Child.md"), Some(0));
    assert_eq!(mapper.position("Root.md"), Some(1));

    let tree = FileTree::root("Root.md");
    let trace = exporter.expand_note(&vault, 0, tree, &mut mapper).ok().unwrap();
    assert_eq!(trace.events, linked("../Root.md", "Root"));
}

#[test]
fn run_with_goes_on_where_the_mapper_stands() {
    let mut vault = Vault::new();
    vault.add(note("a/Note.md", vec![text("a")]));
    vault.add(note("b/Note.md", vec![text("b")]));
    let mut exporter = Exporter::new();
    exporter.flat_export(true);
    let mut mapper = exporter.new_mapper();
    assert_eq!(mapper.map("elsewhere/Note.md"), "Note.md");
    let outcomes = exporter.run_with(&vault, &mut mapper);
    assert_eq!(outcomes.len(), 2);
    match (&outcomes[0], &outcomes[1]) {
        (NoteOutcome::Written(first), NoteOutcome::Written(second)) => {
            assert_eq!(first.destination, "Note-1.md");
            assert_eq!(second.destination, "Note-2.md");
        }
        _ => panic!("both notes are written"),
    }
    assert_eq!(mapper.assigned.len(), 3);
    assert_eq!(mapper.map("elsewhere/Note.md"), "Note.md");
}

fn depth_after(events: &[Event]) -> Option<usize> {
    let mut open = 0usize;
    for event in events {
        match event {
            Event::Start(_) => open += 1,
            Event::End(_) => open = open.checked_sub(1)?,
            _ => {}
        }
    }
    Some(open)
}

#[test]
fn splicing_keeps_the_nesting() {
    let section = |inner: Vec<Event>| {
        concat(vec![
            vec![Event::Start(Tag::BlockQuote), Event::Start(Tag::Paragraph)],
            inner,
            vec![Event::End(Tag::Paragraph), Event::End(Tag::BlockQuote)],
        ])
    };
    let mut vault = Vault::new();
    vault.add(note(
        "Root.md",
        section(concat(vec![embed("A"), link("B"), link("Missing"), embed("B")])),
    ));
    vault.add(note("A.md", section(concat(vec![vec![text("a")], embed("B")]))));
    vault.add(note("B.md", section(vec![text("b")])));
    let exporter = Exporter::new();
    let mut mapper = exporter.new_mapper();
    let written = exporter.export_note(&vault, 0, &mut mapper).unwrap().unwrap();
    assert_eq!(depth_after(&written.events), Some(0));
    assert_eq!(
        written.events,
        section(concat(vec![
            section(concat(vec![vec![text("a")], section(vec![text("b")])])),
            linked("B.md", "B"),
            literal("Missing"),
            section(vec![text("b")]),
        ]))
    );
}
