use obsidian_export::events::append_events;
use obsidian_export::mapper::{Layout, PathMapper};
use obsidian_export::paths::{join_components, relative_link, split_components};
use obsidian_export::reference::NoteReference;
use obsidian_export::text::{chars_of, find_char, slice_chars, string_of, string_of_range};
use obsidian_export::{
    Alignment, CodeBlockKind, Event, Exporter, LinkType, Note, Tag, Vault,
};
use serde_yaml::Mapping;

fn chars(s: &str) -> Vec<char> {
    s.chars().collect()
}

fn text(s: &str) -> Event {
    Event::Text(s.to_string())
}

#[test]
fn strings_and_characters() {
    assert_eq!(chars_of("a/ü→z"), vec!['a', '/', 'ü', '→', 'z']);
    assert_eq!(chars_of(""), Vec::<char>::new());
    assert_eq!(string_of(&chars("Übersicht.md")), "Übersicht.md");
    assert_eq!(string_of(&Vec::new()), "");
    assert_eq!(string_of_range(&chars("abcdef"), 2, 4), "cd");
    assert_eq!(string_of_range(&chars("abcdef"), 3, 3), "");
    assert_eq!(slice_chars(&chars("abcdef"), 1, 6), chars("bcdef"));
    assert_eq!(find_char(&chars("a#b#c"), '#', 0), 1);
    assert_eq!(find_char(&chars("a#b#c"), '#', 2), 3);
    assert_eq!(find_char(&chars("a#b#c"), '#', 4), 5);
    assert_eq!(find_char(&chars("a#b#c"), '|', 0), 5);
}

#[test]
fn components_of_paths() {
    let parts = split_components(&chars("a/b c/ü.md"));
    assert_eq!(parts, vec![chars("a"), chars("b c"), chars("ü.md")]);
    assert_eq!(split_components(&chars("")), vec![chars("")]);
    assert_eq!(split_components(&chars("x")), vec![chars("x")]);
    assert_eq!(split_components(&chars("/x/")), vec![chars(""), chars("x"), chars("")]);
    assert_eq!(join_components(&parts, 0), chars("a/b c/ü.md"));
    assert_eq!(join_components(&parts, 1), chars("b c/ü.md"));
    assert_eq!(join_components(&parts, 2), chars("ü.md"));
    assert_eq!(join_components(&parts, 3), chars(""));
}

#[test]
fn paths_beyond_ascii() {
    assert_eq!(relative_link("notizen/Übersicht.md", "bilder/Straße.md"), "../bilder/Straße.md");
    let mut mapper = PathMapper::new(Layout::Flat);
    assert_eq!(mapper.map("notizen/Übersicht.MD"), "Übersicht.md");
    assert_eq!(mapper.map("archiv/Übersicht.md"), "Übersicht-1.md");
    assert_eq!(mapper.map("archiv/Ö.Ä"), "Ö.Ä");
    let reference = NoteReference::from_str("Übersicht#Straße|höher");
    assert_eq!(reference.file, Some("Übersicht".to_string()));
    assert_eq!(reference.section, Some("Straße".to_string()));
    assert_eq!(reference.label, Some("höher".to_string()));
}

#[test]
fn links_beyond_ascii() {
    let mut vault = Vault::new();
    vault.add(Note::new(
        "notizen/Start.md".to_string(),
        Mapping::new(),
        vec![text("["), text("["), text("Übersicht#Straße"), text("]"), text("]")],
    ));
    vault.add(Note::new("archiv/Übersicht.md".to_string(), Mapping::new(), Vec::new()));
    let exporter = Exporter::new();
    let mut mapper = exporter.new_mapper();
    let written = exporter.export_note(&vault, 0, &mut mapper).unwrap().unwrap();
    let tag = Tag::Link {
        kind: LinkType::Inline,
        destination: "../archiv/Übersicht.md#Straße".to_string(),
        title: String::new(),
    };
    assert_eq!(
        written.events,
        vec![Event::Start(tag.clone()), text("Übersicht > Straße"), Event::End(tag)]
    );
}

fn every_kind() -> Vec<Event> {
    let tags = vec![
        Tag::Paragraph,
        Tag::Heading {
            level: 2,
            id: Some("id".to_string()),
            classes: vec!["a".to_string(), "b".to_string()],
        },
        Tag::Heading { level: 1, id: None, classes: Vec::new() },
        Tag::BlockQuote,
        Tag::CodeBlock(CodeBlockKind::Indented),
        Tag::CodeBlock(CodeBlockKind::Fenced("rust".to_string())),
        Tag::List(Some(3)),
        Tag::List(None),
        Tag::Item,
        Tag::FootnoteDefinition("note".to_string()),
        Tag::Table(vec![Alignment::Unset, Alignment::Left, Alignment::Center, Alignment::Right]),
        Tag::TableHead,
        Tag::TableRow,
        Tag::TableCell,
        Tag::Emphasis,
        Tag::Strong,
        Tag::Strikethrough,
        Tag::Link {
            kind: LinkType::Autolink,
            destination: "https://example.org".to_string(),
            title: "t".to_string(),
        },
        Tag::Image {
            kind: LinkType::Reference,
            destination: "pic.png".to_string(),
            title: String::new(),
        },
    ];
    let mut events = Vec::new();
    for tag in tags {
        events.push(Event::Start(tag.clone()));
        events.push(Event::End(tag));
    }
    events.extend(vec![
        text("text"),
        Event::Code("code".to_string()),
        Event::Html("<b>".to_string()),
        Event::FootnoteReference("note".to_string()),
        Event::SoftBreak,
        Event::HardBreak,
        Event::Rule,
        Event::TaskListMarker(true),
        Event::TaskListMarker(false),
    ]);
    events
}

#[test]
fn copies_are_equal() {
    let events = every_kind();
    for event in &events {
        assert_eq!(&event.duplicate(), event);
    }
    let mut out = vec![text("first")];
    append_events(&mut out, &events);
    let mut expected = vec![text("first")];
    expected.extend(events.clone());
    assert_eq!(out, expected);
    append_events(&mut out, &Vec::new());
    assert_eq!(out, expected);
}

#[test]
fn every_kind_of_event_passes_through_an_export() {
    let events = every_kind();
    let mut vault = Vault::new();
    vault.add(Note::new("Note.md".to_string(), Mapping::new(), events.clone()));
    let exporter = Exporter::new();
    let mut mapper = exporter.new_mapper();
    let written = exporter.export_note(&vault, 0, &mut mapper).unwrap().unwrap();
    assert_eq!(written.events, events);
}
