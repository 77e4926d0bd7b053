//! The markdown event vocabulary: a note's body is an ordered sequence of
//! these events, and every stage of the export works on such sequences.

use vstd::prelude::*;

verus! {

/// How a link or image was written in the source.
#[derive(Clone, Copy, Debug, PartialEq, Eq, Structural)]
pub enum LinkType {
    Inline,
    Reference,
    ReferenceUnknown,
    Collapsed,
    CollapsedUnknown,
    Shortcut,
    ShortcutUnknown,
    Autolink,
    Email,
}

/// Alignment of a table column.
#[derive(Clone, Copy, Debug, PartialEq, Eq, Structural)]
pub enum Alignment {
    Unset,
    Left,
    Center,
    Right,
}

/// Whether a code block is indented or fenced, and a fence's info string.
#[derive(Clone, Debug, PartialEq, Eq)]
pub enum CodeBlockKind {
    Indented,
    Fenced(String),
}

/// The span that a `Start` event opens and the matching `End` event closes.
#[derive(Clone, Debug, PartialEq, Eq)]
pub enum Tag {
    Paragraph,
    Heading { level: u8, id: Option<String>, classes: Vec<String> },
    BlockQuote,
    CodeBlock(CodeBlockKind),
    List(Option<u64>),
    Item,
    FootnoteDefinition(String),
    Table(Vec<Alignment>),
    TableHead,
    TableRow,
    TableCell,
    Emphasis,
    Strong,
    Strikethrough,
    Link { kind: LinkType, destination: String, title: String },
    Image { kind: LinkType, destination: String, title: String },
}

/// One node of a note's body.
#[derive(Clone, Debug, PartialEq, Eq)]
pub enum Event {
    Start(Tag),
    End(Tag),
    Text(String),
    Code(String),
    Html(String),
    FootnoteReference(String),
    SoftBreak,
    HardBreak,
    Rule,
    TaskListMarker(bool),
}

/// A note's body.
pub type MarkdownEvents = Vec<Event>;

pub enum CodeBlockKindView {
    Indented,
    Fenced(Seq<char>),
}

pub enum TagView {
    Paragraph,
    Heading { level: u8, id: Option<Seq<char>>, classes: Seq<Seq<char>> },
    BlockQuote,
    CodeBlock(CodeBlockKindView),
    List(Option<u64>),
    Item,
    FootnoteDefinition(Seq<char>),
    Table(Seq<Alignment>),
    TableHead,
    TableRow,
    TableCell,
    Emphasis,
    Strong,
    Strikethrough,
    Link { kind: LinkType, destination: Seq<char>, title: Seq<char> },
    Image { kind: LinkType, destination: Seq<char>, title: Seq<char> },
}

pub enum EventView {
    Start(TagView),
    End(TagView),
    Text(Seq<char>),
    Code(Seq<char>),
    Html(Seq<char>),
    FootnoteReference(Seq<char>),
    SoftBreak,
    HardBreak,
    Rule,
    TaskListMarker(bool),
}

/// The characters of an optional string.
pub open spec fn option_chars(o: Option<String>) -> Option<Seq<char>> {
    match o {
        Some(s) => Some(s@),
        None => None,
    }
}

/// The characters of each string of a list.
pub open spec fn strings_view(v: Seq<String>) -> Seq<Seq<char>> {
    Seq::new(v.len(), |i: int| v[i]@)
}

impl View for CodeBlockKind {
    type V = CodeBlockKindView;

    open spec fn view(&self) -> CodeBlockKindView {
        match *self {
            CodeBlockKind::Indented => CodeBlockKindView::Indented,
            CodeBlockKind::Fenced(info) => CodeBlockKindView::Fenced(info@),
        }
    }
}

impl View for Tag {
    type V = TagView;

    open spec fn view(&self) -> TagView {
        match *self {
            Tag::Paragraph => TagView::Paragraph,
            Tag::Heading { level, id, classes } => TagView::Heading {
                level,
                id: option_chars(id),
                classes: strings_view(classes@),
            },
            Tag::BlockQuote => TagView::BlockQuote,
            Tag::CodeBlock(kind) => TagView::CodeBlock(kind@),
            Tag::List(first) => TagView::List(first),
            Tag::Item => TagView::Item,
            Tag::FootnoteDefinition(label) => TagView::FootnoteDefinition(label@),
            Tag::Table(columns) => TagView::Table(columns@),
            Tag::TableHead => TagView::TableHead,
            Tag::TableRow => TagView::TableRow,
            Tag::TableCell => TagView::TableCell,
            Tag::Emphasis => TagView::Emphasis,
            Tag::Strong => TagView::Strong,
            Tag::Strikethrough => TagView::Strikethrough,
            Tag::Link { kind, destination, title } => TagView::Link {
                kind,
                destination: destination@,
                title: title@,
            },
            Tag::Image { kind, destination, title } => TagView::Image {
                kind,
                destination: destination@,
                title: title@,
            },
        }
    }
}

impl View for Event {
    type V = EventView;

    open spec fn view(&self) -> EventView {
        match *self {
            Event::Start(tag) => EventView::Start(tag@),
            Event::End(tag) => EventView::End(tag@),
            Event::Text(text) => EventView::Text(text@),
            Event::Code(text) => EventView::Code(text@),
            Event::Html(text) => EventView::Html(text@),
            Event::FootnoteReference(label) => EventView::FootnoteReference(label@),
            Event::SoftBreak => EventView::SoftBreak,
            Event::HardBreak => EventView::HardBreak,
            Event::Rule => EventView::Rule,
            Event::TaskListMarker(checked) => EventView::TaskListMarker(checked),
        }
    }
}

/// The views of the events of a body, in order.
pub open spec fn events_view(events: Seq<Event>) -> Seq<EventView> {
    Seq::new(events.len(), |i: int| events[i]@)
}

fn copy_strings(v: &Vec<String>) -> (r: Vec<String>)
    ensures
        strings_view(r@) == strings_view(v@),
{
    let mut r: Vec<String> = Vec::new();
    let mut i: usize = 0;
    while i < v.len()
        invariant
            i <= v.len(),
            r.len() == i,
            forall|j: int| 0 <= j < i ==> r@[j]@ == v@[j]@,
        decreases v.len() - i,
    {
        r.push(v[i].clone());
        i = i + 1;
    }
    assert(strings_view(r@) =~= strings_view(v@));
    r
}

fn copy_alignments(v: &Vec<Alignment>) -> (r: Vec<Alignment>)
    ensures
        r@ == v@,
{
    let mut r: Vec<Alignment> = Vec::new();
    let mut i: usize = 0;
    while i < v.len()
        invariant
            i <= v.len(),
            r.len() == i,
            forall|j: int| 0 <= j < i ==> r@[j] == v@[j],
        decreases v.len() - i,
    {
        r.push(v[i]);
        i = i + 1;
    }
    assert(r@ =~= v@);
    r
}

impl Tag {
    /// A copy with the same view.
    pub fn duplicate(&self) -> (r: Tag)
        ensures
            r@ == self@,
    {
        match self {
            Tag::Paragraph => Tag::Paragraph,
            Tag::Heading { level, id, classes } => {
                let id_copy = match id {
                    Some(s) => Some(s.clone()),
                    None => None,
                };
                Tag::Heading { level: *level, id: id_copy, classes: copy_strings(classes) }
            },
            Tag::BlockQuote => Tag::BlockQuote,
            Tag::CodeBlock(kind) => match kind {
                CodeBlockKind::Indented => Tag::CodeBlock(CodeBlockKind::Indented),
                CodeBlockKind::Fenced(info) => Tag::CodeBlock(CodeBlockKind::Fenced(info.clone())),
            },
            Tag::List(first) => Tag::List(*first),
            Tag::Item => Tag::Item,
            Tag::FootnoteDefinition(label) => Tag::FootnoteDefinition(label.clone()),
            Tag::Table(columns) => Tag::Table(copy_alignments(columns)),
            Tag::TableHead => Tag::TableHead,
            Tag::TableRow => Tag::TableRow,
            Tag::TableCell => Tag::TableCell,
            Tag::Emphasis => Tag::Emphasis,
            Tag::Strong => Tag::Strong,
            Tag::Strikethrough => Tag::Strikethrough,
            Tag::Link { kind, destination, title } => Tag::Link {
                kind: *kind,
                destination: destination.clone(),
                title: title.clone(),
            },
            Tag::Image { kind, destination, title } => Tag::Image {
                kind: *kind,
                destination: destination.clone(),
                title: title.clone(),
            },
        }
    }
}

impl Event {
    /// A copy with the same view.
    pub fn duplicate(&self) -> (r: Event)
        ensures
            r@ == self@,
    {
        match self {
            Event::Start(tag) => Event::Start(tag.duplicate()),
            Event::End(tag) => Event::End(tag.duplicate()),
            Event::Text(text) => Event::Text(text.clone()),
            Event::Code(text) => Event::Code(text.clone()),
            Event::Html(text) => Event::Html(text.clone()),
            Event::FootnoteReference(label) => Event::FootnoteReference(label.clone()),
            Event::SoftBreak => Event::SoftBreak,
            Event::HardBreak => Event::HardBreak,
            Event::Rule => Event::Rule,
            Event::TaskListMarker(checked) => Event::TaskListMarker(*checked),
        }
    }
}

/// Appends copies of `tail`'s events to `out`.
pub fn append_events(out: &mut Vec<Event>, tail: &Vec<Event>)
    ensures
        events_view(final(out)@) == events_view(old(out)@) + events_view(tail@),
{
    let mut i: usize = 0;
    while i < tail.len()
        invariant
            i <= tail.len(),
            events_view(out@) == events_view(old(out)@) + events_view(tail@.take(i as int)),
        decreases tail.len() - i,
    {
        let ghost before = out@;
        out.push(tail[i].duplicate());
        i = i + 1;
        assert(events_view(out@) =~= events_view(before).push(tail@[i - 1]@));
        assert(events_view(tail@.take(i as int)) =~= events_view(tail@.take(i - 1)).push(
            tail@[i - 1]@,
        ));
    }
    assert(tail@.take(i as int) =~= tail@);
}

} // verus!
