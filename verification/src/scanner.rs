//! Finds wikilinks in a body. The markdown reader knows nothing of them: it
//! hands `[[Note]]` over as the text runs `[`, `[`, `Note`, `]`, `]`, and an
//! embed `![[Note]]` with `![` in front.

use vstd::prelude::*;
use crate::events::{events_view, Event, EventView};
use crate::text::{chars_of, extend_chars, string_of};

verus! {

/// What a text run is to the scanner.
#[derive(Clone, Copy, Debug, PartialEq, Eq, Structural)]
pub enum Token {
    /// The text `[`.
    Open,
    /// The text `![`.
    EmbedOpen,
    /// The text `]`.
    Close,
    /// Any other text.
    Words,
    /// An event that is no text.
    Other,
}

/// The token that `event` is.
pub open spec fn token_of(event: EventView) -> Token {
    match event {
        EventView::Text(text) => if text == seq!['['] {
            Token::Open
        } else if text == seq!['!', '['] {
            Token::EmbedOpen
        } else if text == seq![']'] {
            Token::Close
        } else {
            Token::Words
        },
        _ => Token::Other,
    }
}

/// The characters of a text event; none for another event.
pub open spec fn text_of(event: EventView) -> Seq<char> {
    match event {
        EventView::Text(text) => text,
        _ => Seq::<char>::empty(),
    }
}

/// Whether a token may stand between the brackets of a wikilink.
pub open spec fn inner_token(kind: Token) -> bool {
    kind == Token::Words || kind == Token::Open || kind == Token::EmbedOpen
}

/// How many events from `from` on are text that may stand inside a
/// reference: text runs other than `]`.
pub open spec fn inner_len(events: Seq<EventView>, from: int) -> nat
    decreases events.len() - from,
{
    if 0 <= from < events.len() && inner_token(token_of(events[from])) {
        1 + inner_len(events, from + 1)
    } else {
        0
    }
}

/// The text of the `count` events from `from` on, put together.
pub open spec fn inner_text(events: Seq<EventView>, from: int, count: nat) -> Seq<char>
    decreases count,
{
    if count == 0 {
        Seq::<char>::empty()
    } else {
        inner_text(events, from, (count - 1) as nat) + text_of(events[from + count - 1])
    }
}

/// A wikilink found in a body.
pub struct Found {
    /// Whether it is an embed (`![[..]]`) and not a plain link (`[[..]]`).
    pub embed: bool,
    /// What stands between the brackets.
    pub text: Seq<char>,
    /// How many events the wikilink takes up.
    pub events: int,
}

/// The wikilink that starts at the event `at`, if one does: `[` or `![`,
/// then `[`, then one or more text runs, then `]` and `]`.
pub open spec fn reference_at(events: Seq<EventView>, at: int) -> Option<Found> {
    if at < 0 || at + 1 >= events.len() {
        None
    } else if token_of(events[at]) != Token::Open && token_of(events[at]) != Token::EmbedOpen {
        None
    } else if token_of(events[at + 1]) != Token::Open {
        None
    } else {
        let count = inner_len(events, at + 2);
        let close = at + 2 + count;
        if count == 0 || close + 1 >= events.len() || token_of(events[close]) != Token::Close
            || token_of(events[close + 1]) != Token::Close {
            None
        } else {
            Some(
                Found {
                    embed: token_of(events[at]) == Token::EmbedOpen,
                    text: inner_text(events, at + 2, count),
                    events: (count + 4) as int,
                },
            )
        }
    }
}

/// Computes `inner_token`.
pub fn is_inner(kind: Token) -> (r: bool)
    ensures
        r == inner_token(kind),
{
    match kind {
        Token::Words => true,
        Token::Open => true,
        Token::EmbedOpen => true,
        _ => false,
    }
}

/// Computes `token_of`.
pub fn token(event: &Event) -> (r: Token)
    ensures
        r == token_of(event@),
{
    match event {
        Event::Text(text) => {
            let chars = chars_of(text.as_str());
            if chars.len() == 1 && chars[0] == '[' {
                assert(chars@ =~= seq!['[']);
                Token::Open
            } else if chars.len() == 2 && chars[0] == '!' && chars[1] == '[' {
                assert(chars@ =~= seq!['!', '[']);
                Token::EmbedOpen
            } else if chars.len() == 1 && chars[0] == ']' {
                assert(chars@ =~= seq![']']);
                Token::Close
            } else {
                assert(seq!['['].len() == 1 && seq!['['][0] == '[');
                assert(seq![']'].len() == 1 && seq![']'][0] == ']');
                assert(seq!['!', '['].len() == 2 && seq!['!', '['][0] == '!' && seq!['!', '['][1]
                    == '[');
                Token::Words
            }
        },
        _ => Token::Other,
    }
}

/// A wikilink as `find_reference` hands it out.
#[derive(Clone, Debug, PartialEq, Eq)]
pub struct FoundReference {
    /// Whether it is an embed and not a plain link.
    pub embed: bool,
    /// What stands between the brackets.
    pub text: String,
    /// How many events the wikilink takes up.
    pub events: usize,
}

impl View for FoundReference {
    type V = Found;

    open spec fn view(&self) -> Found {
        Found { embed: self.embed, text: self.text@, events: self.events as int }
    }
}

/// The views of an optional wikilink.
pub open spec fn found_view(found: Option<FoundReference>) -> Option<Found> {
    match found {
        Some(reference) => Some(reference@),
        None => None,
    }
}

/// Looks for a wikilink that starts at the event `at`.
pub fn find_reference(events: &Vec<Event>, at: usize) -> (found: Option<FoundReference>)
    ensures
        found_view(found) == reference_at(events_view(events@), at as int),
        found matches Some(reference) ==> at + reference.events <= events.len()
            && reference.events >= 5,
{
    let ghost views = events_view(events@);
    let n = events.len();
    if n < 2 || at >= n - 1 {
        return None;
    }
    let opener = token(&events[at]);
    if opener != Token::Open && opener != Token::EmbedOpen {
        return None;
    }
    if token(&events[at + 1]) != Token::Open {
        return None;
    }
    let start = at + 2;
    let mut text: Vec<char> = Vec::new();
    let mut i: usize = start;
    while i < n && is_inner(token(&events[i]))
        invariant
            start <= i <= n,
            n == events.len(),
            views == events_view(events@),
            inner_len(views, start as int) == (i - start) + inner_len(views, i as int),
            text@ == inner_text(views, start as int, (i - start) as nat),
        decreases n - i,
    {
        if let Event::Text(run) = &events[i] {
            let chars = chars_of(run.as_str());
            extend_chars(&mut text, &chars);
        }
        i = i + 1;
    }
    let count = i - start;
    if count == 0 || n - i < 2 {
        return None;
    }
    if token(&events[i]) != Token::Close || token(&events[i + 1]) != Token::Close {
        return None;
    }
    Some(
        FoundReference {
            embed: opener == Token::EmbedOpen,
            text: string_of(&text),
            events: count + 4,
        },
    )
}

} // verus!
