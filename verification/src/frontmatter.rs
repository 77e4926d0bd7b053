//! Frontmatter: the YAML block at the head of a note. Finds the block in the
//! raw text, has it read as a mapping, and decides by strategy whether the
//! block goes into the output.

use vstd::prelude::*;
use crate::text::{chars_of, find_char, find_from, string_of_range};

verus! {

/// A YAML value as a tree of plain values: what a mapping holds is stated
/// over this.
pub enum YamlView {
    Null,
    Bool(bool),
    /// A number, by the text it is written as.
    Number(Seq<char>),
    String(Seq<char>),
    Sequence(Seq<YamlView>),
    Mapping(Seq<(YamlView, YamlView)>),
    /// A tagged value: the tag and what it is put on.
    Tagged(Seq<char>, Box<YamlView>),
}

/// `serde_yaml::Mapping`: a YAML mapping that keeps its entries in the order
/// they were inserted and holds no key twice.
#[verifier::external_type_specification]
#[verifier::external_body]
pub struct ExMapping(serde_yaml::Mapping);

/// `serde_yaml::Error`: why a text could not be read as YAML.
#[verifier::external_type_specification]
#[verifier::external_body]
pub struct ExYamlError(serde_yaml::Error);

/// The entries of a mapping, key and value, in the order they were inserted.
pub uninterp spec fn mapping_entries(mapping: serde_yaml::Mapping) -> Seq<(YamlView, YamlView)>;

/// The entries of the mapping that `text` is read as; `None` where it
/// cannot be read as one.
pub uninterp spec fn yaml_mapping(text: Seq<char>) -> Option<Seq<(YamlView, YamlView)>>;

/// The boolean that `entries` hold under the string key `key`: `None` where
/// no entry has that key, or the entry's value is no boolean.
pub open spec fn flag_at(entries: Seq<(YamlView, YamlView)>, key: Seq<char>) -> Option<bool>
    decreases entries.len(),
{
    if entries.len() == 0 {
        None
    } else if entries[0].0 == YamlView::String(key) {
        match entries[0].1 {
            YamlView::Bool(b) => Some(b),
            _ => None,
        }
    } else {
        flag_at(entries.drop_first(), key)
    }
}

/// `serde_yaml::Mapping::new`: a mapping with no entries.
#[verifier::external_body]
pub(crate) fn new_mapping() -> (mapping: serde_yaml::Mapping)
    ensures
        mapping_entries(mapping).len() == 0,
{
    serde_yaml::Mapping::new()
}

/// `serde_yaml::Mapping::is_empty`: whether the mapping has no entries.
#[verifier::external_body]
pub(crate) fn mapping_is_empty(mapping: &serde_yaml::Mapping) -> (empty: bool)
    ensures
        empty == (mapping_entries(*mapping).len() == 0),
{
    mapping.is_empty()
}

/// `serde_yaml::Mapping::get` with a string key: the value stored under the
/// key that is the YAML string `key`, handed out if it is a boolean. Keys of
/// a mapping are distinct, so at most one entry has the key.
#[verifier::external_body]
pub(crate) fn mapping_flag(mapping: &serde_yaml::Mapping, key: &str) -> (flag: Option<bool>)
    ensures
        flag == flag_at(mapping_entries(*mapping), key@),
{
    match mapping.get(key) {
        Some(serde_yaml::Value::Bool(flag)) => Some(*flag),
        _ => None,
    }
}

/// `Clone::clone` of `serde_yaml::Mapping`: a mapping with the same entries
/// in the same order.
pub assume_specification[ <serde_yaml::Mapping as Clone>::clone ](
    mapping: &serde_yaml::Mapping,
) -> (copy: serde_yaml::Mapping)
    ensures
        mapping_entries(copy) == mapping_entries(*mapping),
;

/// `serde_yaml::from_str` at the type `Mapping`: reads `text` as one YAML
/// document whose top level is a mapping. Whether it succeeds, and what
/// entries it reads, depends on `text` alone: that is `yaml_mapping`.
#[verifier::external_body]
pub(crate) fn read_mapping(text: &str) -> (read: Result<serde_yaml::Mapping, serde_yaml::Error>)
    ensures
        match read {
            Ok(mapping) => yaml_mapping(text@) == Some(mapping_entries(mapping)),
            Err(_) => yaml_mapping(text@) is None,
        },
{
    serde_yaml::from_str::<serde_yaml::Mapping>(text)
}

/// `ToString::to_string` of `serde_yaml::Error`: the error's message.
/// Nothing is claimed of what it says.
#[verifier::external_body]
pub(crate) fn yaml_error_message(error: &serde_yaml::Error) -> String {
    error.to_string()
}

/// Why a note's raw text could not be split.
#[derive(Clone, Debug, PartialEq, Eq)]
pub enum ParseError {
    /// The text opens a frontmatter block and never closes it.
    UnclosedFrontmatter,
    /// The block is not YAML, or its top level is not a mapping; with the
    /// YAML reader's message.
    InvalidFrontmatter(String),
}

/// Where the line after a delimiter line starts, if a delimiter line starts
/// at `at`: three dashes and then a line break or the end of the text.
/// Otherwise -1.
pub open spec fn delimiter_end(s: Seq<char>, at: int) -> int {
    if at < 0 || at + 3 > s.len() || s[at] != '-' || s[at + 1] != '-' || s[at + 2] != '-' {
        -1
    } else if at + 3 == s.len() {
        at + 3
    } else if s[at + 3] == '\n' {
        at + 4
    } else if s[at + 3] == '\r' && at + 4 < s.len() && s[at + 4] == '\n' {
        at + 5
    } else {
        -1
    }
}

/// The start of the first delimiter line among the lines that start at
/// `from` and after it; -1 if there is none.
pub open spec fn closing_line(s: Seq<char>, from: int) -> int
    decreases s.len() - from,
{
    if from < 0 || from >= s.len() {
        -1
    } else if delimiter_end(s, from) >= 0 {
        from
    } else {
        let line_break = find_from(s, '\n', from);
        if line_break < from || line_break >= s.len() {
            -1
        } else {
            closing_line(s, line_break + 1)
        }
    }
}

/// What the raw text of a note splits into.
pub enum SplitView {
    /// The text does not start with a delimiter line: all of it is body.
    Plain,
    /// The text starts with a delimiter line and has no second one.
    Unclosed,
    /// The lines between the two delimiter lines, and what follows the second.
    Block { yaml: Seq<char>, body: Seq<char> },
}

/// Splits raw text at its first two delimiter lines.
pub open spec fn split_text(s: Seq<char>) -> SplitView {
    let opened = delimiter_end(s, 0);
    if opened < 0 {
        SplitView::Plain
    } else {
        let closing = closing_line(s, opened);
        if closing < 0 {
            SplitView::Unclosed
        } else {
            SplitView::Block {
                yaml: s.subrange(opened, closing),
                body: s.skip(delimiter_end(s, closing)),
            }
        }
    }
}

/// Computes `delimiter_end`; `None` stands for -1.
fn delimiter_end_at(v: &Vec<char>, at: usize) -> (r: Option<usize>)
    requires
        at <= v.len(),
    ensures
        match r {
            Some(end) => end == delimiter_end(v@, at as int) && at < end <= v.len(),
            None => delimiter_end(v@, at as int) == -1,
        },
{
    let n = v.len();
    if n - at < 3 || v[at] != '-' || v[at + 1] != '-' || v[at + 2] != '-' {
        None
    } else if n - at == 3 {
        Some(n)
    } else if v[at + 3] == '\n' {
        Some(at + 4)
    } else if v[at + 3] == '\r' && n - at > 4 && v[at + 4] == '\n' {
        Some(at + 5)
    } else {
        None
    }
}

/// Computes `closing_line`, and where the line after the closing line
/// starts; `None` stands for -1.
fn find_closing_line(v: &Vec<char>, from: usize) -> (r: Option<(usize, usize)>)
    requires
        from <= v.len(),
    ensures
        match r {
            Some((at, end)) => at == closing_line(v@, from as int) && end == delimiter_end(
                v@,
                at as int,
            ) && from <= at < end <= v.len(),
            None => closing_line(v@, from as int) == -1,
        },
{
    let mut line: usize = from;
    while line < v.len()
        invariant
            from <= line <= v.len(),
            closing_line(v@, from as int) == closing_line(v@, line as int),
        decreases v.len() - line,
    {
        if let Some(end) = delimiter_end_at(v, line) {
            return Some((line, end));
        }
        let line_break = find_char(v, '\n', line);
        if line_break >= v.len() {
            return None;
        }
        line = line_break + 1;
    }
    None
}

/// How frontmatter is carried into the output.
#[derive(Clone, Copy, Debug, PartialEq, Eq, Structural)]
pub enum FrontmatterStrategy {
    /// The output always has a frontmatter block, an empty one if need be.
    Always,
    /// The output never has a frontmatter block.
    Never,
    /// The output has a frontmatter block if the mapping has entries.
    Auto,
}

/// Whether a note with this many frontmatter entries gets a frontmatter
/// block under `strategy`.
pub open spec fn keeps_frontmatter(strategy: FrontmatterStrategy, entries: nat) -> bool {
    match strategy {
        FrontmatterStrategy::Always => true,
        FrontmatterStrategy::Never => false,
        FrontmatterStrategy::Auto => entries > 0,
    }
}

/// The frontmatter that goes into the output: the mapping itself where the
/// strategy keeps it, nothing where it does not.
pub fn resolve_frontmatter(strategy: FrontmatterStrategy, mapping: serde_yaml::Mapping) -> (kept:
    Option<serde_yaml::Mapping>)
    ensures
        kept is Some <==> keeps_frontmatter(strategy, mapping_entries(mapping).len()),
        kept is Some ==> kept->0 == mapping,
{
    let keep = match strategy {
        FrontmatterStrategy::Always => true,
        FrontmatterStrategy::Never => false,
        FrontmatterStrategy::Auto => !mapping_is_empty(&mapping),
    };
    if keep {
        Some(mapping)
    } else {
        None
    }
}

/// The strategy named by `input`, as it is written on a command line.
pub open spec fn strategy_named(input: Seq<char>) -> Option<FrontmatterStrategy> {
    if input == "auto"@ {
        Some(FrontmatterStrategy::Auto)
    } else if input == "always"@ {
        Some(FrontmatterStrategy::Always)
    } else if input == "never"@ {
        Some(FrontmatterStrategy::Never)
    } else {
        None
    }
}

/// The name given for a strategy is none of `always`, `never`, `auto`.
#[derive(Clone, Copy, Debug, PartialEq, Eq, Structural)]
pub struct UnknownStrategy;

impl UnknownStrategy {
    /// The message shown for this error.
    pub fn message(&self) -> (message: String)
        ensures
            message@ == "must be one of: always, never, auto"@,
    {
        "must be one of: always, never, auto".to_owned()
    }
}

/// Reads a strategy from its name: `auto`, `always` or `never`, and nothing
/// else.
pub fn frontmatter_strategy_from_str(input: &str) -> (r: Result<FrontmatterStrategy, UnknownStrategy>)
    ensures
        match strategy_named(input@) {
            Some(strategy) => r == Ok::<FrontmatterStrategy, UnknownStrategy>(strategy),
            None => r is Err,
        },
{
    let given = input.to_owned();
    if given == "auto".to_owned() {
        Ok(FrontmatterStrategy::Auto)
    } else if given == "always".to_owned() {
        Ok(FrontmatterStrategy::Always)
    } else if given == "never".to_owned() {
        Ok(FrontmatterStrategy::Never)
    } else {
        Err(UnknownStrategy)
    }
}

/// What `split_frontmatter` owes for the raw text `raw`.
pub open spec fn split_result(
    raw: Seq<char>,
    r: Result<(serde_yaml::Mapping, String), ParseError>,
) -> bool {
    match split_text(raw) {
        SplitView::Plain => r matches Ok((mapping, body)) && mapping_entries(mapping).len() == 0
            && body@ == raw,
        SplitView::Unclosed => r matches Err(ParseError::UnclosedFrontmatter),
        SplitView::Block { yaml, body: rest } => if yaml.len() == 0 {
            r matches Ok((mapping, body)) && mapping_entries(mapping).len() == 0 && body@ == rest
        } else {
            match yaml_mapping(yaml) {
                Some(entries) => r matches Ok((mapping, body)) && mapping_entries(mapping)
                    == entries && body@ == rest,
                None => r matches Err(ParseError::InvalidFrontmatter(_)),
            }
        },
    }
}

/// Splits the raw text of a note into its frontmatter and its body. A note
/// without a frontmatter block has an empty mapping and is all body. Fails
/// where a block is opened and not closed, and where the block is not a YAML
/// mapping.
pub fn split_frontmatter(raw: &str) -> (r: Result<(serde_yaml::Mapping, String), ParseError>)
    ensures
        split_result(raw@, r),
{
    let chars = chars_of(raw);
    let opened = match delimiter_end_at(&chars, 0) {
        None => {
            return Ok((new_mapping(), raw.to_owned()));
        },
        Some(opened) => opened,
    };
    let (closing, body_start) = match find_closing_line(&chars, opened) {
        None => {
            return Err(ParseError::UnclosedFrontmatter);
        },
        Some(found) => found,
    };
    let body = string_of_range(&chars, body_start, chars.len());
    assert(chars@.subrange(body_start as int, chars.len() as int) =~= chars@.skip(
        body_start as int,
    ));
    if closing == opened {
        return Ok((new_mapping(), body));
    }
    let yaml = string_of_range(&chars, opened, closing);
    match read_mapping(yaml.as_str()) {
        Ok(mapping) => Ok((mapping, body)),
        Err(error) => Err(ParseError::InvalidFrontmatter(yaml_error_message(&error))),
    }
}

} // verus!
