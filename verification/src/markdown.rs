//! The markdown events that books are read from, as pulldown-cmark's parser
//! produces them.
use vstd::prelude::*;
use pulldown_cmark::{DefaultBrokenLinkCallback, Options, Parser, TagEnd};
use pulldown_cmark::Event::{Code, End, HardBreak, Html, InlineHtml, SoftBreak, Start, Text};
use pulldown_cmark::Tag::{CodeBlock, Heading, Paragraph};

verus! {

/// A markdown event, one variant for each kind of event that the reading of a
/// book looks at.
#[derive(Debug)]
pub enum MdEvent {
    /// The start of a heading of the given level (1 to 6).
    HeadingStart(u8),
    /// The end of a heading.
    HeadingEnd,
    /// The start of a paragraph.
    ParagraphStart,
    /// The start of a code block.
    CodeBlockStart,
    /// The end of a paragraph.
    ParagraphEnd,
    /// The end of a code block.
    CodeBlockEnd,
    /// Text.
    Text(String),
    /// Inline code (without its backticks).
    Code(String),
    /// Block HTML.
    Html(String),
    /// Inline HTML.
    InlineHtml(String),
    /// A soft line break.
    SoftBreak,
    /// A hard line break.
    HardBreak,
    /// Any other event.
    Other,
}

#[verifier::external_type_specification]
#[verifier::external_body]
#[verifier::reject_recursive_types(F)]
pub struct ExParser<'input, F>(Parser<'input, F>);

#[verifier::external_type_specification]
#[verifier::external_body]
pub struct ExDefaultBrokenLinkCallback(DefaultBrokenLinkCallback);

/// The events of the markdown text `md`, read with the strikethrough extension,
/// in the order in which pulldown-cmark's parser yields them.
pub uninterp spec fn markdown_events(md: Seq<char>) -> Seq<MdEvent>;

/// The events that the parser has yet to yield.
pub uninterp spec fn events_left(parser: Parser) -> Seq<MdEvent>;

/// `Parser::new_ext` with `Options::ENABLE_STRIKETHROUGH` (the options
/// `Options::empty()` with strikethrough inserted): a parser that yields the
/// events of `md`.
#[verifier::external_body]
fn markdown_parser<'a>(md: &'a str) -> (parser: Parser<'a>)
    ensures
        events_left(parser) == markdown_events(md@),
{
    Parser::new_ext(md, Options::ENABLE_STRIKETHROUGH)
}

/// `Iterator::next` of pulldown-cmark's `Parser`: the next event, and `None`
/// once all have been yielded (the parser is a `FusedIterator`).
#[verifier::external_body]
fn next_event(parser: &mut Parser<'_>) -> (event: Option<MdEvent>)
    ensures
        events_left(*old(parser)).len() == 0 ==> event is None && events_left(*final(parser))
            == events_left(*old(parser)),
        events_left(*old(parser)).len() > 0 ==> event == Some(events_left(*old(parser))[0])
            && events_left(*final(parser)) == events_left(*old(parser)).drop_first(),
{
    Some(match parser.next()? {
        Start(Heading { level, .. }) => MdEvent::HeadingStart(level as u8),
        End(TagEnd::Heading(_)) => MdEvent::HeadingEnd,
        Start(Paragraph) => MdEvent::ParagraphStart,
        Start(CodeBlock(_)) => MdEvent::CodeBlockStart,
        End(TagEnd::Paragraph) => MdEvent::ParagraphEnd,
        End(TagEnd::CodeBlock) => MdEvent::CodeBlockEnd,
        Text(t) => MdEvent::Text(t.into_string()),
        Code(t) => MdEvent::Code(t.into_string()),
        Html(t) => MdEvent::Html(t.into_string()),
        InlineHtml(t) => MdEvent::InlineHtml(t.into_string()),
        SoftBreak => MdEvent::SoftBreak,
        HardBreak => MdEvent::HardBreak,
        _ => MdEvent::Other,
    })
}

/// All the events of the markdown text `md`, in order.
pub fn read_markdown_events(md: &str) -> (events: Vec<MdEvent>)
    ensures
        events@ == markdown_events(md@),
{
    let mut parser = markdown_parser(md);
    let mut events: Vec<MdEvent> = Vec::new();
    loop
        invariant
            events@ + events_left(parser) == markdown_events(md@),
        decreases events_left(parser).len(),
    {
        match next_event(&mut parser) {
            Some(e) => {
                events.push(e);
                assert(events@ + events_left(parser) =~= markdown_events(md@));
            },
            None => {
                assert(events@ =~= markdown_events(md@));
                return events;
            },
        }
    }
}

} // verus!
