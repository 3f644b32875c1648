use vstd::prelude::*;

verus! {

// ---------------------------------------------------------------------------
// The event stream
//
// The tokenizer turns markup text into an ordered sequence of structural
// events; the renderer and the outline emitter consume that sequence.  The
// tokenizer itself is an outside collaborator: the engine does not parse
// markup.
// ---------------------------------------------------------------------------

/// The kind of a block or inline construct.
#[derive(Clone, Debug)]
pub enum Kind {
    Paragraph,
    /// Heading level, 1 through 6.
    Heading(u8),
    /// A list; the flag says whether it is ordered.
    List(bool),
    ListItem,
    BlockQuote,
    /// A fenced code block carries its language tag, if any.
    CodeBlock(Option<String>),
    Emphasis,
    Strong,
    Strikethrough,
    /// A hyperlink carries its destination.
    Link(String),
}

/// One structural event of the token stream.
#[derive(Clone, Debug)]
pub enum Token {
    BlockStart(Kind),
    BlockEnd(Kind),
    /// A run of plain text.
    Text(String),
    /// An inline code span.
    CodeSpan(String),
    SoftBreak,
    HardBreak,
}

/// Every heading level in the stream lies between 1 and 6, as the markup
/// dialect defines it.
pub open spec fn wf_event(e: Token) -> bool {
    match e {
        Token::BlockStart(Kind::Heading(l)) => 1 <= l <= 6,
        Token::BlockEnd(Kind::Heading(l)) => 1 <= l <= 6,
        _ => true,
    }
}

pub open spec fn wf_events(events: Seq<Token>) -> bool {
    forall|i: int| 0 <= i < events.len() ==> wf_event(events[i])
}

/// The event sequence that the tokenizer produces for a markup text.  The
/// stream is a function of the text alone.
pub uninterp spec fn events_of(s: Seq<char>) -> Seq<Token>;

#[verifier::external_type_specification]
#[verifier::external_body]
pub struct ExPulldownEvent<'a>(pulldown_cmark::Event<'a>);

#[verifier::external_type_specification]
#[verifier::external_body]
pub struct ExPulldownTag<'a>(pulldown_cmark::Tag<'a>);

#[verifier::external_type_specification]
#[verifier::external_body]
pub struct ExPulldownTagEnd(pulldown_cmark::TagEnd);

#[verifier::external_type_specification]
#[verifier::external_body]
pub struct ExPulldownCodeBlockKind<'a>(pulldown_cmark::CodeBlockKind<'a>);

/// Conversion helper for `tokenize`: the language tag of a code block.
#[verifier::external_body]
fn conv_code_block_kind(k: pulldown_cmark::CodeBlockKind<'_>) -> Option<String> {
    match k {
        pulldown_cmark::CodeBlockKind::Fenced(lang) => Some(lang.to_string()),
        pulldown_cmark::CodeBlockKind::Indented => None,
    }
}

/// Conversion helper for `tokenize`: an opening tag, variant for variant.
#[verifier::external_body]
fn conv_tag(t: pulldown_cmark::Tag<'_>) -> Option<Kind> {
    match t {
        pulldown_cmark::Tag::Paragraph => Some(Kind::Paragraph),
        pulldown_cmark::Tag::Heading { level, .. } => Some(Kind::Heading(level as u8)),
        pulldown_cmark::Tag::List(first) => Some(Kind::List(first.is_some())),
        pulldown_cmark::Tag::Item => Some(Kind::ListItem),
        pulldown_cmark::Tag::BlockQuote(_) => Some(Kind::BlockQuote),
        pulldown_cmark::Tag::CodeBlock(k) => Some(Kind::CodeBlock(conv_code_block_kind(k))),
        pulldown_cmark::Tag::Emphasis => Some(Kind::Emphasis),
        pulldown_cmark::Tag::Strong => Some(Kind::Strong),
        pulldown_cmark::Tag::Strikethrough => Some(Kind::Strikethrough),
        pulldown_cmark::Tag::Link { dest_url, .. } => Some(Kind::Link(dest_url.to_string())),
        _ => None,
    }
}

/// Conversion helper for `tokenize`: a closing tag, variant for variant.
#[verifier::external_body]
fn conv_tag_end(t: pulldown_cmark::TagEnd) -> Option<Kind> {
    match t {
        pulldown_cmark::TagEnd::Paragraph => Some(Kind::Paragraph),
        pulldown_cmark::TagEnd::Heading(level) => Some(Kind::Heading(level as u8)),
        pulldown_cmark::TagEnd::List(ordered) => Some(Kind::List(ordered)),
        pulldown_cmark::TagEnd::Item => Some(Kind::ListItem),
        pulldown_cmark::TagEnd::BlockQuote(_) => Some(Kind::BlockQuote),
        pulldown_cmark::TagEnd::CodeBlock => Some(Kind::CodeBlock(None)),
        pulldown_cmark::TagEnd::Emphasis => Some(Kind::Emphasis),
        pulldown_cmark::TagEnd::Strong => Some(Kind::Strong),
        pulldown_cmark::TagEnd::Strikethrough => Some(Kind::Strikethrough),
        pulldown_cmark::TagEnd::Link => Some(Kind::Link(String::new())),
        _ => None,
    }
}

/// Conversion helper for `tokenize`: one event, variant for variant.  Event
/// kinds that the engine does not handle are dropped here, as the renderer
/// would ignore them anyway.
#[verifier::external_body]
fn conv_event(e: pulldown_cmark::Event<'_>) -> Option<Token> {
    match e {
        pulldown_cmark::Event::Start(t) => conv_tag(t).map(Token::BlockStart),
        pulldown_cmark::Event::End(t) => conv_tag_end(t).map(Token::BlockEnd),
        pulldown_cmark::Event::Text(s) => Some(Token::Text(s.to_string())),
        pulldown_cmark::Event::Code(s) => Some(Token::CodeSpan(s.to_string())),
        pulldown_cmark::Event::SoftBreak => Some(Token::SoftBreak),
        pulldown_cmark::Event::HardBreak => Some(Token::HardBreak),
        _ => None,
    }
}

/// Relies on pulldown_cmark::Parser::new_ext (with strikethrough enabled):
/// tokenizes markup text into the event stream.  The stream depends on the
/// text alone; heading levels come from an enumeration of the values 1
/// through 6.
#[verifier::external_body]
pub fn tokenize(content: &str) -> (r: Vec<Token>)
    ensures
        r@ == events_of(content@),
        wf_events(r@),
{
    let mut options = pulldown_cmark::Options::empty();
    options.insert(pulldown_cmark::Options::ENABLE_STRIKETHROUGH);
    pulldown_cmark::Parser::new_ext(content, options).filter_map(conv_event).collect()
}

} // verus!
