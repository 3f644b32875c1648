use vstd::prelude::*;
use crate::events::{Kind, Token};

verus! {

// ---------------------------------------------------------------------------
// Style state
//
// A small flag set records the formatting that is open at each point of the
// streaming pass: the three inline styles, the two block contexts, and the
// current list nesting depth.
// ---------------------------------------------------------------------------

/// The formatting state of the streaming pass.
#[derive(Clone, Copy, Debug, PartialEq, Eq, Structural)]
pub struct StyleState {
    pub bold: bool,
    pub italic: bool,
    pub strikethrough: bool,
    pub in_code_block: bool,
    pub in_block_quote: bool,
    pub list_depth: usize,
}

/// The state before any event: no style open, no block context, depth zero.
pub open spec fn initial_style() -> StyleState {
    StyleState {
        bold: false,
        italic: false,
        strikethrough: false,
        in_code_block: false,
        in_block_quote: false,
        list_depth: 0,
    }
}

/// Executable mirror of `initial_style`.
pub fn initial_style_exec() -> (r: StyleState)
    ensures
        r == initial_style(),
{
    StyleState {
        bold: false,
        italic: false,
        strikethrough: false,
        in_code_block: false,
        in_block_quote: false,
        list_depth: 0,
    }
}

/// One more level of list nesting; the depth saturates rather than wraps.
pub open spec fn depth_up(d: usize) -> usize {
    if d < usize::MAX {
        (d + 1) as usize
    } else {
        d
    }
}

/// One level of list nesting closed; never below zero.
pub open spec fn depth_down(d: usize) -> usize {
    if d > 0 {
        (d - 1) as usize
    } else {
        0
    }
}

/// How one event changes the formatting state.  Inline styles and block
/// contexts are set by their start events and cleared by their end events;
/// lists move the nesting depth; all other events leave the state unchanged.
pub open spec fn style_step(st: StyleState, e: Token) -> StyleState {
    match e {
        Token::BlockStart(k) => match k {
            Kind::Emphasis => StyleState { italic: true, ..st },
            Kind::Strong => StyleState { bold: true, ..st },
            Kind::Strikethrough => StyleState { strikethrough: true, ..st },
            Kind::List(_) => StyleState { list_depth: depth_up(st.list_depth), ..st },
            Kind::BlockQuote => StyleState { in_block_quote: true, ..st },
            Kind::CodeBlock(_) => StyleState { in_code_block: true, ..st },
            _ => st,
        },
        Token::BlockEnd(k) => match k {
            Kind::Emphasis => StyleState { italic: false, ..st },
            Kind::Strong => StyleState { bold: false, ..st },
            Kind::Strikethrough => StyleState { strikethrough: false, ..st },
            Kind::List(_) => StyleState { list_depth: depth_down(st.list_depth), ..st },
            Kind::BlockQuote => StyleState { in_block_quote: false, ..st },
            Kind::CodeBlock(_) => StyleState { in_code_block: false, ..st },
            _ => st,
        },
        _ => st,
    }
}

/// Executable mirror of `style_step`.
pub fn style_step_exec(st: &StyleState, e: &Token) -> (r: StyleState)
    ensures
        r == style_step(*st, *e),
{
    let mut r = *st;
    match e {
        Token::BlockStart(k) => match k {
            Kind::Emphasis => {
                r.italic = true;
            },
            Kind::Strong => {
                r.bold = true;
            },
            Kind::Strikethrough => {
                r.strikethrough = true;
            },
            Kind::List(_) => {
                if r.list_depth < usize::MAX {
                    r.list_depth = r.list_depth + 1;
                }
            },
            Kind::BlockQuote => {
                r.in_block_quote = true;
            },
            Kind::CodeBlock(_) => {
                r.in_code_block = true;
            },
            _ => {},
        },
        Token::BlockEnd(k) => match k {
            Kind::Emphasis => {
                r.italic = false;
            },
            Kind::Strong => {
                r.bold = false;
            },
            Kind::Strikethrough => {
                r.strikethrough = false;
            },
            Kind::List(_) => {
                if r.list_depth > 0 {
                    r.list_depth = r.list_depth - 1;
                }
            },
            Kind::BlockQuote => {
                r.in_block_quote = false;
            },
            Kind::CodeBlock(_) => {
                r.in_code_block = false;
            },
            _ => {},
        },
        _ => {},
    }
    r
}

/// Closing a list restores the depth that opening it found, and the depth
/// never goes below zero.
pub proof fn lemma_list_depth_round_trip(st: StyleState, ordered: bool)
    ensures
        st.list_depth < usize::MAX ==> style_step(
            style_step(st, Token::BlockStart(Kind::List(ordered))),
            Token::BlockEnd(Kind::List(ordered)),
        ).list_depth == st.list_depth,
        style_step(st, Token::BlockEnd(Kind::List(ordered))).list_depth >= 0,
{
}

} // verus!
