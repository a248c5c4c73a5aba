//! The block structure of a Markdown text: paragraphs, headings, list items and code blocks,
//! in document order, with the text each of them shows.
use vstd::prelude::*;
use crate::strings::{push_str, string_from_chars, trim, trimmed};
use pulldown_cmark::{Event, TagEnd};

verus! {

/// The kind of a block tag of a Markdown event.
#[derive(Clone, Copy, PartialEq, Eq, Debug, Structural)]
pub enum MdTag {
    Paragraph,
    /// A heading, with its level (1 to 6).
    Heading(u8),
    List,
    Item,
    CodeBlock,
    /// Any other tag (emphasis, links, tables, ...).
    Other,
}

/// A Markdown parser event, as far as the block structure needs it.
pub enum MdEvent {
    Start(MdTag),
    End(MdTag),
    Text(String),
    Code(String),
    SoftBreak,
    HardBreak,
    /// Any other event (HTML, rules, footnote references, ...).
    Other,
}

/// Abstract view of a parser event.
pub enum MdEventView {
    Start(MdTag),
    End(MdTag),
    Text(Seq<char>),
    Code(Seq<char>),
    SoftBreak,
    HardBreak,
    Other,
}

/// Abstract view of an event.
pub open spec fn event_view(e: MdEvent) -> MdEventView {
    match e {
        MdEvent::Start(t) => MdEventView::Start(t),
        MdEvent::End(t) => MdEventView::End(t),
        MdEvent::Text(s) => MdEventView::Text(s@),
        MdEvent::Code(s) => MdEventView::Code(s@),
        MdEvent::SoftBreak => MdEventView::SoftBreak,
        MdEvent::HardBreak => MdEventView::HardBreak,
        MdEvent::Other => MdEventView::Other,
    }
}

/// Abstract views of a list of events.
pub open spec fn events_view(v: Seq<MdEvent>) -> Seq<MdEventView> {
    v.map_values(|e: MdEvent| event_view(e))
}

/// The events that `pulldown_cmark::Parser` produces for `md`, in order, with each tag
/// reduced to its kind.
pub uninterp spec fn markdown_parse(md: Seq<char>) -> Seq<MdEventView>;

/// Runs the Markdown parser (`pulldown_cmark::Parser::new`) over `md` and converts each event
/// one for one: start and end tags by their kind (`Tag::to_end` for start tags), text and
/// inline code with their text, soft and hard breaks, everything else as `Other`.
#[verifier::external_body]
fn markdown_events(md: &str) -> (r: Vec<MdEvent>)
    ensures
        events_view(r@) == markdown_parse(md@),
{
    let kind = |t: TagEnd| match t {
        TagEnd::Paragraph => MdTag::Paragraph, TagEnd::Heading(l) => MdTag::Heading(l as u8),
        TagEnd::List(_) => MdTag::List, TagEnd::Item => MdTag::Item,
        TagEnd::CodeBlock => MdTag::CodeBlock, _ => MdTag::Other,
    };
    pulldown_cmark::Parser::new(md).map(|e| match e {
        Event::Start(t) => MdEvent::Start(kind(t.to_end())), Event::End(t) => MdEvent::End(kind(t)),
        Event::Text(s) => MdEvent::Text(s.to_string()), Event::Code(s) => MdEvent::Code(s.to_string()),
        Event::SoftBreak => MdEvent::SoftBreak, Event::HardBreak => MdEvent::HardBreak,
        _ => MdEvent::Other,
    }).collect()
}

/// The kind of a rendered block.
#[derive(Clone, Copy, PartialEq, Eq, Debug, Structural)]
pub enum MdBlockKind {
    Paragraph,
    /// A heading, with its level (1 when the parser gave none).
    Heading(u8),
    /// A list item; its text starts with "- ".
    Item,
    CodeBlock,
}

/// A block to render: its kind and its text.
pub struct MdBlock {
    pub kind: MdBlockKind,
    pub text: String,
}

/// Abstract view of the blocks.
pub open spec fn blocks_view(v: Seq<MdBlock>) -> Seq<(MdBlockKind, Seq<char>)> {
    v.map_values(|b: MdBlock| (b.kind, b.text@))
}

/// State while walking the events: the text gathered since the last block start, whether a
/// list is open, the level of the open heading, and the blocks so far.
pub struct MdState {
    pub text: Seq<char>,
    pub in_list: bool,
    pub level: Option<u8>,
    pub blocks: Seq<(MdBlockKind, Seq<char>)>,
}

/// One event's effect: block starts (paragraph, heading, item, code block) clear the text, a
/// heading start records its level, a list start and end open and close the list; text and
/// inline code are appended, a break adds a space. A paragraph end emits the text when it is
/// not empty and no list is open; a heading end emits a heading of the recorded level (1
/// when none) and forgets it; an item end emits "- " and the trimmed text; a code block end
/// emits the text.
pub open spec fn md_step(s: MdState, e: MdEventView) -> MdState {
    match e {
        MdEventView::Start(MdTag::Paragraph) => MdState { text: Seq::empty(), ..s },
        MdEventView::Start(MdTag::Heading(l)) => MdState { text: Seq::empty(), level: Some(l), ..s },
        MdEventView::Start(MdTag::List) => MdState { in_list: true, ..s },
        MdEventView::Start(MdTag::Item) => MdState { text: Seq::empty(), ..s },
        MdEventView::Start(MdTag::CodeBlock) => MdState { text: Seq::empty(), ..s },
        MdEventView::Text(t) => MdState { text: s.text + t, ..s },
        MdEventView::Code(t) => MdState { text: s.text + t, ..s },
        MdEventView::SoftBreak => MdState { text: s.text.push(' '), ..s },
        MdEventView::HardBreak => MdState { text: s.text.push(' '), ..s },
        MdEventView::End(MdTag::Paragraph) => if s.text.len() > 0 && !s.in_list {
            MdState { blocks: s.blocks.push((MdBlockKind::Paragraph, s.text)), ..s }
        } else {
            s
        },
        MdEventView::End(MdTag::Heading(_)) => MdState {
            blocks: s.blocks.push((MdBlockKind::Heading(match s.level { Some(l) => l, None => 1 }), s.text)),
            level: None,
            ..s
        },
        MdEventView::End(MdTag::Item) => MdState {
            blocks: s.blocks.push((MdBlockKind::Item, "- "@ + trimmed(s.text))),
            ..s
        },
        MdEventView::End(MdTag::List) => MdState { in_list: false, ..s },
        MdEventView::End(MdTag::CodeBlock) => MdState {
            blocks: s.blocks.push((MdBlockKind::CodeBlock, s.text)),
            ..s
        },
        _ => s,
    }
}

/// The state after walking `events` from the start (no text, no list, no heading, no blocks).
pub open spec fn md_walk(events: Seq<MdEventView>) -> MdState
    decreases events.len(),
{
    if events.len() == 0 {
        MdState { text: Seq::empty(), in_list: false, level: None, blocks: Seq::empty() }
    } else {
        md_step(md_walk(events.drop_last()), events.last())
    }
}

/// Whether every list opened in `events` has been closed again: the last list event, if
/// there is one, is a list end.
pub open spec fn lists_closed(events: Seq<MdEventView>) -> bool
    decreases events.len(),
{
    if events.len() == 0 {
        true
    } else {
        match events.last() {
            MdEventView::Start(MdTag::List) => false,
            MdEventView::End(MdTag::List) => true,
            _ => lists_closed(events.drop_last()),
        }
    }
}

/// An inline event: text, inline code or a line break.
pub open spec fn is_inline(e: MdEventView) -> bool {
    e is Text || e is Code || e is SoftBreak || e is HardBreak
}

/// The text that inline events spell: text and code as they are, a break as a space.
pub open spec fn inline_text(body: Seq<MdEventView>) -> Seq<char>
    decreases body.len(),
{
    if body.len() == 0 {
        Seq::empty()
    } else {
        inline_text(body.drop_last()) + match body.last() {
            MdEventView::Text(t) => t,
            MdEventView::Code(t) => t,
            _ => seq![' '],
        }
    }
}

proof fn lemma_walk_push(a: Seq<MdEventView>, e: MdEventView)
    ensures
        md_walk(a.push(e)) == md_step(md_walk(a), e),
{
    assert(a.push(e).drop_last() =~= a);
}

proof fn lemma_closed_not_in_list(events: Seq<MdEventView>)
    requires
        lists_closed(events),
    ensures
        !md_walk(events).in_list,
    decreases events.len(),
{
    if events.len() > 0 {
        match events.last() {
            MdEventView::End(MdTag::List) => {},
            _ => {
                lemma_closed_not_in_list(events.drop_last());
            },
        }
    }
}

proof fn lemma_walk_inline(q: Seq<MdEventView>, body: Seq<MdEventView>)
    requires
        forall|i: int| 0 <= i < body.len() ==> is_inline(#[trigger] body[i]),
    ensures
        md_walk(q + body) == (MdState { text: md_walk(q).text + inline_text(body), ..md_walk(q) }),
    decreases body.len(),
{
    if body.len() == 0 {
        assert(q + body =~= q);
        assert(md_walk(q).text + inline_text(body) =~= md_walk(q).text);
    } else {
        let b = body.drop_last();
        lemma_walk_inline(q, b);
        assert(q + body =~= (q + b).push(body.last()));
        lemma_walk_push(q + b, body.last());
        assert(is_inline(body[body.len() - 1]));
        let w = md_walk(q);
        match body.last() {
            MdEventView::Text(t) => {
                assert(w.text + inline_text(b) + t =~= w.text + inline_text(body));
            },
            MdEventView::Code(t) => {
                assert(w.text + inline_text(b) + t =~= w.text + inline_text(body));
            },
            _ => {
                assert((w.text + inline_text(b)).push(' ') =~= w.text + inline_text(body));
            },
        }
    }
}

proof fn lemma_open_in_list(events: Seq<MdEventView>)
    requires
        !lists_closed(events),
    ensures
        md_walk(events).in_list,
    decreases events.len(),
{
    if events.len() > 0 {
        match events.last() {
            MdEventView::Start(MdTag::List) => {},
            _ => {
                lemma_open_in_list(events.drop_last());
            },
        }
    }
}

/// A paragraph inside a list gives no block of its own (list items carry the text): after
/// events that leave a list open, a paragraph of inline events leaves the blocks unchanged.
pub proof fn paragraph_inside_list_is_not_a_block(pre: Seq<MdEventView>, body: Seq<MdEventView>)
    requires
        !lists_closed(pre),
        forall|i: int| 0 <= i < body.len() ==> is_inline(#[trigger] body[i]),
    ensures
        md_walk(pre.push(MdEventView::Start(MdTag::Paragraph)) + body + seq![MdEventView::End(MdTag::Paragraph)]).blocks
            == md_walk(pre).blocks,
{
    lemma_open_in_list(pre);
    let q = pre.push(MdEventView::Start(MdTag::Paragraph));
    lemma_walk_push(pre, MdEventView::Start(MdTag::Paragraph));
    lemma_walk_inline(q, body);
    assert(q + body + seq![MdEventView::End(MdTag::Paragraph)] =~= (q + body).push(MdEventView::End(MdTag::Paragraph)));
    lemma_walk_push(q + body, MdEventView::End(MdTag::Paragraph));
}

/// A paragraph outside every list is kept: after events in which every list opened has been
/// closed, a paragraph of inline events with some text adds exactly one paragraph block, with
/// that text, to the blocks so far.
pub proof fn paragraph_outside_lists_is_kept(pre: Seq<MdEventView>, body: Seq<MdEventView>)
    requires
        lists_closed(pre),
        forall|i: int| 0 <= i < body.len() ==> is_inline(#[trigger] body[i]),
        inline_text(body).len() > 0,
    ensures
        md_walk(pre.push(MdEventView::Start(MdTag::Paragraph)) + body + seq![MdEventView::End(MdTag::Paragraph)]).blocks
            == md_walk(pre).blocks.push((MdBlockKind::Paragraph, inline_text(body))),
{
    lemma_closed_not_in_list(pre);
    let q = pre.push(MdEventView::Start(MdTag::Paragraph));
    lemma_walk_push(pre, MdEventView::Start(MdTag::Paragraph));
    lemma_walk_inline(q, body);
    assert(md_walk(q).text + inline_text(body) =~= inline_text(body));
    assert(q + body + seq![MdEventView::End(MdTag::Paragraph)] =~= (q + body).push(MdEventView::End(MdTag::Paragraph)));
    lemma_walk_push(q + body, MdEventView::End(MdTag::Paragraph));
}

/// The blocks of a Markdown text, in document order.
pub open spec fn md_blocks(md: Seq<char>) -> Seq<(MdBlockKind, Seq<char>)> {
    md_walk(markdown_parse(md)).blocks
}

fn string_of(v: &Vec<char>) -> (r: String)
    ensures
        r@ == v@,
{
    string_from_chars(v.as_slice())
}

/// The blocks that the events describe, in order.
pub fn markdown_blocks(events: &[MdEvent]) -> (r: Vec<MdBlock>)
    ensures
        blocks_view(r@) == md_walk(events_view(events@)).blocks,
{
    let mut text: Vec<char> = Vec::new();
    let mut in_list = false;
    let mut level: Option<u8> = None;
    let mut blocks: Vec<MdBlock> = Vec::new();
    let mut k: usize = 0;
    assert(events_view(events@.subrange(0, 0)) =~= Seq::<MdEventView>::empty());
    assert(blocks_view(blocks@) =~= Seq::<(MdBlockKind, Seq<char>)>::empty());
    assert(text@ =~= Seq::<char>::empty());
    while k < events.len()
        invariant
            k <= events@.len(),
            md_walk(events_view(events@.subrange(0, k as int))) == (MdState {
                text: text@,
                in_list,
                level,
                blocks: blocks_view(blocks@),
            }),
        decreases events@.len() - k,
    {
        let ghost s0 = md_walk(events_view(events@.subrange(0, k as int)));
        let ghost before = blocks@;
        proof {
            assert(events_view(events@.subrange(0, k + 1)).drop_last() =~= events_view(events@.subrange(0, k as int)));
            assert(events_view(events@.subrange(0, k + 1)).last() == event_view(events@[k as int]));
        }
        match &events[k] {
            MdEvent::Start(t) => match t {
                MdTag::Heading(l) => {
                    text = Vec::new();
                    level = Some(*l);
                },
                MdTag::List => {
                    in_list = true;
                },
                MdTag::Other => {},
                _ => {
                    text = Vec::new();
                },
            },
            MdEvent::Text(t) => {
                let ghost t0 = text@;
                let cs = crate::strings::chars_of(t.as_str());
                let mut i: usize = 0;
                while i < cs.len()
                    invariant
                        i <= cs@.len(),
                        text@ == t0 + cs@.subrange(0, i as int),
                    decreases cs@.len() - i,
                {
                    text.push(cs[i]);
                    i = i + 1;
                    assert(text@ =~= t0 + cs@.subrange(0, i as int));
                }
                assert(cs@.subrange(0, cs@.len() as int) == cs@);
            },
            MdEvent::Code(t) => {
                let ghost t0 = text@;
                let cs = crate::strings::chars_of(t.as_str());
                let mut i: usize = 0;
                while i < cs.len()
                    invariant
                        i <= cs@.len(),
                        text@ == t0 + cs@.subrange(0, i as int),
                    decreases cs@.len() - i,
                {
                    text.push(cs[i]);
                    i = i + 1;
                    assert(text@ =~= t0 + cs@.subrange(0, i as int));
                }
                assert(cs@.subrange(0, cs@.len() as int) == cs@);
            },
            MdEvent::SoftBreak => {
                text.push(' ');
            },
            MdEvent::HardBreak => {
                text.push(' ');
            },
            MdEvent::End(t) => match t {
                MdTag::Paragraph => {
                    if text.len() > 0 && !in_list {
                        blocks.push(MdBlock { kind: MdBlockKind::Paragraph, text: string_of(&text) });
                        assert(blocks_view(blocks@) =~= blocks_view(before).push((MdBlockKind::Paragraph, text@)));
                    }
                },
                MdTag::Heading(_) => {
                    let l = match level {
                        Some(l) => l,
                        None => 1,
                    };
                    blocks.push(MdBlock { kind: MdBlockKind::Heading(l), text: string_of(&text) });
                    assert(blocks_view(blocks@) =~= blocks_view(before).push((MdBlockKind::Heading(l), text@)));
                    level = None;
                },
                MdTag::Item => {
                    let body = string_of(&text);
                    let trimmed_text = trim(body.as_str());
                    let mut item = String::new();
                    push_str(&mut item, "- ");
                    let rest = string_from_chars(trimmed_text.as_slice());
                    push_str(&mut item, rest.as_str());
                    blocks.push(MdBlock { kind: MdBlockKind::Item, text: item });
                    assert(blocks_view(blocks@) =~= blocks_view(before).push((MdBlockKind::Item, "- "@ + trimmed(text@))));
                },
                MdTag::List => {
                    in_list = false;
                },
                MdTag::CodeBlock => {
                    blocks.push(MdBlock { kind: MdBlockKind::CodeBlock, text: string_of(&text) });
                    assert(blocks_view(blocks@) =~= blocks_view(before).push((MdBlockKind::CodeBlock, text@)));
                },
                MdTag::Other => {},
            },
            MdEvent::Other => {},
        }
        k = k + 1;
        proof {
            assert(md_walk(events_view(events@.subrange(0, k as int))) == md_step(s0, event_view(events@[k - 1])));
        }
    }
    assert(events@.subrange(0, events@.len() as int) =~= events@);
    blocks
}

/// The blocks of a Markdown text, in document order: paragraphs outside lists, headings with
/// their level, list items as "- " and their trimmed text, and code blocks.
pub fn markdown_layout(md: &str) -> (r: Vec<MdBlock>)
    ensures
        blocks_view(r@) == md_blocks(md@),
{
    let events = markdown_events(md);
    markdown_blocks(events.as_slice())
}

} // verus!
