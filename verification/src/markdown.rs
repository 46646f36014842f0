//! Markdown-aware scanning: prose blocks extracted from the parser's events
//! (code, link targets and markup dropped), then scanned like prose, with
//! headings kept out of the paragraph and run equations.
use vstd::prelude::*;
use crate::ext::{markdown_events, spec_markdown_events};
use crate::lexical::{lexical, spec_lexical};
use crate::runs::{run_tells, spec_run_tells};
use crate::scan::{all_metas, all_sentence_tells, scan_sentence_range};
use crate::sentence::{meta_views, sentences, spec_sentences};
use crate::shape::{bold_tells, punchy_tells, push_shape_tells};
use crate::lexical::lemma_lexical_positive;
use crate::scan::lemma_all_sentence_tells_positive;
use crate::tell::{all_positive, lemma_positive_concat, tell_views, Tell, TellView};
use crate::text::{lemma_non_blank_append, lemma_trim_nonempty, non_blank, push_chars, push_lit, trim, trim_chars, views};

verus! {

/// The tags whose starts and ends the block extraction reads.
#[derive(Clone, Copy, PartialEq, Eq, Debug, Structural)]
pub enum MdTag {
    CodeBlock,
    BlockQuote,
    Image,
    Heading,
    Item,
    Paragraph,
    Strong,
    Other,
}

/// A markdown parser event, reduced to what the block extraction reads.
pub enum MdEvent {
    Start(MdTag),
    End(MdTag),
    Text(Vec<char>),
    Break,
    Other,
}

pub enum MdEventView {
    Start(MdTag),
    End(MdTag),
    Text(Seq<char>),
    Break,
    Other,
}

impl View for MdEvent {
    type V = MdEventView;

    open spec fn view(&self) -> MdEventView {
        match self {
            MdEvent::Start(t) => MdEventView::Start(*t),
            MdEvent::End(t) => MdEventView::End(*t),
            MdEvent::Text(s) => MdEventView::Text(s@),
            MdEvent::Break => MdEventView::Break,
            MdEvent::Other => MdEventView::Other,
        }
    }
}

/// What kind of prose block a piece of markdown is.
#[derive(Clone, Copy, PartialEq, Eq, Debug, Structural)]
pub enum BlockKind {
    Para,
    Heading,
    ListItem,
}

/// A prose block extracted from markdown: its text with code, link targets and
/// markup removed; `bold_first` marks a list item whose first inline is bold.
pub struct Block {
    pub kind: BlockKind,
    pub text: Vec<char>,
    pub bold_first: bool,
}

pub struct BlockView {
    pub kind: BlockKind,
    pub text: Seq<char>,
    pub bold_first: bool,
}

impl View for Block {
    type V = BlockView;

    open spec fn view(&self) -> BlockView {
        BlockView { kind: self.kind, text: self.text@, bold_first: self.bold_first }
    }
}

pub open spec fn block_views(v: Seq<Block>) -> Seq<BlockView> {
    v.map_values(|b: Block| b@)
}

pub open spec fn event_views(v: Seq<MdEvent>) -> Seq<MdEventView> {
    v.map_values(|e: MdEvent| e@)
}

/// Extraction state: finished blocks, the open block, whether inside a code
/// block, and how deep inside block quotes and images.
pub struct MdState {
    pub blocks: Seq<BlockView>,
    pub cur: Option<BlockView>,
    pub in_code: bool,
    pub quote: nat,
    pub image: nat,
}

/// Text here is not prose: code, quoted text, image alt text.
pub open spec fn md_hidden(st: MdState) -> bool {
    st.in_code || st.quote > 0 || st.image > 0
}

/// Closes the open block, keeping it only if its text is not blank.
pub open spec fn md_flush(blocks: Seq<BlockView>, cur: Option<BlockView>) -> Seq<BlockView> {
    match cur {
        Some(b) => if trim(b.text).len() > 0 {
            blocks.push(b)
        } else {
            blocks
        },
        None => blocks,
    }
}

pub open spec fn md_close(st: MdState) -> MdState {
    MdState { blocks: md_flush(st.blocks, st.cur), cur: None, ..st }
}

pub open spec fn md_open(st: MdState, kind: BlockKind) -> MdState {
    MdState {
        blocks: md_flush(st.blocks, st.cur),
        cur: Some(BlockView { kind, text: Seq::empty(), bold_first: false }),
        ..st
    }
}

pub open spec fn md_step(st: MdState, ev: MdEventView) -> MdState {
    match ev {
        MdEventView::Start(MdTag::CodeBlock) => MdState { in_code: true, ..st },
        MdEventView::End(MdTag::CodeBlock) => MdState { in_code: false, ..st },
        MdEventView::Start(MdTag::BlockQuote) => MdState { quote: st.quote + 1, ..st },
        MdEventView::End(MdTag::BlockQuote) => MdState {
            quote: if st.quote > 0 {
                (st.quote - 1) as nat
            } else {
                0
            },
            ..st
        },
        MdEventView::Start(MdTag::Image) => MdState { image: st.image + 1, ..st },
        MdEventView::End(MdTag::Image) => MdState {
            image: if st.image > 0 {
                (st.image - 1) as nat
            } else {
                0
            },
            ..st
        },
        MdEventView::Start(MdTag::Heading) => md_open(st, BlockKind::Heading),
        MdEventView::End(MdTag::Heading) => md_close(st),
        MdEventView::Start(MdTag::Item) => md_open(st, BlockKind::ListItem),
        MdEventView::End(MdTag::Item) => md_close(st),
        MdEventView::Start(MdTag::Paragraph) => match st.cur {
            Some(b) => if b.kind != BlockKind::ListItem {
                md_open(st, BlockKind::Para)
            } else {
                st
            },
            None => md_open(st, BlockKind::Para),
        },
        MdEventView::End(MdTag::Paragraph) => match st.cur {
            Some(b) => if b.kind == BlockKind::Para {
                md_close(st)
            } else {
                st
            },
            None => st,
        },
        MdEventView::Start(MdTag::Strong) => match st.cur {
            Some(b) => if b.kind == BlockKind::ListItem && trim(b.text).len() == 0 {
                MdState { cur: Some(BlockView { kind: b.kind, text: b.text, bold_first: true }), ..st }
            } else {
                st
            },
            None => st,
        },
        MdEventView::Text(t) => match st.cur {
            Some(b) => if !md_hidden(st) {
                MdState {
                    cur: Some(BlockView { kind: b.kind, text: b.text + t, bold_first: b.bold_first }),
                    ..st
                }
            } else {
                st
            },
            None => st,
        },
        MdEventView::Break => match st.cur {
            Some(b) => MdState {
                cur: Some(BlockView { kind: b.kind, text: b.text.push(' '), bold_first: b.bold_first }),
                ..st
            },
            None => st,
        },
        _ => st,
    }
}

pub open spec fn md_fold(evs: Seq<MdEventView>) -> MdState
    decreases evs.len(),
{
    if evs.len() == 0 {
        MdState { blocks: Seq::empty(), cur: None, in_code: false, quote: 0, image: 0 }
    } else {
        md_step(md_fold(evs.drop_last()), evs.last())
    }
}

/// The extraction state after the events `evs`, starting from `st`.
pub open spec fn md_run(st: MdState, evs: Seq<MdEventView>) -> MdState
    decreases evs.len(),
{
    if evs.len() == 0 {
        st
    } else {
        md_step(md_run(st, evs.drop_last()), evs.last())
    }
}

/// The open block, if it is a list item that already holds some non-blank text,
/// is not marked bold-first.
pub open spec fn no_late_bold(st: MdState) -> bool {
    match st.cur {
        Some(b) => b.kind == BlockKind::ListItem ==> !b.bold_first && non_blank(b.text),
        None => true,
    }
}

proof fn lemma_no_late_bold_step(st: MdState, ev: MdEventView)
    requires
        no_late_bold(st),
        ev != MdEventView::Start(MdTag::Item),
    ensures
        no_late_bold(md_step(st, ev)),
{
    match st.cur {
        Some(b) => {
            if b.kind == BlockKind::ListItem {
                lemma_trim_nonempty(b.text);
                match ev {
                    MdEventView::Text(t) => {
                        lemma_non_blank_append(b.text, t);
                    },
                    MdEventView::Break => {
                        lemma_non_blank_append(b.text, seq![' ']);
                        assert(b.text.push(' ') =~= b.text + seq![' ']);
                    },
                    _ => {},
                }
            }
        },
        None => {},
    }
}

/// Bold-first is decided before an item's text: once a list item holds text other
/// than whitespace, no later event before the next item starts (a bold span, more
/// text, a break, a nested paragraph, the item's end, ...) marks it, or any block
/// that follows it, as opening with bold. So an item like "one **two**" never
/// counts as bold-first.
pub proof fn lemma_bold_first_only_before_text(st: MdState, evs: Seq<MdEventView>)
    requires
        no_late_bold(st),
        forall|i: int| 0 <= i < evs.len() ==> #[trigger] evs[i] != MdEventView::Start(MdTag::Item),
    ensures
        no_late_bold(md_run(st, evs)),
    decreases evs.len(),
{
    if evs.len() > 0 {
        assert forall|i: int| 0 <= i < evs.drop_last().len() implies #[trigger] evs.drop_last()[i]
            != MdEventView::Start(MdTag::Item) by {
            assert(evs.drop_last()[i] == evs[i]);
        }
        lemma_bold_first_only_before_text(st, evs.drop_last());
        assert(evs[evs.len() - 1] == evs.last());
        lemma_no_late_bold_step(md_run(st, evs.drop_last()), evs.last());
    }
}

/// Extracting from the start is running the events from the empty state.
pub proof fn lemma_md_fold_is_run(evs: Seq<MdEventView>)
    ensures
        md_fold(evs) == md_run(MdState { blocks: Seq::empty(), cur: None, in_code: false, quote: 0, image: 0 }, evs),
    decreases evs.len(),
{
    if evs.len() > 0 {
        lemma_md_fold_is_run(evs.drop_last());
    }
}

/// The prose blocks of an event stream, in order; blank blocks are dropped.
pub open spec fn md_blocks(evs: Seq<MdEventView>) -> Seq<BlockView> {
    let st = md_fold(evs);
    md_flush(st.blocks, st.cur)
}

/// The pieces joined with a separator between each two.
pub open spec fn join(ts: Seq<Seq<char>>, sep: Seq<char>) -> Seq<char>
    decreases ts.len(),
{
    if ts.len() == 0 {
        Seq::empty()
    } else if ts.len() == 1 {
        ts[0]
    } else {
        join(ts.drop_last(), sep) + sep + ts.last()
    }
}

pub open spec fn block_texts(bs: Seq<BlockView>) -> Seq<Seq<char>> {
    bs.map_values(|b: BlockView| b.text)
}

/// The blocks that are not headings, in order.
pub open spec fn body_blocks(bs: Seq<BlockView>) -> Seq<BlockView>
    decreases bs.len(),
{
    if bs.len() == 0 {
        Seq::empty()
    } else if bs.last().kind != BlockKind::Heading {
        body_blocks(bs.drop_last()).push(bs.last())
    } else {
        body_blocks(bs.drop_last())
    }
}

/// (paragraphs, single-sentence paragraphs, list items, bold-first list items).
pub open spec fn md_counts(bs: Seq<BlockView>) -> (nat, nat, nat, nat)
    decreases bs.len(),
{
    if bs.len() == 0 {
        (0, 0, 0, 0)
    } else {
        let c = md_counts(bs.drop_last());
        let b = bs.last();
        if b.kind == BlockKind::Para {
            (c.0 + 1, c.1 + if spec_sentences(b.text).len() <= 1 {
                1nat
            } else {
                0nat
            }, c.2, c.3)
        } else if b.kind == BlockKind::ListItem {
            (c.0, c.1, c.2 + 1, c.3 + if b.bold_first {
                1nat
            } else {
                0nat
            })
        } else {
            c
        }
    }
}

/// Shape tells read from the block structure: headings are not paragraphs, and
/// bold-first comes from the parse.
pub open spec fn spec_markdown_shape(bs: Seq<BlockView>) -> Seq<TellView> {
    let c = md_counts(bs);
    punchy_tells(c.1, c.0) + bold_tells(c.3, c.2)
}

/// Every prose tell of a markdown document: diction over all block text (headings
/// included), the sentence and run equations over the body blocks only, and the
/// block-structure shape tells.
pub open spec fn spec_scan_markdown_events(evs: Seq<MdEventView>) -> Seq<TellView> {
    let blocks = md_blocks(evs);
    let all_text = join(block_texts(blocks), "\n\n"@);
    let body = join(block_texts(body_blocks(blocks)), "\n\n"@);
    let ss = spec_sentences(body);
    spec_lexical(all_text) + all_sentence_tells(ss) + spec_run_tells(all_metas(ss))
        + spec_markdown_shape(blocks)
}

fn flush_block(blocks: &mut Vec<Block>, cur: Option<Block>)
    ensures
        block_views(final(blocks)@) == md_flush(
            block_views(old(blocks)@),
            match cur {
                Some(b) => Some(b@),
                None => None,
            },
        ),
{
    match cur {
        Some(b) => {
            let t = trim_chars(b.text.as_slice());
            if t.len() > 0 {
                let ghost bv = b@;
                blocks.push(b);
                assert(block_views(blocks@) =~= block_views(old(blocks)@).push(bv));
            }
        },
        None => {},
    }
}

pub open spec fn opt_block(o: Option<Block>) -> Option<BlockView> {
    match o {
        Some(b) => Some(b@),
        None => None,
    }
}

/// Parse markdown events into prose blocks, dropping code blocks, inline code,
/// block-quoted text and image alt text, and keeping link text (not targets).
pub fn blocks_from_events(events: Vec<MdEvent>) -> (res: Vec<Block>)
    ensures
        block_views(res@) == md_blocks(event_views(events@)),
{
    let ghost evs = event_views(events@);
    let mut blocks: Vec<Block> = Vec::new();
    let mut cur: Option<Block> = None;
    let mut in_code = false;
    let mut quote: usize = 0;
    let mut image: usize = 0;
    let n = events.len();
    for ev in it: events
        invariant
            evs == event_views(it.seq()),
            evs.len() == n,
            block_views(blocks@) == md_fold(evs.take(it.index())).blocks,
            opt_block(cur) == md_fold(evs.take(it.index())).cur,
            in_code == md_fold(evs.take(it.index())).in_code,
            quote == md_fold(evs.take(it.index())).quote,
            image == md_fold(evs.take(it.index())).image,
            quote <= it.index(),
            image <= it.index(),
    {
        let ghost k = it.index();
        proof {
            assert(evs.take(k + 1).drop_last() =~= evs.take(k));
            assert(evs[k] == ev@);
        }
        match ev {
            MdEvent::Start(MdTag::CodeBlock) => {
                in_code = true;
            },
            MdEvent::End(MdTag::CodeBlock) => {
                in_code = false;
            },
            MdEvent::Start(MdTag::BlockQuote) => {
                quote = quote + 1;
            },
            MdEvent::End(MdTag::BlockQuote) => {
                if quote > 0 {
                    quote = quote - 1;
                }
            },
            MdEvent::Start(MdTag::Image) => {
                image = image + 1;
            },
            MdEvent::End(MdTag::Image) => {
                if image > 0 {
                    image = image - 1;
                }
            },
            MdEvent::Start(MdTag::Heading) => {
                flush_block(&mut blocks, cur);
                cur = Some(Block { kind: BlockKind::Heading, text: Vec::new(), bold_first: false });
                assert(opt_block(cur) =~= Some(BlockView { kind: BlockKind::Heading, text: Seq::empty(), bold_first: false }));
            },
            MdEvent::End(MdTag::Heading) => {
                flush_block(&mut blocks, cur);
                cur = None;
            },
            MdEvent::Start(MdTag::Item) => {
                flush_block(&mut blocks, cur);
                cur = Some(Block { kind: BlockKind::ListItem, text: Vec::new(), bold_first: false });
                assert(opt_block(cur) =~= Some(BlockView { kind: BlockKind::ListItem, text: Seq::empty(), bold_first: false }));
            },
            MdEvent::End(MdTag::Item) => {
                flush_block(&mut blocks, cur);
                cur = None;
            },
            MdEvent::Start(MdTag::Paragraph) => {
                let open = match &cur {
                    Some(b) => b.kind != BlockKind::ListItem,
                    None => true,
                };
                if open {
                    flush_block(&mut blocks, cur);
                    cur = Some(Block { kind: BlockKind::Para, text: Vec::new(), bold_first: false });
                    assert(opt_block(cur) =~= Some(BlockView { kind: BlockKind::Para, text: Seq::empty(), bold_first: false }));
                }
            },
            MdEvent::End(MdTag::Paragraph) => {
                let close = match &cur {
                    Some(b) => b.kind == BlockKind::Para,
                    None => false,
                };
                if close {
                    flush_block(&mut blocks, cur);
                    cur = None;
                }
            },
            MdEvent::Start(MdTag::Strong) => {
                match cur {
                    Some(mut b) => {
                        if b.kind == BlockKind::ListItem && trim_chars(b.text.as_slice()).len() == 0 {
                            b.bold_first = true;
                        }
                        cur = Some(b);
                    },
                    None => {
                        cur = None;
                    },
                }
            },
            MdEvent::Text(t) => {
                if !in_code && quote == 0 && image == 0 {
                    match cur {
                        Some(mut b) => {
                            push_chars(&mut b.text, t.as_slice());
                            cur = Some(b);
                        },
                        None => {
                            cur = None;
                        },
                    }
                }
            },
            MdEvent::Break => {
                match cur {
                    Some(mut b) => {
                        b.text.push(' ');
                        cur = Some(b);
                    },
                    None => {
                        cur = None;
                    },
                }
            },
            _ => {},
        }
    }
    proof {
        assert(evs.take(evs.len() as int) =~= evs);
    }
    flush_block(&mut blocks, cur);
    blocks
}

/// The texts of the blocks joined with blank lines; headings only when asked.
fn join_block_texts(blocks: &Vec<Block>, headings: bool) -> (res: Vec<char>)
    ensures
        headings ==> res@ == join(block_texts(block_views(blocks@)), "\n\n"@),
        !headings ==> res@ == join(block_texts(body_blocks(block_views(blocks@))), "\n\n"@),
{
    let ghost bs = block_views(blocks@);
    let ghost sel = if headings {
        bs
    } else {
        body_blocks(bs)
    };
    let mut out: Vec<char> = Vec::new();
    let mut any = false;
    let mut i: usize = 0;
    while i < blocks.len()
        invariant
            i <= blocks@.len(),
            bs == block_views(blocks@),
            sel == if headings {
                bs
            } else {
                body_blocks(bs)
            },
            out@ == join(
                block_texts(
                    if headings {
                        bs.take(i as int)
                    } else {
                        body_blocks(bs.take(i as int))
                    },
                ),
                "\n\n"@,
            ),
            any == (block_texts(
                if headings {
                    bs.take(i as int)
                } else {
                    body_blocks(bs.take(i as int))
                },
            ).len() > 0),
        decreases blocks.len() - i,
    {
        let ghost prev = if headings {
            bs.take(i as int)
        } else {
            body_blocks(bs.take(i as int))
        };
        proof {
            assert(bs.take(i + 1).drop_last() =~= bs.take(i as int));
            assert(bs[i as int] == blocks@[i as int]@);
        }
        if headings || blocks[i].kind != BlockKind::Heading {
            let ghost next = prev.push(bs[i as int]);
            proof {
                if !headings {
                    assert(body_blocks(bs.take(i + 1)) == next);
                } else {
                    assert(bs.take(i + 1) =~= next);
                }
                assert(block_texts(next).drop_last() =~= block_texts(prev));
                assert(block_texts(next).last() == blocks@[i as int].text@);
            }
            if any {
                push_lit(&mut out, "\n\n");
            }
            push_chars(&mut out, blocks[i].text.as_slice());
            proof {
                if !any {
                    assert(block_texts(prev).len() == 0);
                    assert(block_texts(next).len() == 1);
                    assert(out@ =~= block_texts(next)[0]);
                }
            }
            any = true;
        } else {
            proof {
                assert(body_blocks(bs.take(i + 1)) == prev);
            }
        }
        i = i + 1;
    }
    proof {
        assert(bs.take(blocks@.len() as int) =~= bs);
    }
    out
}

fn markdown_counts(blocks: &Vec<Block>) -> (res: (usize, usize, usize, usize))
    ensures
        res.0 == md_counts(block_views(blocks@)).0,
        res.1 == md_counts(block_views(blocks@)).1,
        res.2 == md_counts(block_views(blocks@)).2,
        res.3 == md_counts(block_views(blocks@)).3,
        res.1 <= res.0,
        res.3 <= res.2,
{
    let ghost bs = block_views(blocks@);
    let mut paras: usize = 0;
    let mut single: usize = 0;
    let mut items: usize = 0;
    let mut bold: usize = 0;
    let mut i: usize = 0;
    while i < blocks.len()
        invariant
            i <= blocks@.len(),
            bs == block_views(blocks@),
            (paras as nat, single as nat, items as nat, bold as nat) == md_counts(bs.take(i as int)),
            single <= paras,
            bold <= items,
            paras + items <= i,
        decreases blocks.len() - i,
    {
        proof {
            assert(bs.take(i + 1).drop_last() =~= bs.take(i as int));
            assert(bs[i as int] == blocks@[i as int]@);
        }
        let b = &blocks[i];
        if b.kind == BlockKind::Para {
            if sentences(b.text.as_slice()).len() <= 1 {
                single = single + 1;
            }
            paras = paras + 1;
        } else if b.kind == BlockKind::ListItem {
            if b.bold_first {
                bold = bold + 1;
            }
            items = items + 1;
        }
        i = i + 1;
    }
    assert(bs.take(blocks@.len() as int) =~= bs);
    (paras, single, items, bold)
}

/// Scans the prose blocks of a markdown event stream.
pub fn scan_markdown_events(events: Vec<MdEvent>) -> (res: Vec<Tell>)
    ensures
        tell_views(res@) == spec_scan_markdown_events(event_views(events@)),
        all_positive(tell_views(res@)),
{
    let ghost evs = event_views(events@);
    let blocks = blocks_from_events(events);
    let all_text = join_block_texts(&blocks, true);
    let body = join_block_texts(&blocks, false);
    let sents = sentences(body.as_slice());
    let part = scan_sentence_range(&sents, 0, sents.len());
    assert(views(sents@).subrange(0, sents@.len() as int) =~= views(sents@));
    let mut out: Vec<Tell> = Vec::new();
    lexical(all_text.as_slice(), &mut out);
    let mut per = part.tells;
    let ghost per_v = tell_views(per@);
    let ghost before = out@;
    out.append(&mut per);
    assert(tell_views(out@) =~= tell_views(before) + per_v);
    run_tells(&part.metas, &mut out);
    let (paras, single, items, bold) = markdown_counts(&blocks);
    push_shape_tells(paras, single, items, bold, &mut out);
    assert(tell_views(out@) =~= spec_scan_markdown_events(evs));
    proof {
        let ss = views(sents@);
        lemma_lexical_positive(all_text@);
        lemma_all_sentence_tells_positive(ss);
        lemma_positive_concat(spec_lexical(all_text@), all_sentence_tells(ss));
        lemma_positive_concat(spec_lexical(all_text@) + all_sentence_tells(ss), spec_run_tells(all_metas(ss)));
        lemma_positive_concat(
            spec_lexical(all_text@) + all_sentence_tells(ss) + spec_run_tells(all_metas(ss)),
            punchy_tells(single as nat, paras as nat) + bold_tells(bold as nat, items as nat),
        );
    }
    out
}

/// Scan a markdown document for prose tells. Unlike `scan_prose`, code blocks and
/// inline code are excluded, link URLs and image alt text are dropped (link text
/// kept), block-quoted text is excluded, and headings are scanned for diction but
/// not counted as prose paragraphs.
pub fn scan_prose_markdown(md: &str) -> (res: Vec<Tell>)
    ensures
        tell_views(res@) == spec_scan_markdown_events(spec_markdown_events(md@)),
        all_positive(tell_views(res@)),
{
    let events = markdown_events(md);
    scan_markdown_events(events)
}

} // verus!
