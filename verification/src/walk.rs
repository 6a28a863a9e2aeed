//! The walk over the words of a recognized page.
//!
//! A walk does not touch the recognition engine. It says what it wants to know
//! next of the word that the engine's iterator stands at (`request`), and is told
//! (`step`), until it has the hierarchy of the page or has failed.

use vstd::prelude::*;

use crate::builder;
use crate::builder::{HierarchyBuilder, ScannedWord};
use crate::commit;
use crate::geometry::BoundingBox;
use crate::hierarchy::TesseractHierarchy;
use crate::layout::{Scan, WordView};
use crate::text;

verus! {

/// The levels of the page that a walk asks about.
#[derive(Debug, Clone, Copy, PartialEq, Eq, Structural)]
pub enum Level {
    Block,
    Para,
    TextLine,
    Word,
}

/// What a walk asks of the iterator.
#[derive(Debug, Clone, Copy, PartialEq, Eq, Structural)]
pub enum Request {
    /// The text of the word.
    GetUtf8Text,
    /// The box of the word, or of the block, paragraph or line that it is in.
    GetBoundingBox(Level),
    /// The confidence of the word.
    Confidence,
    /// Whether the word is the first of its block, paragraph or line.
    IsAtBeginningOf(Level),
    /// To go on to the next word, and whether there is one.
    Next,
}

/// What the iterator answers.
#[derive(Debug)]
pub enum Reply<C, E> {
    Text(String),
    /// The left, top, right and bottom edge.
    Edges(i32, i32, i32, i32),
    /// A confidence, and whether it is greater than zero.
    Confidence(C, bool),
    Flag(bool),
    Failed(E),
}

/// How far a walk has come.
pub enum Progress<C, E, F> {
    Continue(HierarchyWalk<C, F>),
    Finished(TesseractHierarchy<C>),
    Failed(E),
}

/// What the walk knows of the word that it is at.
enum Stage<C> {
    Text,
    WordBox(String),
    Confidence(String, BoundingBox),
    AtBlock(ScannedWord<C>),
    BlockBox(ScannedWord<C>),
    AtParagraph(ScannedWord<C>),
    ParagraphBox(ScannedWord<C>),
    AtLine(ScannedWord<C>),
    LineBox(ScannedWord<C>),
    Next,
}

/// A walk over the words of a page, in reading order.
pub struct HierarchyWalk<C, F> {
    builder: HierarchyBuilder<C, F>,
    stage: Stage<C>,
    zero: C,
}

/// What a walk knows of the word that it is at.
pub enum StageView<C> {
    Text,
    WordBox(Seq<char>),
    Confidence(Seq<char>, BoundingBox),
    AtBlock(Scan<C>),
    BlockBox(Scan<C>),
    AtParagraph(Scan<C>),
    ParagraphBox(Scan<C>),
    AtLine(Scan<C>),
    LineBox(Scan<C>),
    Next,
}

/// The state of a walk: the words that it has seen, what it knows of the word
/// that it is at, and the confidence that stands for zero.
pub struct WalkView<C> {
    pub words: Seq<Scan<C>>,
    pub stage: StageView<C>,
    pub zero: C,
}

/// Where a step leads: on, to the tree of these words, or to this error.
pub enum ProgressView<C, E> {
    Continue(WalkView<C>),
    Finished(Seq<Scan<C>>),
    Failed(E),
}

impl<C> StageView<C> {
    /// What a walk at this stage wants to know.
    pub open spec fn request(self) -> Request {
        match self {
            StageView::Text => Request::GetUtf8Text,
            StageView::WordBox(_) => Request::GetBoundingBox(Level::Word),
            StageView::Confidence(_, _) => Request::Confidence,
            StageView::AtBlock(_) => Request::IsAtBeginningOf(Level::Block),
            StageView::BlockBox(_) => Request::GetBoundingBox(Level::Block),
            StageView::AtParagraph(_) => Request::IsAtBeginningOf(Level::Para),
            StageView::ParagraphBox(_) => Request::GetBoundingBox(Level::Para),
            StageView::AtLine(_) => Request::IsAtBeginningOf(Level::TextLine),
            StageView::LineBox(_) => Request::GetBoundingBox(Level::TextLine),
            StageView::Next => Request::Next,
        }
    }
}

impl<C> WalkView<C> {
    /// A walk that stands at the first word and has seen none.
    pub open spec fn start(zero: C) -> WalkView<C> {
        WalkView { words: Seq::empty(), stage: StageView::Text, zero }
    }

    /// The same walk at another stage.
    pub open spec fn at(self, stage: StageView<C>) -> WalkView<C> {
        WalkView { stage, ..self }
    }

    /// The walk has seen all of `word`.
    pub open spec fn seen(self, word: Scan<C>) -> WalkView<C> {
        WalkView { words: self.words.push(word), stage: StageView::Next, ..self }
    }
}

impl<C, E> Reply<C, E> {
    /// The reply is of a kind that answers `request`.
    pub open spec fn answers(self, request: Request) -> bool {
        ||| self is Failed
        ||| match request {
            Request::GetUtf8Text => self is Text,
            Request::GetBoundingBox(_) => self is Edges,
            Request::Confidence => self is Confidence,
            Request::IsAtBeginningOf(_) => self is Flag,
            Request::Next => self is Flag,
        }
    }

    /// The box that the reply gives, or the one that stands for a missing box.
    pub open spec fn spec_bbox(self) -> BoundingBox {
        match self {
            Reply::Edges(left, top, right, bottom) => BoundingBox { left, top, right, bottom },
            _ => BoundingBox::origin(),
        }
    }

    fn bbox(&self) -> (b: BoundingBox)
        ensures
            b == self.spec_bbox(),
    {
        match self {
            Reply::Edges(left, top, right, bottom) => BoundingBox::from_lrtb(
                *left,
                *top,
                *right,
                *bottom,
            ),
            _ => BoundingBox::default(),
        }
    }
}

/// Where the walk `v` goes when its request is answered by `reply`.
///
/// Only a word with a text that is not blank is looked at any further. A box that
/// cannot be read is replaced, and so is a confidence that cannot be read or is not
/// greater than zero. That a boundary or the next word cannot be found out ends the
/// walk.
pub open spec fn advance<C, E>(v: WalkView<C>, reply: Reply<C, E>) -> ProgressView<C, E> {
    match v.stage {
        StageView::Text => match reply {
            Reply::Text(t) if text::trimmed(t@).len() > 0 => ProgressView::Continue(
                v.at(StageView::WordBox(text::trimmed(t@))),
            ),
            _ => ProgressView::Continue(v.at(StageView::Next)),
        },
        StageView::WordBox(text) => ProgressView::Continue(
            v.at(StageView::Confidence(text, reply.spec_bbox())),
        ),
        StageView::Confidence(text, bbox) => {
            let confidence = match reply {
                Reply::Confidence(c, true) => c,
                _ => v.zero,
            };
            ProgressView::Continue(
                v.at(
                    StageView::AtBlock(
                        Scan {
                            word: WordView { text, bbox, confidence },
                            block: None,
                            paragraph: None,
                            line: None,
                        },
                    ),
                ),
            )
        },
        StageView::AtBlock(w) => match reply {
            Reply::Failed(e) => ProgressView::Failed(e),
            Reply::Flag(true) => ProgressView::Continue(v.at(StageView::BlockBox(w))),
            _ => ProgressView::Continue(v.at(StageView::AtParagraph(w))),
        },
        StageView::BlockBox(w) => ProgressView::Continue(
            v.at(StageView::AtParagraph(Scan { block: Some(reply.spec_bbox()), ..w })),
        ),
        StageView::AtParagraph(w) => match reply {
            Reply::Failed(e) => ProgressView::Failed(e),
            Reply::Flag(true) => ProgressView::Continue(v.at(StageView::ParagraphBox(w))),
            _ => ProgressView::Continue(v.at(StageView::AtLine(w))),
        },
        StageView::ParagraphBox(w) => ProgressView::Continue(
            v.at(StageView::AtLine(Scan { paragraph: Some(reply.spec_bbox()), ..w })),
        ),
        StageView::AtLine(w) => match reply {
            Reply::Failed(e) => ProgressView::Failed(e),
            Reply::Flag(true) => ProgressView::Continue(v.at(StageView::LineBox(w))),
            _ => ProgressView::Continue(v.seen(w)),
        },
        StageView::LineBox(w) => ProgressView::Continue(
            v.seen(Scan { line: Some(reply.spec_bbox()), ..w }),
        ),
        StageView::Next => match reply {
            Reply::Failed(e) => ProgressView::Failed(e),
            Reply::Flag(true) => ProgressView::Continue(v.at(StageView::Text)),
            _ => ProgressView::Finished(v.words),
        },
    }
}

impl<C> View for Stage<C> {
    type V = StageView<C>;

    closed spec fn view(&self) -> StageView<C> {
        match self {
            Stage::Text => StageView::Text,
            Stage::WordBox(text) => StageView::WordBox(text@),
            Stage::Confidence(text, bbox) => StageView::Confidence(text@, *bbox),
            Stage::AtBlock(w) => StageView::AtBlock(w@),
            Stage::BlockBox(w) => StageView::BlockBox(w@),
            Stage::AtParagraph(w) => StageView::AtParagraph(w@),
            Stage::ParagraphBox(w) => StageView::ParagraphBox(w@),
            Stage::AtLine(w) => StageView::AtLine(w@),
            Stage::LineBox(w) => StageView::LineBox(w@),
            Stage::Next => StageView::Next,
        }
    }
}

impl<C, F: Fn(&Vec<C>) -> C> View for HierarchyWalk<C, F> {
    type V = WalkView<C>;

    closed spec fn view(&self) -> WalkView<C> {
        WalkView { words: self.builder@, stage: self.stage@, zero: self.zero }
    }
}

impl<C, F: Fn(&Vec<C>) -> C> HierarchyWalk<C, F> {
    /// The function that averages the confidences of a line.
    pub closed spec fn spec_mean(self) -> F {
        self.builder.spec_mean()
    }

    /// What holds of every walk.
    pub closed spec fn wf(self) -> bool {
        self.builder.wf()
    }
}

impl<C: Copy, F: Fn(&Vec<C>) -> C> HierarchyWalk<C, F> {
    /// A walk from the first word on. `mean` is to average the confidences of the
    /// words of a line, and `zero` is the confidence zero.
    pub fn new(mean: F, zero: C) -> (w: Self)
        requires
            commit::averages(mean),
        ensures
            w.wf(),
            w@ == WalkView::start(zero),
            w.spec_mean() == mean,
    {
        HierarchyWalk { builder: HierarchyBuilder::new(mean, zero), stage: Stage::Text, zero }
    }

    /// What the walk wants to know next.
    pub fn request(&self) -> (r: Request)
        ensures
            r == self@.stage.request(),
    {
        match &self.stage {
            Stage::Text => Request::GetUtf8Text,
            Stage::WordBox(_) => Request::GetBoundingBox(Level::Word),
            Stage::Confidence(_, _) => Request::Confidence,
            Stage::AtBlock(_) => Request::IsAtBeginningOf(Level::Block),
            Stage::BlockBox(_) => Request::GetBoundingBox(Level::Block),
            Stage::AtParagraph(_) => Request::IsAtBeginningOf(Level::Para),
            Stage::ParagraphBox(_) => Request::GetBoundingBox(Level::Para),
            Stage::AtLine(_) => Request::IsAtBeginningOf(Level::TextLine),
            Stage::LineBox(_) => Request::GetBoundingBox(Level::TextLine),
            Stage::Next => Request::Next,
        }
    }

    /// Takes the answer to `request`.
    pub fn step<E>(self, reply: Reply<C, E>) -> (p: Progress<C, E, F>)
        requires
            self.wf(),
            reply.answers(self@.stage.request()),
        ensures
            match advance(self@, reply) {
                ProgressView::Continue(v) => p matches Progress::Continue(w) && w.wf() && w@ == v
                    && w.spec_mean() == self.spec_mean(),
                ProgressView::Finished(words) => p matches Progress::Finished(h)
                    && builder::is_tree_of(h, words, self.spec_mean()),
                ProgressView::Failed(e) => p matches Progress::Failed(f) && f == e,
            },
    {
        let HierarchyWalk { mut builder, stage, zero } = self;
        let next = match stage {
            Stage::Text => match reply {
                Reply::Text(t) => {
                    let trimmed = t.as_str().trim();
                    if trimmed.is_empty() {
                        Stage::Next
                    } else {
                        Stage::WordBox(trimmed.to_string())
                    }
                },
                _ => Stage::Next,
            },
            Stage::WordBox(text) => Stage::Confidence(text, reply.bbox()),
            Stage::Confidence(text, bbox) => {
                let confidence = match reply {
                    Reply::Confidence(c, true) => c,
                    _ => zero,
                };
                Stage::AtBlock(
                    ScannedWord {
                        text,
                        bbox,
                        confidence,
                        block: None,
                        paragraph: None,
                        line: None,
                    },
                )
            },
            Stage::AtBlock(w) => match reply {
                Reply::Failed(e) => return Progress::Failed(e),
                Reply::Flag(true) => Stage::BlockBox(w),
                _ => Stage::AtParagraph(w),
            },
            Stage::BlockBox(w) => Stage::AtParagraph(
                ScannedWord { block: Some(reply.bbox()), ..w },
            ),
            Stage::AtParagraph(w) => match reply {
                Reply::Failed(e) => return Progress::Failed(e),
                Reply::Flag(true) => Stage::ParagraphBox(w),
                _ => Stage::AtLine(w),
            },
            Stage::ParagraphBox(w) => Stage::AtLine(
                ScannedWord { paragraph: Some(reply.bbox()), ..w },
            ),
            Stage::AtLine(w) => match reply {
                Reply::Failed(e) => return Progress::Failed(e),
                Reply::Flag(true) => Stage::LineBox(w),
                _ => {
                    builder.place(w);
                    Stage::Next
                },
            },
            Stage::LineBox(w) => {
                builder.place(ScannedWord { line: Some(reply.bbox()), ..w });
                Stage::Next
            },
            Stage::Next => match reply {
                Reply::Failed(e) => return Progress::Failed(e),
                Reply::Flag(true) => Stage::Text,
                _ => return Progress::Finished(builder.finish()),
            },
        };
        Progress::Continue(HierarchyWalk { builder, stage: next, zero })
    }
}

/// All that an iterator can answer while it stands at one word.
pub struct WordReading<C, E> {
    pub text: Result<String, E>,
    pub bbox: Result<(i32, i32, i32, i32), E>,
    /// The confidence, and whether it is greater than zero.
    pub confidence: Result<(C, bool), E>,
    pub at_block: Result<bool, E>,
    pub block_box: Result<(i32, i32, i32, i32), E>,
    pub at_paragraph: Result<bool, E>,
    pub paragraph_box: Result<(i32, i32, i32, i32), E>,
    pub at_line: Result<bool, E>,
    pub line_box: Result<(i32, i32, i32, i32), E>,
    pub next: Result<bool, E>,
}

/// The reply that gives edges, or says that there are none.
pub open spec fn edges_reply<C, E>(edges: Result<(i32, i32, i32, i32), E>) -> Reply<C, E> {
    match edges {
        Ok((left, top, right, bottom)) => Reply::Edges(left, top, right, bottom),
        Err(e) => Reply::Failed(e),
    }
}

/// The reply that answers yes or no, or says that it is not known.
pub open spec fn flag_reply<C, E>(flag: Result<bool, E>) -> Reply<C, E> {
    match flag {
        Ok(b) => Reply::Flag(b),
        Err(e) => Reply::Failed(e),
    }
}

/// The box that was read, or the one that stands for a missing box.
pub open spec fn box_read<E>(edges: Result<(i32, i32, i32, i32), E>) -> BoundingBox {
    match edges {
        Ok((left, top, right, bottom)) => BoundingBox { left, top, right, bottom },
        Err(_) => BoundingBox::origin(),
    }
}

impl<C, E> WordReading<C, E> {
    /// What the iterator answers to `request` at this word.
    pub open spec fn answer(self, request: Request) -> Reply<C, E> {
        match request {
            Request::GetUtf8Text => match self.text {
                Ok(t) => Reply::Text(t),
                Err(e) => Reply::Failed(e),
            },
            Request::GetBoundingBox(Level::Word) => edges_reply(self.bbox),
            Request::GetBoundingBox(Level::Block) => edges_reply(self.block_box),
            Request::GetBoundingBox(Level::Para) => edges_reply(self.paragraph_box),
            Request::GetBoundingBox(Level::TextLine) => edges_reply(self.line_box),
            Request::Confidence => match self.confidence {
                Ok((c, positive)) => Reply::Confidence(c, positive),
                Err(e) => Reply::Failed(e),
            },
            Request::IsAtBeginningOf(Level::Block) => flag_reply(self.at_block),
            Request::IsAtBeginningOf(Level::Para) => flag_reply(self.at_paragraph),
            Request::IsAtBeginningOf(Level::TextLine) => flag_reply(self.at_line),
            Request::IsAtBeginningOf(Level::Word) => Reply::Flag(true),
            Request::Next => flag_reply(self.next),
        }
    }

    /// The word has a text that is not blank.
    pub open spec fn visible(self) -> bool {
        self.text matches Ok(t) && text::trimmed(t@).len() > 0
    }

    /// What the word contributes to the page, if it is visible.
    pub open spec fn scan(self, zero: C) -> Scan<C> {
        Scan {
            word: WordView {
                text: text::trimmed(self.text->Ok_0@),
                bbox: box_read(self.bbox),
                confidence: match self.confidence {
                    Ok((c, true)) => c,
                    _ => zero,
                },
            },
            block: if self.at_block == Ok::<bool, E>(true) {
                Some(box_read(self.block_box))
            } else {
                None
            },
            paragraph: if self.at_paragraph == Ok::<bool, E>(true) {
                Some(box_read(self.paragraph_box))
            } else {
                None
            },
            line: if self.at_line == Ok::<bool, E>(true) {
                Some(box_read(self.line_box))
            } else {
                None
            },
        }
    }

    /// The error that ends a walk at this word. The boundaries count only where
    /// the word is visible.
    pub open spec fn failure(self) -> Option<E> {
        if self.visible() && self.at_block is Err {
            Some(self.at_block->Err_0)
        } else if self.visible() && self.at_paragraph is Err {
            Some(self.at_paragraph->Err_0)
        } else if self.visible() && self.at_line is Err {
            Some(self.at_line->Err_0)
        } else if self.next is Err {
            Some(self.next->Err_0)
        } else {
            None
        }
    }

    /// A walk goes on from this word to another.
    pub open spec fn goes_on(self) -> bool {
        self.failure() is None && self.next == Ok::<bool, E>(true)
    }
}

/// The words of `page` up to the one at which a walk over it ends.
pub open spec fn is_walk<C, E>(page: Seq<WordReading<C, E>>) -> bool {
    &&& page.len() > 0
    &&& forall|i: int| 0 <= i < page.len() - 1 ==> (#[trigger] page[i]).goes_on()
    &&& !page.last().goes_on()
}

/// What the visible words of `page` contribute, in order.
pub open spec fn visible_scans<C, E>(page: Seq<WordReading<C, E>>, zero: C) -> Seq<Scan<C>> {
    page.filter(|r: WordReading<C, E>| r.visible()).map_values(
        |r: WordReading<C, E>| r.scan(zero),
    )
}

/// What becomes of the walk `v` within `steps` steps, where the iterator stands at
/// the first word of `page` and answers as `page` says.
pub open spec fn drive<C, E>(
    v: WalkView<C>,
    page: Seq<WordReading<C, E>>,
    steps: nat,
) -> ProgressView<C, E>
    decreases steps,
{
    if steps == 0 || page.len() == 0 {
        ProgressView::Continue(v)
    } else {
        match advance(v, page.first().answer(v.stage.request())) {
            ProgressView::Continue(w) => drive(
                w,
                if v.stage is Next {
                    page.drop_first()
                } else {
                    page
                },
                (steps - 1) as nat,
            ),
            done => done,
        }
    }
}

/// Every request that a walk makes of an iterator gets an answer that it can take.
pub proof fn readings_answer_requests<C, E>(v: WalkView<C>, reading: WordReading<C, E>)
    ensures
        reading.answer(v.stage.request()).answers(v.stage.request()),
{
}

/// An iterator answers what was read, and fails where that failed: the text and the
/// confidence of the word, the boxes of the word and of the parts around it, whether
/// it begins one of them, and whether there is a next word.
pub proof fn answers_are_what_was_read<C, E>(
    r: WordReading<C, E>,
    text: String,
    confidence: C,
    level: Level,
    edges: (i32, i32, i32, i32),
    flag: bool,
    e: E,
)
    ensures
        r.text == Ok::<String, E>(text) <==> r.answer(Request::GetUtf8Text) == Reply::<
            C,
            E,
        >::Text(text),
        r.text == Err::<String, E>(e) <==> r.answer(Request::GetUtf8Text) == Reply::<
            C,
            E,
        >::Failed(e),
        r.confidence == Ok::<(C, bool), E>((confidence, flag)) <==> r.answer(Request::Confidence)
            == Reply::<C, E>::Confidence(confidence, flag),
        r.confidence == Err::<(C, bool), E>(e) <==> r.answer(Request::Confidence) == Reply::<
            C,
            E,
        >::Failed(e),
        (match level {
            Level::Block => r.block_box,
            Level::Para => r.paragraph_box,
            Level::TextLine => r.line_box,
            Level::Word => r.bbox,
        }) == Ok::<(i32, i32, i32, i32), E>(edges) <==> r.answer(Request::GetBoundingBox(level))
            == Reply::<C, E>::Edges(edges.0, edges.1, edges.2, edges.3),
        r.at_block == Ok::<bool, E>(flag) <==> r.answer(Request::IsAtBeginningOf(Level::Block))
            == Reply::<C, E>::Flag(flag),
        r.at_paragraph == Ok::<bool, E>(flag) <==> r.answer(Request::IsAtBeginningOf(Level::Para))
            == Reply::<C, E>::Flag(flag),
        r.at_line == Ok::<bool, E>(flag) <==> r.answer(Request::IsAtBeginningOf(Level::TextLine))
            == Reply::<C, E>::Flag(flag),
        r.next == Ok::<bool, E>(flag) <==> r.answer(Request::Next) == Reply::<C, E>::Flag(flag),
{
}

/// A walk over a page ends with the tree of the visible words of the page, or
/// with the error at the word at which it ends. It makes at most ten requests
/// for each word.
pub proof fn walk_reads_the_page<C, E>(page: Seq<WordReading<C, E>>, zero: C)
    requires
        is_walk(page),
    ensures
        drive(WalkView::start(zero), page, 10 * page.len()) == match page.last().failure() {
            Some(e) => ProgressView::Failed(e),
            None => ProgressView::Finished(visible_scans(page, zero)),
        },
{
    lemma_drive_page(WalkView::start(zero), page, 10 * page.len());
    assert(Seq::<Scan<C>>::empty() + visible_scans(page, zero) =~= visible_scans(page, zero));
}

/// The text of a word that a walk puts into the tree is not blank, and has no
/// white space around it.
pub proof fn no_word_is_blank<C, E>(page: Seq<WordReading<C, E>>, zero: C, i: int)
    requires
        0 <= i < visible_scans(page, zero).len(),
    ensures
        visible_scans(page, zero)[i].word.text.len() > 0,
        text::trimmed(visible_scans(page, zero)[i].word.text) == visible_scans(
            page,
            zero,
        )[i].word.text,
{
    let visible = |r: WordReading<C, E>| r.visible();
    page.filter_lemma(visible);
    let r = page.filter(visible)[i];
    assert(visible(r));
    text::trimmed_is_idempotent(r.text->Ok_0@);
}

proof fn lemma_drive_page<C, E>(v: WalkView<C>, page: Seq<WordReading<C, E>>, steps: nat)
    requires
        v.stage is Text,
        is_walk(page),
        steps >= 10 * page.len(),
    ensures
        drive(v, page, steps) == match page.last().failure() {
            Some(e) => ProgressView::Failed(e),
            None => ProgressView::Finished(v.words + visible_scans(page, v.zero)),
        },
    decreases page.len(),
{
    let visible = |r: WordReading<C, E>| r.visible();
    let r = page.first();
    let rest = page.drop_first();
    let words = if r.visible() {
        v.words.push(r.scan(v.zero))
    } else {
        v.words
    };
    let left = lemma_drive_word(v, page, steps);
    assert(page =~= seq![r] + rest);
    Seq::filter_distributes_over_add(seq![r], rest, visible);
    assert(seq![r].filter(visible) == if r.visible() {
        seq![r]
    } else {
        Seq::empty()
    }) by {
        reveal_with_fuel(Seq::filter, 2);
        assert(seq![r].drop_last() =~= Seq::empty());
        assert(Seq::<WordReading<C, E>>::empty().push(r) =~= seq![r]);
    }
    assert(v.words + visible_scans(page, v.zero) =~= words + visible_scans(rest, v.zero));
    if r.goes_on() {
        assert(page.len() > 1);
        assert(rest.last() == page.last());
        assert forall|i: int| 0 <= i < rest.len() - 1 implies (#[trigger] rest[i]).goes_on() by {
            assert(rest[i] == page[i + 1]);
        }
        lemma_drive_page(WalkView { words, ..v }, rest, left);
    } else {
        assert(page.len() == 1);
        assert(rest =~= Seq::empty());
        assert(visible_scans(rest, v.zero) =~= Seq::empty()) by {
            reveal(Seq::filter);
        }
    }
}

/// One word takes a walk no more than ten steps.
proof fn lemma_drive_word<C, E>(
    v: WalkView<C>,
    page: Seq<WordReading<C, E>>,
    steps: nat,
) -> (left: nat)
    requires
        v.stage is Text,
        page.len() > 0,
        steps >= 10,
    ensures
        left + 10 >= steps,
        ({
            let r = page.first();
            let words = if r.visible() {
                v.words.push(r.scan(v.zero))
            } else {
                v.words
            };
            drive(v, page, steps) == match r.failure() {
                Some(e) => ProgressView::Failed(e),
                None => if r.next == Ok::<bool, E>(true) {
                    drive(WalkView { words, ..v }, page.drop_first(), left)
                } else {
                    ProgressView::Finished(words)
                },
            }
        }),
{
    let r = page.first();
    reveal_with_fuel(drive, 11);
    if !r.visible() {
        (steps - 2) as nat
    } else {
        let boxes: int = (if r.at_block == Ok::<bool, E>(true) { 1int } else { 0 }) + (
            if r.at_paragraph == Ok::<bool, E>(true) { 1int } else { 0 }) + (
            if r.at_line == Ok::<bool, E>(true) { 1int } else { 0 });
        (steps - 7 - boxes) as nat
    }
}

} // verus!
