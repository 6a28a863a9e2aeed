//! The tree under construction: words come in, in reading order, and scopes open
//! and close around them.

use vstd::prelude::*;

use crate::commit;
use crate::commit::{commit_block, commit_line, commit_para};
use crate::geometry::BoundingBox;
use crate::hierarchy::{
    TesseractBlock, TesseractHierarchy, TesseractParagraph, TesseractTextLine, TesseractWord,
};
use crate::layout;
use crate::layout::{BlockLayout, LineLayout, ParagraphLayout, Scan, WordView};

verus! {

/// A word with the boxes of the block, paragraph and line that begin with it.
pub struct ScannedWord<C> {
    pub text: String,
    pub bbox: BoundingBox,
    pub confidence: C,
    pub block: Option<BoundingBox>,
    pub paragraph: Option<BoundingBox>,
    pub line: Option<BoundingBox>,
}

impl<C> View for ScannedWord<C> {
    type V = Scan<C>;

    open spec fn view(&self) -> Scan<C> {
        Scan {
            word: WordView { text: self.text@, bbox: self.bbox, confidence: self.confidence },
            block: self.block,
            paragraph: self.paragraph,
            line: self.line,
        }
    }
}

/// `h` is the tree of the words `page`: it has the layout that the boundaries at the
/// words make up, and its lines are summed up.
pub open spec fn is_tree_of<C, F: Fn(&Vec<C>) -> C>(
    h: TesseractHierarchy<C>,
    page: Seq<Scan<C>>,
    mean: F,
) -> bool {
    &&& h.layout() == layout::blocks_of(page)
    &&& commit::all_summed_up(h.spec_lines(), mean)
}

/// A page under construction. The block, paragraph and line that the latest word
/// belongs to are open; all that came before is closed.
pub struct HierarchyBuilder<C, F> {
    hierarchy: TesseractHierarchy<C>,
    cur_block: Option<TesseractBlock<C>>,
    cur_para: Option<TesseractParagraph<C>>,
    cur_line: Option<TesseractTextLine<C>>,
    mean: F,
    zero: C,
    scanned: Ghost<Seq<Scan<C>>>,
}

impl<C, F: Fn(&Vec<C>) -> C> View for HierarchyBuilder<C, F> {
    type V = Seq<Scan<C>>;

    /// The words that have been placed, in order.
    closed spec fn view(&self) -> Seq<Scan<C>> {
        self.scanned@
    }
}

impl<C, F: Fn(&Vec<C>) -> C> HierarchyBuilder<C, F> {
    /// The function that averages the confidences of a line.
    pub closed spec fn spec_mean(self) -> F {
        self.mean
    }

    /// The lines of `p` with the open one behind them.
    closed spec fn open_lines(self, p: TesseractParagraph<C>) -> Seq<LineLayout<C>> {
        match self.cur_line {
            Some(l) => layout::line_layouts(p.lines@).push(l.layout()),
            None => layout::line_layouts(p.lines@),
        }
    }

    /// The paragraphs of `b` with the open one behind them.
    closed spec fn open_paragraphs(self, b: TesseractBlock<C>) -> Seq<ParagraphLayout<C>> {
        match self.cur_para {
            Some(p) => layout::paragraph_layouts(b.paragraphs@).push(
                ParagraphLayout { bbox: p.bbox, lines: self.open_lines(p) },
            ),
            None => layout::paragraph_layouts(b.paragraphs@),
        }
    }

    /// The closed blocks with the open one behind them.
    closed spec fn open_blocks(self) -> Seq<BlockLayout<C>> {
        match self.cur_block {
            Some(b) => self.hierarchy.layout().push(
                BlockLayout { bbox: b.bbox, paragraphs: self.open_paragraphs(b) },
            ),
            None => self.hierarchy.layout(),
        }
    }

    /// All that is closed has been summed up, and an open line has a word.
    closed spec fn sound(self) -> bool {
        &&& commit::averages(self.mean)
        &&& commit::all_summed_up(self.hierarchy.spec_lines(), self.mean)
        &&& self.cur_block matches Some(b) ==> commit::all_summed_up(
            crate::hierarchy::lines_of_paragraphs(b.paragraphs@),
            self.mean,
        )
        &&& self.cur_para matches Some(p) ==> commit::all_summed_up(p.lines@, self.mean)
        &&& self.cur_line matches Some(l) ==> l.words@.len() > 0
    }

    /// What holds between any two words.
    pub closed spec fn wf(self) -> bool {
        &&& self.sound()
        &&& self.cur_block is Some == self.cur_para is Some
        &&& self.cur_para is Some == self.cur_line is Some
        &&& self.cur_block is None ==> self.hierarchy.blocks@.len() == 0
        &&& self.open_blocks() == layout::blocks_of(self.scanned@)
    }

    /// The other parts of the builder are those of `other`.
    closed spec fn same_setting(self, other: Self) -> bool {
        &&& self.mean == other.mean
        &&& self.zero == other.zero
        &&& self.scanned == other.scanned
    }
}

impl<C: Copy, F: Fn(&Vec<C>) -> C> HierarchyBuilder<C, F> {
    /// A page without words. `mean` is to average the confidences of a line, and
    /// `zero` is the confidence of a line that has none yet.
    pub fn new(mean: F, zero: C) -> (b: Self)
        requires
            commit::averages(mean),
        ensures
            b.wf(),
            b@ == Seq::<Scan<C>>::empty(),
            b.spec_mean() == mean,
    {
        let b = HierarchyBuilder {
            hierarchy: TesseractHierarchy::default(),
            cur_block: None,
            cur_para: None,
            cur_line: None,
            mean,
            zero,
            scanned: Ghost(Seq::empty()),
        };
        assert(b.open_blocks() =~= layout::blocks_of(b.scanned@));
        b
    }

    /// Closes the open line, if there is one, and opens another in the same paragraph.
    fn enter_line(&mut self, bbox: BoundingBox)
        requires
            old(self).sound(),
            old(self).cur_para is Some,
        ensures
            final(self).same_setting(*old(self)),
            final(self).hierarchy == old(self).hierarchy,
            final(self).cur_block == old(self).cur_block,
            final(self).cur_para matches Some(p) && {
                &&& p.bbox == old(self).cur_para->0.bbox
                &&& layout::line_layouts(p.lines@) == old(self).open_lines(old(self).cur_para->0)
                &&& commit::all_summed_up(p.lines@, final(self).mean)
            },
            final(self).cur_line matches Some(l) && l.bbox == bbox && l.words@.len() == 0,
    {
        commit_line(&mut self.cur_line, &mut self.cur_para, &self.mean);
        self.cur_line = Some(
            TesseractTextLine {
                text: String::new(),
                bbox,
                confidence: self.zero,
                words: Vec::new(),
            },
        );
        proof {
            lemma_line_closed(*old(self), self.cur_para->0);
        }
    }

    /// Closes the open paragraph, if there is one, with the line in it, and opens
    /// another in the same block.
    fn enter_paragraph(&mut self, bbox: BoundingBox)
        requires
            old(self).sound(),
            old(self).cur_block is Some,
            old(self).cur_para is Some == old(self).cur_line is Some,
        ensures
            final(self).sound(),
            final(self).same_setting(*old(self)),
            final(self).hierarchy == old(self).hierarchy,
            final(self).cur_block matches Some(b) && {
                &&& b.bbox == old(self).cur_block->0.bbox
                &&& layout::paragraph_layouts(b.paragraphs@) == old(self).open_paragraphs(
                    old(self).cur_block->0,
                )
            },
            final(self).cur_para matches Some(p) && p.bbox == bbox && p.lines@.len() == 0,
            final(self).cur_line is None,
    {
        commit_line(&mut self.cur_line, &mut self.cur_para, &self.mean);
        let ghost closed = self.cur_para;
        commit_para(&mut self.cur_para, &mut self.cur_block);
        self.cur_para = Some(TesseractParagraph { bbox, lines: Vec::new() });
        proof {
            if old(self).cur_para is Some {
                lemma_line_closed(*old(self), closed->0);
                lemma_paragraph_closed(*old(self), closed->0, self.cur_block->0);
            }
        }
    }

    /// Closes the open block, if there is one, with all that is in it, and opens
    /// another.
    fn enter_block(&mut self, bbox: BoundingBox)
        requires
            old(self).sound(),
            old(self).cur_block is Some == old(self).cur_para is Some,
            old(self).cur_para is Some == old(self).cur_line is Some,
        ensures
            final(self).sound(),
            final(self).same_setting(*old(self)),
            final(self).hierarchy.layout() == old(self).open_blocks(),
            final(self).cur_block matches Some(b) && b.bbox == bbox && b.paragraphs@.len() == 0,
            final(self).cur_para is None,
            final(self).cur_line is None,
    {
        self.close();
        self.cur_block = Some(TesseractBlock { bbox, paragraphs: Vec::new() });
    }

    /// Closes all that is open.
    fn close(&mut self)
        requires
            old(self).sound(),
            old(self).cur_block is Some == old(self).cur_para is Some,
            old(self).cur_para is Some == old(self).cur_line is Some,
        ensures
            final(self).sound(),
            final(self).same_setting(*old(self)),
            final(self).hierarchy.layout() == old(self).open_blocks(),
            final(self).cur_block is None,
            final(self).cur_para is None,
            final(self).cur_line is None,
    {
        commit_line(&mut self.cur_line, &mut self.cur_para, &self.mean);
        let ghost para = self.cur_para;
        commit_para(&mut self.cur_para, &mut self.cur_block);
        let ghost block = self.cur_block;
        commit_block(&mut self.cur_block, &mut self.hierarchy);
        proof {
            if old(self).cur_block is Some {
                lemma_line_closed(*old(self), para->0);
                lemma_paragraph_closed(*old(self), para->0, block->0);
                lemma_block_closed(*old(self), block->0, self.hierarchy);
            }
        }
    }

    /// Puts the next word of the page in its place: into the open line, or into a
    /// new line, paragraph or block where the word begins one.
    pub fn place(&mut self, word: ScannedWord<C>)
        requires
            old(self).wf(),
        ensures
            final(self).wf(),
            final(self)@ == old(self)@.push(word@),
            final(self)@.last().word.text == word.text@,
            final(self)@.last().word.bbox == word.bbox,
            final(self)@.last().word.confidence == word.confidence,
            final(self)@.last().block == word.block,
            final(self)@.last().paragraph == word.paragraph,
            final(self)@.last().line == word.line,
            final(self).spec_mean() == old(self).spec_mean(),
    {
        let ghost s = word@;
        let ghost blocks = self.open_blocks();
        if let Some(bbox) = word.block {
            self.enter_block(bbox);
        }
        if self.cur_block.is_none() {
            self.cur_block = Some(TesseractBlock::default());
        }
        let ghost at_block = *self;
        if let Some(bbox) = word.paragraph {
            self.enter_paragraph(bbox);
        }
        if self.cur_para.is_none() {
            self.cur_para = Some(TesseractParagraph::default());
        }
        let ghost at_paragraph = *self;
        if let Some(bbox) = word.line {
            self.enter_line(bbox);
        }
        if self.cur_line.is_none() {
            self.enter_line(BoundingBox::default());
        }
        let ghost at_line = *self;
        let w = TesseractWord { text: word.text, bbox: word.bbox, confidence: word.confidence };
        if let Some(line) = &mut self.cur_line {
            line.words.push(w);
        }
        self.scanned = Ghost(self.scanned@.push(s));
        proof {
            let b = at_block.cur_block->0;
            let p = at_paragraph.cur_para->0;
            let l = at_line.cur_line->0;
            layout::lemma_of_one(s);
            assert(self.cur_line->0.words@ =~= l.words@.push(w));
            assert(self.cur_line->0.layout().words =~= l.layout().words.push(s.word));
            if s.line is Some || at_paragraph.cur_line is None {
                assert(at_line.cur_line->0.layout().words =~= Seq::empty());
                assert(self.cur_line->0.layout() =~= layout::line_of(seq![s]));
                assert(at_paragraph.cur_line is None ==> at_paragraph.open_lines(p).len() == 0);
            } else {
                assert(at_line == at_paragraph);
                assert(at_paragraph.open_lines(p).last() == l.layout());
            }
            assert(self.open_lines(self.cur_para->0) =~= layout::lines_then(
                at_paragraph.open_lines(p),
                s,
            ));
            if s.paragraph is Some || at_block.cur_para is None {
                assert(at_paragraph.open_lines(p) =~= Seq::empty());
                assert(self.open_lines(self.cur_para->0) =~= seq![layout::line_of(seq![s])]);
                assert(at_block.cur_para is None ==> at_block.open_paragraphs(b).len() == 0);
            } else {
                assert(at_paragraph == at_block);
            }
            assert(self.open_paragraphs(self.cur_block->0) =~= layout::paragraphs_then(
                at_block.open_paragraphs(b),
                s,
            ));
            if s.block is Some || old(self).cur_block is None {
                assert(at_block.open_paragraphs(b) =~= Seq::empty());
                assert(self.open_paragraphs(self.cur_block->0) =~= seq![
                    layout::paragraph_of(seq![s]),
                ]);
            } else {
                assert(at_block == *old(self));
            }
            assert(self.open_blocks() =~= layout::blocks_then(blocks, s));
            layout::lemma_blocks_extend(old(self).scanned@, s);
        }
    }

    /// Closes the page.
    pub fn finish(self) -> (h: TesseractHierarchy<C>)
        requires
            self.wf(),
        ensures
            is_tree_of(h, self@, self.spec_mean()),
    {
        let mut b = self;
        b.close();
        b.hierarchy
    }
}

proof fn lemma_paragraph_closed<C, F: Fn(&Vec<C>) -> C>(
    before: HierarchyBuilder<C, F>,
    p: TesseractParagraph<C>,
    b: TesseractBlock<C>,
)
    requires
        before.sound(),
        before.cur_para matches Some(q) && p.bbox == q.bbox && layout::line_layouts(p.lines@)
            == before.open_lines(q),
        commit::all_summed_up(p.lines@, before.mean),
        before.cur_line is Some,
        before.cur_block matches Some(c) && b.bbox == c.bbox && b.paragraphs@ == (
        if p.lines@.len() > 0 {
            c.paragraphs@.push(p)
        } else {
            c.paragraphs@
        }),
    ensures
        layout::paragraph_layouts(b.paragraphs@) == before.open_paragraphs(before.cur_block->0),
        commit::all_summed_up(crate::hierarchy::lines_of_paragraphs(b.paragraphs@), before.mean),
        b.paragraphs@.len() > 0,
{
    let c = before.cur_block->0;
    assert(layout::line_layouts(p.lines@).len() > 0);
    assert(layout::paragraph_layouts(b.paragraphs@) =~= before.open_paragraphs(c));
    c.paragraphs@.lemma_flat_map_push(|p: TesseractParagraph<C>| p.lines@, p);
    lemma_all_summed_up_add(
        crate::hierarchy::lines_of_paragraphs(c.paragraphs@),
        p.lines@,
        before.mean,
    );
}

proof fn lemma_block_closed<C, F: Fn(&Vec<C>) -> C>(
    before: HierarchyBuilder<C, F>,
    b: TesseractBlock<C>,
    h: TesseractHierarchy<C>,
)
    requires
        before.sound(),
        before.cur_block matches Some(c) && b.bbox == c.bbox && layout::paragraph_layouts(
            b.paragraphs@,
        ) == before.open_paragraphs(c),
        commit::all_summed_up(crate::hierarchy::lines_of_paragraphs(b.paragraphs@), before.mean),
        h.blocks@ == before.hierarchy.blocks@.push(b),
    ensures
        h.layout() == before.open_blocks(),
        commit::all_summed_up(h.spec_lines(), before.mean),
{
    assert(h.layout() =~= before.open_blocks());
    before.hierarchy.blocks@.lemma_flat_map_push(
        |b: TesseractBlock<C>| crate::hierarchy::lines_of_paragraphs(b.paragraphs@),
        b,
    );
    lemma_all_summed_up_add(
        before.hierarchy.spec_lines(),
        crate::hierarchy::lines_of_paragraphs(b.paragraphs@),
        before.mean,
    );
}

proof fn lemma_all_summed_up_add<C, F: Fn(&Vec<C>) -> C>(
    a: Seq<TesseractTextLine<C>>,
    b: Seq<TesseractTextLine<C>>,
    mean: F,
)
    requires
        commit::all_summed_up(a, mean),
        commit::all_summed_up(b, mean),
    ensures
        commit::all_summed_up(a + b, mean),
{
    assert forall|i: int| 0 <= i < (a + b).len() implies commit::summed_up(#[trigger] (a + b)[i], mean) by {
        if i < a.len() {
            assert((a + b)[i] == a[i]);
        } else {
            assert((a + b)[i] == b[i - a.len()]);
        }
    }
}

proof fn lemma_line_closed<C, F: Fn(&Vec<C>) -> C>(
    before: HierarchyBuilder<C, F>,
    q: TesseractParagraph<C>,
)
    requires
        before.sound(),
        before.cur_para matches Some(p) && match before.cur_line {
            Some(line) => {
                &&& q.bbox == p.bbox
                &&& q.lines@.len() == p.lines@.len() + 1
                &&& q.lines@.drop_last() == p.lines@
                &&& q.lines@.last().bbox == line.bbox
                &&& q.lines@.last().words == line.words
                &&& commit::summed_up(q.lines@.last(), before.mean)
            },
            None => q == p,
        },
    ensures
        layout::line_layouts(q.lines@) == before.open_lines(before.cur_para->0),
        commit::all_summed_up(q.lines@, before.mean),
{
    let p = before.cur_para->0;
    assert(layout::line_layouts(q.lines@) =~= before.open_lines(p));
    assert forall|i: int| 0 <= i < q.lines@.len() implies commit::summed_up(
        #[trigger] q.lines@[i],
        before.mean,
    ) by {
        if before.cur_line is Some && i < p.lines@.len() {
            assert(q.lines@.drop_last()[i] == p.lines@[i]);
        }
    }
}

/// The tree of a page holds every word of the page, once, in reading order, and no
/// other.
pub proof fn tree_keeps_every_word<C, F: Fn(&Vec<C>) -> C>(
    h: TesseractHierarchy<C>,
    page: Seq<Scan<C>>,
    mean: F,
)
    requires
        is_tree_of(h, page, mean),
    ensures
        layout::word_views(h.spec_words()) == layout::scanned_words(page),
{
    layout::lemma_words_of_layout(h);
    layout::layout_keeps_every_word(page);
}

/// In the tree of a page every block has a paragraph, every paragraph a line and
/// every line a word.
pub proof fn tree_has_no_empty_part<C, F: Fn(&Vec<C>) -> C>(
    h: TesseractHierarchy<C>,
    page: Seq<Scan<C>>,
    mean: F,
)
    requires
        is_tree_of(h, page, mean),
    ensures
        forall|i: int|
            0 <= i < h.blocks@.len() ==> (#[trigger] h.blocks@[i]).paragraphs@.len() > 0,
        forall|i: int, j: int|
            0 <= i < h.blocks@.len() && 0 <= j < h.blocks@[i].paragraphs@.len() ==> (
            #[trigger] h.blocks@[i].paragraphs@[j]).lines@.len() > 0,
        forall|i: int, j: int, k: int|
            0 <= i < h.blocks@.len() && 0 <= j < h.blocks@[i].paragraphs@.len() && 0 <= k
                < h.blocks@[i].paragraphs@[j].lines@.len() ==> (
            #[trigger] h.blocks@[i].paragraphs@[j].lines@[k]).words@.len() > 0,
{
    let blocks = layout::blocks_of(page);
    layout::layout_has_no_empty_part(page);
    assert(h.layout() == blocks);
    assert forall|i: int| 0 <= i < h.blocks@.len() implies (
    #[trigger] h.blocks@[i]).paragraphs@.len() > 0 by {
        assert(h.blocks@[i].layout() == blocks[i]);
    }
    assert forall|i: int, j: int|
        0 <= i < h.blocks@.len() && 0 <= j < h.blocks@[i].paragraphs@.len() implies (
    #[trigger] h.blocks@[i].paragraphs@[j]).lines@.len() > 0 by {
        assert(h.blocks@[i].layout() == blocks[i]);
        assert(h.blocks@[i].paragraphs@[j].layout() == blocks[i].paragraphs[j]);
    }
    assert forall|i: int, j: int, k: int|
        0 <= i < h.blocks@.len() && 0 <= j < h.blocks@[i].paragraphs@.len() && 0 <= k
            < h.blocks@[i].paragraphs@[j].lines@.len() implies (
    #[trigger] h.blocks@[i].paragraphs@[j].lines@[k]).words@.len() > 0 by {
        assert(h.blocks@[i].layout() == blocks[i]);
        assert(h.blocks@[i].paragraphs@[j].layout() == blocks[i].paragraphs[j]);
        assert(h.blocks@[i].paragraphs@[j].lines@[k].layout()
            == blocks[i].paragraphs[j].lines[k]);
    }
}

} // verus!
