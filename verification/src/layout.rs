//! The mathematical model of a page: how the words that a walk comes across,
//! with the boundaries that it sees at each of them, make up a tree.

use vstd::prelude::*;

use crate::geometry::BoundingBox;
use crate::hierarchy;
use crate::hierarchy::{
    TesseractBlock, TesseractHierarchy, TesseractParagraph, TesseractTextLine, TesseractWord,
};

verus! {

/// What a word holds.
#[verifier::ext_equal]
pub struct WordView<C> {
    pub text: Seq<char>,
    pub bbox: BoundingBox,
    pub confidence: C,
}

/// What a line holds.
#[verifier::ext_equal]
pub struct LineView<C> {
    pub text: Seq<char>,
    pub bbox: BoundingBox,
    pub confidence: C,
    pub words: Seq<WordView<C>>,
}

/// What a paragraph holds.
#[verifier::ext_equal]
pub struct ParagraphView<C> {
    pub bbox: BoundingBox,
    pub lines: Seq<LineView<C>>,
}

/// What a line encloses.
#[verifier::ext_equal]
pub struct LineLayout<C> {
    pub bbox: BoundingBox,
    pub words: Seq<WordView<C>>,
}

/// What a paragraph encloses.
#[verifier::ext_equal]
pub struct ParagraphLayout<C> {
    pub bbox: BoundingBox,
    pub lines: Seq<LineLayout<C>>,
}

/// What a block encloses.
#[verifier::ext_equal]
pub struct BlockLayout<C> {
    pub bbox: BoundingBox,
    pub paragraphs: Seq<ParagraphLayout<C>>,
}

/// A word as a walk comes across it. For each of the levels above the word: the
/// box of the block, paragraph or line that begins with this word, if one does.
#[verifier::ext_equal]
pub struct Scan<C> {
    pub word: WordView<C>,
    pub block: Option<BoundingBox>,
    pub paragraph: Option<BoundingBox>,
    pub line: Option<BoundingBox>,
}

impl<C> View for TesseractWord<C> {
    type V = WordView<C>;

    open spec fn view(&self) -> WordView<C> {
        WordView { text: self.text@, bbox: self.bbox, confidence: self.confidence }
    }
}

impl<C> View for TesseractTextLine<C> {
    type V = LineView<C>;

    open spec fn view(&self) -> LineView<C> {
        LineView {
            text: self.text@,
            bbox: self.bbox,
            confidence: self.confidence,
            words: word_views(self.words@),
        }
    }
}

impl<C> View for TesseractParagraph<C> {
    type V = ParagraphView<C>;

    open spec fn view(&self) -> ParagraphView<C> {
        ParagraphView {
            bbox: self.bbox,
            lines: self.lines@.map_values(|l: TesseractTextLine<C>| l@),
        }
    }
}

impl<C> TesseractTextLine<C> {
    /// What the line encloses.
    pub open spec fn layout(self) -> LineLayout<C> {
        LineLayout { bbox: self.bbox, words: word_views(self.words@) }
    }
}

impl<C> TesseractParagraph<C> {
    /// What the paragraph encloses.
    pub open spec fn layout(self) -> ParagraphLayout<C> {
        ParagraphLayout { bbox: self.bbox, lines: line_layouts(self.lines@) }
    }
}

impl<C> TesseractBlock<C> {
    /// What the block encloses.
    pub open spec fn layout(self) -> BlockLayout<C> {
        BlockLayout { bbox: self.bbox, paragraphs: paragraph_layouts(self.paragraphs@) }
    }
}

impl<C> TesseractHierarchy<C> {
    /// The shape of the tree, with everything that it holds but the texts and
    /// the confidences of the lines.
    pub open spec fn layout(self) -> Seq<BlockLayout<C>> {
        block_layouts(self.blocks@)
    }
}

pub open spec fn word_views<C>(words: Seq<TesseractWord<C>>) -> Seq<WordView<C>> {
    words.map_values(|w: TesseractWord<C>| w@)
}

pub open spec fn line_layouts<C>(lines: Seq<TesseractTextLine<C>>) -> Seq<LineLayout<C>> {
    lines.map_values(|l: TesseractTextLine<C>| l.layout())
}

pub open spec fn paragraph_layouts<C>(paragraphs: Seq<TesseractParagraph<C>>) -> Seq<
    ParagraphLayout<C>,
> {
    paragraphs.map_values(|p: TesseractParagraph<C>| p.layout())
}

pub open spec fn block_layouts<C>(blocks: Seq<TesseractBlock<C>>) -> Seq<BlockLayout<C>> {
    blocks.map_values(|b: TesseractBlock<C>| b.layout())
}

/// `s` cut in front of each element that `starts` picks out.
pub open spec fn runs<A>(s: Seq<A>, starts: spec_fn(A) -> bool) -> Seq<Seq<A>>
    decreases s.len(),
{
    if s.len() == 0 {
        Seq::empty()
    } else {
        let before = runs(s.drop_last(), starts);
        if before.len() == 0 || starts(s.last()) {
            before.push(seq![s.last()])
        } else {
            before.drop_last().push(before.last().push(s.last()))
        }
    }
}

/// The box that was seen, or the one that stands for a missing box.
pub open spec fn box_or_origin(seen: Option<BoundingBox>) -> BoundingBox {
    match seen {
        Some(bbox) => bbox,
        None => BoundingBox::origin(),
    }
}

/// The line that a run of words makes up.
pub open spec fn line_of<C>(run: Seq<Scan<C>>) -> LineLayout<C> {
    LineLayout {
        bbox: box_or_origin(run.first().line),
        words: run.map_values(|s: Scan<C>| s.word),
    }
}

/// The lines of a run of words: a line ends in front of each word that begins one.
pub open spec fn lines_of<C>(run: Seq<Scan<C>>) -> Seq<LineLayout<C>> {
    runs(run, |s: Scan<C>| s.line is Some).map_values(|r: Seq<Scan<C>>| line_of(r))
}

/// The paragraph that a run of words makes up.
pub open spec fn paragraph_of<C>(run: Seq<Scan<C>>) -> ParagraphLayout<C> {
    ParagraphLayout { bbox: box_or_origin(run.first().paragraph), lines: lines_of(run) }
}

/// The paragraphs of a run of words: a paragraph ends in front of each word that
/// begins one.
pub open spec fn paragraphs_of<C>(run: Seq<Scan<C>>) -> Seq<ParagraphLayout<C>> {
    runs(run, |s: Scan<C>| s.paragraph is Some).map_values(|r: Seq<Scan<C>>| paragraph_of(r))
}

/// The block that a run of words makes up.
pub open spec fn block_of<C>(run: Seq<Scan<C>>) -> BlockLayout<C> {
    BlockLayout { bbox: box_or_origin(run.first().block), paragraphs: paragraphs_of(run) }
}

/// The blocks of a page: a block ends in front of each word that begins one.
pub open spec fn blocks_of<C>(page: Seq<Scan<C>>) -> Seq<BlockLayout<C>> {
    runs(page, |s: Scan<C>| s.block is Some).map_values(|r: Seq<Scan<C>>| block_of(r))
}

/// The lines `lines` when one more word comes after their words.
pub open spec fn lines_then<C>(lines: Seq<LineLayout<C>>, s: Scan<C>) -> Seq<LineLayout<C>> {
    if lines.len() == 0 || s.line is Some {
        lines.push(line_of(seq![s]))
    } else {
        lines.drop_last().push(
            LineLayout { bbox: lines.last().bbox, words: lines.last().words.push(s.word) },
        )
    }
}

/// The paragraphs `paragraphs` when one more word comes after their words.
pub open spec fn paragraphs_then<C>(paragraphs: Seq<ParagraphLayout<C>>, s: Scan<C>) -> Seq<
    ParagraphLayout<C>,
> {
    if paragraphs.len() == 0 || s.paragraph is Some {
        paragraphs.push(paragraph_of(seq![s]))
    } else {
        paragraphs.drop_last().push(
            ParagraphLayout {
                bbox: paragraphs.last().bbox,
                lines: lines_then(paragraphs.last().lines, s),
            },
        )
    }
}

/// The blocks `blocks` when one more word comes after their words.
pub open spec fn blocks_then<C>(blocks: Seq<BlockLayout<C>>, s: Scan<C>) -> Seq<BlockLayout<C>> {
    if blocks.len() == 0 || s.block is Some {
        blocks.push(block_of(seq![s]))
    } else {
        blocks.drop_last().push(
            BlockLayout {
                bbox: blocks.last().bbox,
                paragraphs: paragraphs_then(blocks.last().paragraphs, s),
            },
        )
    }
}

/// Cutting loses, repeats and reorders nothing; no run is empty; a run begins at
/// an element that starts one, unless it is the first, and holds no other.
pub proof fn runs_partition<A>(s: Seq<A>, starts: spec_fn(A) -> bool)
    ensures
        runs(s, starts).flatten() == s,
        forall|i: int| 0 <= i < runs(s, starts).len() ==> (#[trigger] runs(s, starts)[i]).len() > 0,
        forall|i: int|
            0 < i < runs(s, starts).len() ==> starts((#[trigger] runs(s, starts)[i]).first()),
        forall|i: int, k: int|
            0 <= i < runs(s, starts).len() && 0 < k < runs(s, starts)[i].len() ==> !starts(
                #[trigger] runs(s, starts)[i][k],
            ),
    decreases s.len(),
{
    if s.len() > 0 {
        let all = runs(s, starts);
        let before = runs(s.drop_last(), starts);
        runs_partition(s.drop_last(), starts);
        assert(s =~= s.drop_last().push(s.last()));
        if before.len() == 0 || starts(s.last()) {
            before.lemma_flatten_push(seq![s.last()]);
        } else {
            let kept = before.drop_last();
            assert(before =~= kept.push(before.last()));
            kept.lemma_flatten_push(before.last());
            kept.lemma_flatten_push(before.last().push(s.last()));
            assert(all.flatten() =~= s);
            assert forall|i: int| 0 < i < all.len() implies starts((#[trigger] all[i]).first()) by {
                assert(starts(before[i].first()));
            }
            assert forall|i: int, k: int|
                0 <= i < all.len() && 0 < k < all[i].len() implies !starts(
                #[trigger] all[i][k],
            ) by {
                if k < before[i].len() {
                    assert(!starts(before[i][k]));
                }
            }
        }
    }
}

/// The words of a sequence of lines, in order.
pub open spec fn words_in_lines<C>(lines: Seq<LineLayout<C>>) -> Seq<WordView<C>> {
    lines.flat_map(|l: LineLayout<C>| l.words)
}

/// The words of a sequence of paragraphs, in order.
pub open spec fn words_in_paragraphs<C>(paragraphs: Seq<ParagraphLayout<C>>) -> Seq<WordView<C>> {
    paragraphs.flat_map(|p: ParagraphLayout<C>| words_in_lines(p.lines))
}

/// The words of a sequence of blocks, in order.
pub open spec fn words_in_blocks<C>(blocks: Seq<BlockLayout<C>>) -> Seq<WordView<C>> {
    blocks.flat_map(|b: BlockLayout<C>| words_in_paragraphs(b.paragraphs))
}

/// The words that a walk came across, in order.
pub open spec fn scanned_words<C>(page: Seq<Scan<C>>) -> Seq<WordView<C>> {
    page.map_values(|s: Scan<C>| s.word)
}

/// The tree holds every word of the page, once, in reading order, and no other.
pub proof fn layout_keeps_every_word<C>(page: Seq<Scan<C>>)
    ensures
        words_in_blocks(blocks_of(page)) == scanned_words(page),
    decreases page.len(),
{
    if page.len() > 0 {
        let rest = page.drop_last();
        let s = page.last();
        layout_keeps_every_word(rest);
        lemma_blocks_extend(rest, s);
        assert(page =~= rest.push(s));
        assert(scanned_words(page) =~= scanned_words(rest).push(s.word));
        lemma_words_in_blocks_then(blocks_of(rest), s);
    }
}

/// Every block has a paragraph, every paragraph a line, every line a word.
pub proof fn layout_has_no_empty_part<C>(page: Seq<Scan<C>>)
    ensures
        forall|i: int|
            0 <= i < blocks_of(page).len() ==> (#[trigger] blocks_of(page)[i]).paragraphs.len() > 0,
        forall|i: int, j: int|
            0 <= i < blocks_of(page).len() && 0 <= j < blocks_of(page)[i].paragraphs.len() ==> (
            #[trigger] blocks_of(page)[i].paragraphs[j]).lines.len() > 0,
        forall|i: int, j: int, k: int|
            0 <= i < blocks_of(page).len() && 0 <= j < blocks_of(page)[i].paragraphs.len() && 0 <= k
                < blocks_of(page)[i].paragraphs[j].lines.len() ==> (
            #[trigger] blocks_of(page)[i].paragraphs[j].lines[k]).words.len() > 0,
{
    let at_block = |s: Scan<C>| s.block is Some;
    let at_paragraph = |s: Scan<C>| s.paragraph is Some;
    let at_line = |s: Scan<C>| s.line is Some;
    let block_runs = runs(page, at_block);
    runs_partition(page, at_block);
    assert forall|i: int| 0 <= i < blocks_of(page).len() implies (
    #[trigger] blocks_of(page)[i]).paragraphs.len() > 0 by {
        lemma_runs_of_some(block_runs[i], at_paragraph);
    }
    assert forall|i: int, j: int|
        0 <= i < blocks_of(page).len() && 0 <= j < blocks_of(page)[i].paragraphs.len() implies (
    #[trigger] blocks_of(page)[i].paragraphs[j]).lines.len() > 0 by {
        let run = runs(block_runs[i], at_paragraph)[j];
        runs_partition(block_runs[i], at_paragraph);
        lemma_runs_of_some(run, at_line);
    }
    assert forall|i: int, j: int, k: int|
        0 <= i < blocks_of(page).len() && 0 <= j < blocks_of(page)[i].paragraphs.len() && 0 <= k
            < blocks_of(page)[i].paragraphs[j].lines.len() implies (
    #[trigger] blocks_of(page)[i].paragraphs[j].lines[k]).words.len() > 0 by {
        let run = runs(block_runs[i], at_paragraph)[j];
        runs_partition(run, at_line);
        assert(runs(run, at_line)[k].len() > 0);
    }
}

/// No boundary is passed over: besides the first, there is one block for each word
/// behind the first that begins a block; and so for the paragraphs of the words of
/// a block and for the lines of the words of a paragraph.
pub proof fn every_boundary_is_kept<C>(page: Seq<Scan<C>>)
    requires
        page.len() > 0,
    ensures
        blocks_of(page).len() == 1 + page.drop_first().filter(
            |s: Scan<C>| s.block is Some,
        ).len(),
        paragraphs_of(page).len() == 1 + page.drop_first().filter(
            |s: Scan<C>| s.paragraph is Some,
        ).len(),
        lines_of(page).len() == 1 + page.drop_first().filter(|s: Scan<C>| s.line is Some).len(),
{
    lemma_runs_count(page, |s: Scan<C>| s.block is Some);
    lemma_runs_count(page, |s: Scan<C>| s.paragraph is Some);
    lemma_runs_count(page, |s: Scan<C>| s.line is Some);
}

proof fn lemma_runs_count<A>(s: Seq<A>, starts: spec_fn(A) -> bool)
    requires
        s.len() > 0,
    ensures
        runs(s, starts).len() == 1 + s.drop_first().filter(starts).len(),
    decreases s.len(),
{
    let rest = s.drop_last();
    if rest.len() == 0 {
        assert(runs(rest, starts).len() == 0);
        assert(s.drop_first().filter(starts).len() == 0) by {
            reveal(Seq::filter);
        }
    } else {
        lemma_runs_count(rest, starts);
        assert(s.drop_first() =~= rest.drop_first().push(s.last()));
        rest.drop_first().lemma_filter_push(s.last(), starts);
    }
}

/// The words of a hierarchy are those of its layout.
pub(crate) proof fn lemma_words_of_layout<C>(h: TesseractHierarchy<C>)
    ensures
        word_views(h.spec_words()) == words_in_blocks(h.layout()),
{
    lemma_words_of_block_layouts(h.blocks@);
}

proof fn lemma_runs_of_some<A>(s: Seq<A>, starts: spec_fn(A) -> bool)
    requires
        s.len() > 0,
    ensures
        runs(s, starts).len() > 0,
{
}

/// What one more element does to the runs.
proof fn lemma_runs_push<A>(s: Seq<A>, a: A, starts: spec_fn(A) -> bool)
    ensures
        s.len() == 0 ==> runs(s, starts).len() == 0,
        s.len() > 0 ==> runs(s, starts).len() > 0,
        runs(s.push(a), starts) == if s.len() == 0 || starts(a) {
            runs(s, starts).push(seq![a])
        } else {
            runs(s, starts).drop_last().push(runs(s, starts).last().push(a))
        },
{
    assert(s.push(a).drop_last() =~= s);
}

proof fn lemma_lines_extend<C>(run: Seq<Scan<C>>, s: Scan<C>)
    ensures
        lines_of(run.push(s)) == lines_then(lines_of(run), s),
{
    let starts = |s: Scan<C>| s.line is Some;
    lemma_runs_push(run, s, starts);
    runs_partition(run, starts);
    if run.len() == 0 || starts(s) {
        assert(lines_of(run.push(s)) =~= lines_of(run).push(line_of(seq![s])));
    } else {
        let last = runs(run, starts).last();
        assert(last.len() > 0);
        assert(last.push(s).first() == last.first());
        assert(line_of(last.push(s)).words =~= line_of(last).words.push(s.word));
        assert(lines_of(run).last() == line_of(last));
        assert(lines_of(run.push(s)) =~= lines_then(lines_of(run), s));
    }
}

proof fn lemma_paragraphs_extend<C>(run: Seq<Scan<C>>, s: Scan<C>)
    ensures
        paragraphs_of(run.push(s)) == paragraphs_then(paragraphs_of(run), s),
{
    let starts = |s: Scan<C>| s.paragraph is Some;
    lemma_runs_push(run, s, starts);
    runs_partition(run, starts);
    if run.len() == 0 || starts(s) {
        assert(paragraphs_of(run.push(s)) =~= paragraphs_of(run).push(paragraph_of(seq![s])));
    } else {
        let last = runs(run, starts).last();
        assert(last.len() > 0);
        assert(last.push(s).first() == last.first());
        lemma_lines_extend(last, s);
        assert(paragraphs_of(run).last() == paragraph_of(last));
        assert(paragraphs_of(run.push(s)) =~= paragraphs_then(paragraphs_of(run), s));
    }
}

pub(crate) proof fn lemma_blocks_extend<C>(page: Seq<Scan<C>>, s: Scan<C>)
    ensures
        blocks_of(page.push(s)) == blocks_then(blocks_of(page), s),
{
    let starts = |s: Scan<C>| s.block is Some;
    lemma_runs_push(page, s, starts);
    runs_partition(page, starts);
    if page.len() == 0 || starts(s) {
        assert(blocks_of(page.push(s)) =~= blocks_of(page).push(block_of(seq![s])));
    } else {
        let last = runs(page, starts).last();
        assert(last.len() > 0);
        assert(last.push(s).first() == last.first());
        lemma_paragraphs_extend(last, s);
        assert(blocks_of(page).last() == block_of(last));
        assert(blocks_of(page.push(s)) =~= blocks_then(blocks_of(page), s));
    }
}

/// What a single word makes up.
pub(crate) proof fn lemma_of_one<C>(s: Scan<C>)
    ensures
        line_of(seq![s]) == (LineLayout { bbox: box_or_origin(s.line), words: seq![s.word] }),
        paragraph_of(seq![s]) == (ParagraphLayout {
            bbox: box_or_origin(s.paragraph),
            lines: seq![line_of(seq![s])],
        }),
        block_of(seq![s]) == (BlockLayout {
            bbox: box_or_origin(s.block),
            paragraphs: seq![paragraph_of(seq![s])],
        }),
{
    let none = Seq::<Scan<C>>::empty();
    assert(seq![s] =~= none.push(s));
    lemma_lines_extend(none, s);
    lemma_paragraphs_extend(none, s);
    assert(line_of(seq![s]).words =~= seq![s.word]);
    assert(lines_of(seq![s]) =~= seq![line_of(seq![s])]);
    assert(paragraphs_of(seq![s]) =~= seq![paragraph_of(seq![s])]);
}

proof fn lemma_words_in_lines_then<C>(lines: Seq<LineLayout<C>>, s: Scan<C>)
    ensures
        words_in_lines(lines_then(lines, s)) == words_in_lines(lines).push(s.word),
{
    let f = |l: LineLayout<C>| l.words;
    let new = lines_then(lines, s);
    lemma_of_one(s);
    assert(new =~= new.drop_last().push(new.last()));
    new.drop_last().lemma_flat_map_push(f, new.last());
    if lines.len() == 0 || s.line is Some {
        assert(new.drop_last() =~= lines);
    } else {
        assert(new.drop_last() =~= lines.drop_last());
        assert(lines =~= lines.drop_last().push(lines.last()));
        lines.drop_last().lemma_flat_map_push(f, lines.last());
    }
    assert(words_in_lines(new) =~= words_in_lines(lines).push(s.word));
}

proof fn lemma_words_in_paragraphs_then<C>(paragraphs: Seq<ParagraphLayout<C>>, s: Scan<C>)
    ensures
        words_in_paragraphs(paragraphs_then(paragraphs, s)) == words_in_paragraphs(paragraphs).push(
            s.word,
        ),
{
    let f = |p: ParagraphLayout<C>| words_in_lines(p.lines);
    let new = paragraphs_then(paragraphs, s);
    let none = Seq::<LineLayout<C>>::empty();
    lemma_of_one(s);
    assert(new =~= new.drop_last().push(new.last()));
    new.drop_last().lemma_flat_map_push(f, new.last());
    if paragraphs.len() == 0 || s.paragraph is Some {
        assert(new.drop_last() =~= paragraphs);
        lemma_words_in_lines_then(none, s);
        assert(lines_then(none, s) =~= new.last().lines);
    } else {
        assert(new.drop_last() =~= paragraphs.drop_last());
        assert(paragraphs =~= paragraphs.drop_last().push(paragraphs.last()));
        paragraphs.drop_last().lemma_flat_map_push(f, paragraphs.last());
        lemma_words_in_lines_then(paragraphs.last().lines, s);
    }
    assert(words_in_paragraphs(new) =~= words_in_paragraphs(paragraphs).push(s.word));
}

proof fn lemma_words_in_blocks_then<C>(blocks: Seq<BlockLayout<C>>, s: Scan<C>)
    ensures
        words_in_blocks(blocks_then(blocks, s)) == words_in_blocks(blocks).push(s.word),
{
    let f = |b: BlockLayout<C>| words_in_paragraphs(b.paragraphs);
    let new = blocks_then(blocks, s);
    let none = Seq::<ParagraphLayout<C>>::empty();
    lemma_of_one(s);
    assert(new =~= new.drop_last().push(new.last()));
    new.drop_last().lemma_flat_map_push(f, new.last());
    if blocks.len() == 0 || s.block is Some {
        assert(new.drop_last() =~= blocks);
        lemma_words_in_paragraphs_then(none, s);
        assert(paragraphs_then(none, s) =~= new.last().paragraphs);
    } else {
        assert(new.drop_last() =~= blocks.drop_last());
        assert(blocks =~= blocks.drop_last().push(blocks.last()));
        blocks.drop_last().lemma_flat_map_push(f, blocks.last());
        lemma_words_in_paragraphs_then(blocks.last().paragraphs, s);
    }
    assert(words_in_blocks(new) =~= words_in_blocks(blocks).push(s.word));
}

proof fn lemma_words_of_line_layouts<C>(lines: Seq<TesseractTextLine<C>>)
    ensures
        word_views(hierarchy::words_of_lines(lines)) == words_in_lines(line_layouts(lines)),
    decreases lines.len(),
{
    if lines.len() > 0 {
        let rest = lines.drop_last();
        let last = lines.last();
        lemma_words_of_line_layouts(rest);
        assert(lines =~= rest.push(last));
        rest.lemma_flat_map_push(|l: TesseractTextLine<C>| l.words@, last);
        assert(line_layouts(lines) =~= line_layouts(rest).push(last.layout()));
        line_layouts(rest).lemma_flat_map_push(|l: LineLayout<C>| l.words, last.layout());
        assert(word_views(hierarchy::words_of_lines(lines)) =~= word_views(hierarchy::words_of_lines(rest)) + word_views(
            last.words@,
        ));
    }
}

proof fn lemma_words_of_paragraph_layouts<C>(paragraphs: Seq<TesseractParagraph<C>>)
    ensures
        word_views(hierarchy::words_of_lines(hierarchy::lines_of_paragraphs(paragraphs))) == words_in_paragraphs(
            paragraph_layouts(paragraphs),
        ),
    decreases paragraphs.len(),
{
    if paragraphs.len() > 0 {
        let rest = paragraphs.drop_last();
        let last = paragraphs.last();
        lemma_words_of_paragraph_layouts(rest);
        lemma_words_of_line_layouts(last.lines@);
        assert(paragraphs =~= rest.push(last));
        rest.lemma_flat_map_push(|p: TesseractParagraph<C>| p.lines@, last);
        lemma_word_views_add(hierarchy::lines_of_paragraphs(rest), last.lines@);
        assert(paragraph_layouts(paragraphs) =~= paragraph_layouts(rest).push(last.layout()));
        paragraph_layouts(rest).lemma_flat_map_push(
            |p: ParagraphLayout<C>| words_in_lines(p.lines),
            last.layout(),
        );
    }
}

proof fn lemma_words_of_block_layouts<C>(blocks: Seq<TesseractBlock<C>>)
    ensures
        word_views(hierarchy::words_of_lines(hierarchy::lines_of_blocks(blocks))) == words_in_blocks(
            block_layouts(blocks),
        ),
    decreases blocks.len(),
{
    if blocks.len() > 0 {
        let rest = blocks.drop_last();
        let last = blocks.last();
        lemma_words_of_block_layouts(rest);
        lemma_words_of_paragraph_layouts(last.paragraphs@);
        assert(blocks =~= rest.push(last));
        rest.lemma_flat_map_push(
            |b: TesseractBlock<C>| hierarchy::lines_of_paragraphs(b.paragraphs@),
            last,
        );
        lemma_word_views_add(hierarchy::lines_of_blocks(rest), hierarchy::lines_of_paragraphs(last.paragraphs@));
        assert(block_layouts(blocks) =~= block_layouts(rest).push(last.layout()));
        block_layouts(rest).lemma_flat_map_push(
            |b: BlockLayout<C>| words_in_paragraphs(b.paragraphs),
            last.layout(),
        );
    }
}

proof fn lemma_word_views_add<C>(a: Seq<TesseractTextLine<C>>, b: Seq<TesseractTextLine<C>>)
    ensures
        word_views(hierarchy::words_of_lines(a + b)) == word_views(hierarchy::words_of_lines(a))
            + word_views(hierarchy::words_of_lines(b)),
{
    hierarchy::lemma_words_of_lines_add(a, b);
    assert(word_views(hierarchy::words_of_lines(a + b)) =~= word_views(
        hierarchy::words_of_lines(a),
    ) + word_views(hierarchy::words_of_lines(b)));
}

} // verus!
