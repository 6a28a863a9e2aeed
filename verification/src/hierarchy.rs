//! The recognized page as a tree: blocks of paragraphs of text lines of words.
//!
//! The types are generic in `C`, the type of a confidence. The tree carries
//! confidences and never computes with them.

use vstd::prelude::*;

use crate::geometry::BoundingBox;

verus! {

/// One recognized word.
#[derive(Debug, Clone, PartialEq)]
pub struct TesseractWord<C> {
    pub text: String,
    pub bbox: BoundingBox,
    pub confidence: C,
}

/// One line of text. `text` holds the texts of the words, in reading order and
/// separated by single spaces, and `confidence` is the mean of theirs.
#[derive(Debug, Clone, PartialEq)]
pub struct TesseractTextLine<C> {
    pub text: String,
    pub bbox: BoundingBox,
    pub confidence: C,
    pub words: Vec<TesseractWord<C>>,
}

/// One paragraph: one or more lines.
#[derive(Debug, Clone, PartialEq)]
pub struct TesseractParagraph<C> {
    pub bbox: BoundingBox,
    pub lines: Vec<TesseractTextLine<C>>,
}

/// One block of the layout, such as a column of text, a table or a figure.
#[derive(Debug, Clone, PartialEq)]
pub struct TesseractBlock<C> {
    pub bbox: BoundingBox,
    pub paragraphs: Vec<TesseractParagraph<C>>,
}

/// The whole result of recognizing one image.
#[derive(Debug, Clone, PartialEq)]
pub struct TesseractHierarchy<C> {
    pub blocks: Vec<TesseractBlock<C>>,
}

/// The lines of a sequence of paragraphs, in order.
pub open spec fn lines_of_paragraphs<C>(paragraphs: Seq<TesseractParagraph<C>>) -> Seq<
    TesseractTextLine<C>,
> {
    paragraphs.flat_map(|p: TesseractParagraph<C>| p.lines@)
}

/// The lines of a sequence of blocks, in order.
pub open spec fn lines_of_blocks<C>(blocks: Seq<TesseractBlock<C>>) -> Seq<TesseractTextLine<C>> {
    blocks.flat_map(|b: TesseractBlock<C>| lines_of_paragraphs(b.paragraphs@))
}

/// The words of a sequence of lines, in order.
pub open spec fn words_of_lines<C>(lines: Seq<TesseractTextLine<C>>) -> Seq<TesseractWord<C>> {
    lines.flat_map(|l: TesseractTextLine<C>| l.words@)
}

impl<C> TesseractHierarchy<C> {
    /// The lines of the page, in reading order.
    pub open spec fn spec_lines(self) -> Seq<TesseractTextLine<C>> {
        lines_of_blocks(self.blocks@)
    }

    /// The words of the page, in reading order.
    pub open spec fn spec_words(self) -> Seq<TesseractWord<C>> {
        words_of_lines(self.spec_lines())
    }

    /// The number of words on the page.
    pub fn word_count(&self) -> (count: usize)
        requires
            self.spec_words().len() <= usize::MAX,
        ensures
            count == self.spec_words().len(),
    {
        let lines = self.collect_lines();
        let ghost all = self.spec_lines();
        let mut count: usize = 0;
        for i in 0..lines.len()
            invariant
                lines@ == all.as_ref(),
                words_of_lines(all).len() <= usize::MAX,
                count == words_of_lines(all.take(i as int)).len(),
        {
            proof {
                lemma_words_of_lines_step(all, i as int);
                lemma_words_of_lines_split(all, i + 1);
            }
            count = count + lines[i].words.len();
        }
        assert(all.take(all.len() as int) =~= all);
        count
    }

    /// Every line of the page, in reading order.
    pub fn iter_lines(&self) -> (lines: std::vec::IntoIter<&TesseractTextLine<C>>)
        ensures
            vstd::std_specs::iter::IteratorSpec::remaining(&lines) == self.spec_lines().as_ref(),
            vstd::std_specs::iter::IteratorSpec::decrease(&lines) is Some,
            vstd::std_specs::iter::IteratorSpec::initial_value_relation(&lines, &lines),
    {
        self.collect_lines().into_iter()
    }

    /// Every word of the page, in reading order.
    pub fn iter_words(&self) -> (words: std::vec::IntoIter<&TesseractWord<C>>)
        ensures
            vstd::std_specs::iter::IteratorSpec::remaining(&words) == self.spec_words().as_ref(),
            vstd::std_specs::iter::IteratorSpec::decrease(&words) is Some,
            vstd::std_specs::iter::IteratorSpec::initial_value_relation(&words, &words),
    {
        let lines = self.collect_lines();
        let ghost all = self.spec_lines();
        let mut words: Vec<&TesseractWord<C>> = Vec::new();
        for i in 0..lines.len()
            invariant
                lines@ == all.as_ref(),
                words@ == words_of_lines(all.take(i as int)).as_ref(),
        {
            let line: &TesseractTextLine<C> = lines[i];
            let ghost before = words@;
            for j in 0..line.words.len()
                invariant
                    words@ == before + line.words@.take(j as int).as_ref(),
            {
                words.push(&line.words[j]);
                assert(line.words@.take(j + 1).as_ref() =~= line.words@.take(j as int).as_ref().push(
                    &line.words@[j as int],
                ));
            }
            proof {
                assert(line.words@.take(line.words@.len() as int) =~= line.words@);
                lemma_words_of_lines_step(all, i as int);
                assert(words@ =~= words_of_lines(all.take(i + 1)).as_ref());
            }
        }
        assert(all.take(all.len() as int) =~= all);
        words.into_iter()
    }

    fn collect_lines(&self) -> (lines: Vec<&TesseractTextLine<C>>)
        ensures
            lines@ == self.spec_lines().as_ref(),
    {
        let mut lines: Vec<&TesseractTextLine<C>> = Vec::new();
        for i in 0..self.blocks.len()
            invariant
                lines@ == lines_of_blocks(self.blocks@.take(i as int)).as_ref(),
        {
            let block: &TesseractBlock<C> = &self.blocks[i];
            let ghost before = lines@;
            for j in 0..block.paragraphs.len()
                invariant
                    lines@ == before + lines_of_paragraphs(block.paragraphs@.take(j as int)).as_ref(),
            {
                let paragraph: &TesseractParagraph<C> = &block.paragraphs[j];
                let ghost within = lines@;
                for k in 0..paragraph.lines.len()
                    invariant
                        lines@ == within + paragraph.lines@.take(k as int).as_ref(),
                {
                    lines.push(&paragraph.lines[k]);
                    assert(paragraph.lines@.take(k + 1).as_ref() =~= paragraph.lines@.take(
                        k as int,
                    ).as_ref().push(&paragraph.lines@[k as int]));
                }
                proof {
                    assert(paragraph.lines@.take(paragraph.lines@.len() as int)
                        =~= paragraph.lines@);
                    block.paragraphs@.lemma_flat_map_take_append(
                        |p: TesseractParagraph<C>| p.lines@,
                        j as int,
                    );
                    assert(lines@ =~= before + lines_of_paragraphs(
                        block.paragraphs@.take(j + 1),
                    ).as_ref());
                }
            }
            proof {
                assert(block.paragraphs@.take(block.paragraphs@.len() as int)
                    =~= block.paragraphs@);
                self.blocks@.lemma_flat_map_take_append(
                    |b: TesseractBlock<C>| lines_of_paragraphs(b.paragraphs@),
                    i as int,
                );
                assert(lines@ =~= lines_of_blocks(self.blocks@.take(i + 1)).as_ref());
            }
        }
        assert(self.blocks@.take(self.blocks@.len() as int) =~= self.blocks@);
        lines
    }
}

proof fn lemma_words_of_lines_step<C>(lines: Seq<TesseractTextLine<C>>, i: int)
    requires
        0 <= i < lines.len(),
    ensures
        words_of_lines(lines.take(i + 1)) == words_of_lines(lines.take(i)) + lines[i].words@,
{
    lines.lemma_flat_map_take_append(|l: TesseractTextLine<C>| l.words@, i);
}

proof fn lemma_words_of_lines_split<C>(lines: Seq<TesseractTextLine<C>>, i: int)
    requires
        0 <= i <= lines.len(),
    ensures
        words_of_lines(lines) == words_of_lines(lines.take(i)) + words_of_lines(lines.skip(i)),
{
    assert(lines =~= lines.take(i) + lines.skip(i));
    lemma_words_of_lines_add(lines.take(i), lines.skip(i));
}

/// Pages put one behind the other have the lines and the words of the one, and then
/// those of the other.
pub proof fn pages_concatenate<C>(
    a: TesseractHierarchy<C>,
    b: TesseractHierarchy<C>,
    both: TesseractHierarchy<C>,
)
    requires
        both.blocks@ == a.blocks@ + b.blocks@,
    ensures
        both.spec_lines() == a.spec_lines() + b.spec_lines(),
        both.spec_words() == a.spec_words() + b.spec_words(),
{
    let f = |b: TesseractBlock<C>| lines_of_paragraphs(b.paragraphs@);
    assert(both.blocks@.map_values(f) =~= a.blocks@.map_values(f) + b.blocks@.map_values(f));
    vstd::seq_lib::lemma_flatten_concat(a.blocks@.map_values(f), b.blocks@.map_values(f));
    lemma_words_of_lines_add(a.spec_lines(), b.spec_lines());
}

/// A block whose paragraphs come in two parts has the lines and the words of the one,
/// and then those of the other.
pub proof fn paragraphs_concatenate<C>(
    a: TesseractHierarchy<C>,
    b: TesseractHierarchy<C>,
    both: TesseractHierarchy<C>,
)
    requires
        a.blocks@.len() == 1,
        b.blocks@.len() == 1,
        both.blocks@.len() == 1,
        both.blocks@[0].paragraphs@ == a.blocks@[0].paragraphs@ + b.blocks@[0].paragraphs@,
    ensures
        both.spec_lines() == a.spec_lines() + b.spec_lines(),
        both.spec_words() == a.spec_words() + b.spec_words(),
{
    let f = |b: TesseractBlock<C>| lines_of_paragraphs(b.paragraphs@);
    let g = |p: TesseractParagraph<C>| p.lines@;
    let (p, q) = (a.blocks@[0].paragraphs@, b.blocks@[0].paragraphs@);
    a.blocks@.lemma_flat_map_singleton(f);
    b.blocks@.lemma_flat_map_singleton(f);
    both.blocks@.lemma_flat_map_singleton(f);
    assert((p + q).map_values(g) =~= p.map_values(g) + q.map_values(g));
    vstd::seq_lib::lemma_flatten_concat(p.map_values(g), q.map_values(g));
    lemma_words_of_lines_add(a.spec_lines(), b.spec_lines());
}

/// A page of one paragraph has the lines of that paragraph, and a page of one line
/// has the words of that line; a page without blocks, or whose only block has no
/// paragraph, has neither lines nor words.
pub proof fn single_parts<C>(h: TesseractHierarchy<C>)
    ensures
        h.blocks@.len() == 0 ==> h.spec_lines().len() == 0 && h.spec_words().len() == 0,
        h.blocks@.len() == 1 && h.blocks@[0].paragraphs@.len() == 0 ==> h.spec_lines().len() == 0
            && h.spec_words().len() == 0,
        h.blocks@.len() == 1 && h.blocks@[0].paragraphs@.len() == 1 ==> h.spec_lines()
            == h.blocks@[0].paragraphs@[0].lines@,
        h.spec_lines().len() == 0 ==> h.spec_words().len() == 0,
        h.spec_lines().len() == 1 ==> h.spec_words() == h.spec_lines()[0].words@,
{
    let f = |b: TesseractBlock<C>| lines_of_paragraphs(b.paragraphs@);
    let g = |p: TesseractParagraph<C>| p.lines@;
    if h.blocks@.len() == 1 {
        h.blocks@.lemma_flat_map_singleton(f);
        if h.blocks@[0].paragraphs@.len() == 1 {
            h.blocks@[0].paragraphs@.lemma_flat_map_singleton(g);
        }
    }
    if h.spec_lines().len() == 1 {
        h.spec_lines().lemma_flat_map_singleton(|l: TesseractTextLine<C>| l.words@);
    }
}

/// Pages whose lines, one after the other, are those of two pages have the words of
/// the one and then those of the other.
pub proof fn lines_concatenate<C>(
    a: TesseractHierarchy<C>,
    b: TesseractHierarchy<C>,
    both: TesseractHierarchy<C>,
)
    requires
        both.spec_lines() == a.spec_lines() + b.spec_lines(),
    ensures
        both.spec_words() == a.spec_words() + b.spec_words(),
{
    lemma_words_of_lines_add(a.spec_lines(), b.spec_lines());
}

pub(crate) proof fn lemma_words_of_lines_add<C>(
    a: Seq<TesseractTextLine<C>>,
    b: Seq<TesseractTextLine<C>>,
)
    ensures
        words_of_lines(a + b) == words_of_lines(a) + words_of_lines(b),
{
    let f = |l: TesseractTextLine<C>| l.words@;
    assert((a + b).map_values(f) =~= a.map_values(f) + b.map_values(f));
    vstd::seq_lib::lemma_flatten_concat(a.map_values(f), b.map_values(f));
}

impl<C: Default> Default for TesseractWord<C> {
    fn default() -> (w: Self)
        ensures
            w.text@ == Seq::<char>::empty(),
            w.bbox == BoundingBox::origin(),
            call_ensures(C::default, (), w.confidence),
    {
        TesseractWord { text: String::new(), bbox: BoundingBox::default(), confidence: C::default() }
    }
}

impl<C: Default> Default for TesseractTextLine<C> {
    fn default() -> (l: Self)
        ensures
            l.text@ == Seq::<char>::empty(),
            l.bbox == BoundingBox::origin(),
            call_ensures(C::default, (), l.confidence),
            l.words@ == Seq::<TesseractWord<C>>::empty(),
    {
        TesseractTextLine {
            text: String::new(),
            bbox: BoundingBox::default(),
            confidence: C::default(),
            words: Vec::new(),
        }
    }
}

impl<C> Default for TesseractParagraph<C> {
    fn default() -> (p: Self)
        ensures
            p.bbox == BoundingBox::origin(),
            p.lines@ == Seq::<TesseractTextLine<C>>::empty(),
    {
        TesseractParagraph { bbox: BoundingBox::default(), lines: Vec::new() }
    }
}

impl<C> Default for TesseractBlock<C> {
    fn default() -> (b: Self)
        ensures
            b.bbox == BoundingBox::origin(),
            b.paragraphs@ == Seq::<TesseractParagraph<C>>::empty(),
    {
        TesseractBlock { bbox: BoundingBox::default(), paragraphs: Vec::new() }
    }
}

impl<C> Default for TesseractHierarchy<C> {
    fn default() -> (h: Self)
        ensures
            h.blocks@ == Seq::<TesseractBlock<C>>::empty(),
    {
        TesseractHierarchy { blocks: Vec::new() }
    }
}

} // verus!
