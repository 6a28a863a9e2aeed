//! Closing a line, a paragraph or a block: summing it up and putting it at the end
//! of what it belongs to.

use vstd::prelude::*;

use crate::hierarchy;
use crate::hierarchy::{
    TesseractBlock, TesseractHierarchy, TesseractParagraph, TesseractTextLine, TesseractWord,
};
use crate::layout;
use crate::text;

verus! {

/// `mean` can be called on every list of confidences that is not empty.
pub open spec fn averages<C, F: Fn(&Vec<C>) -> C>(mean: F) -> bool {
    forall|v: Vec<C>| v@.len() > 0 ==> #[trigger] call_requires(mean, (&v,))
}

/// `mean` gives `average` for the confidences `confidences`.
pub open spec fn average_of<C, F: Fn(&Vec<C>) -> C>(
    mean: F,
    confidences: Seq<C>,
    average: C,
) -> bool {
    exists|v: Vec<C>| v@ == confidences && #[trigger] call_ensures(mean, (&v,), average)
}

/// The confidences of `words`, in order.
pub open spec fn confidences_of<C>(words: Seq<TesseractWord<C>>) -> Seq<C> {
    words.map_values(|w: TesseractWord<C>| w.confidence)
}

/// The line has the text and the confidence that go with its words.
pub open spec fn summed_up<C, F: Fn(&Vec<C>) -> C>(line: TesseractTextLine<C>, mean: F) -> bool {
    &&& line.text@ == text::spaced(line.words@)
    &&& average_of(mean, confidences_of(line.words@), line.confidence)
}

/// All of `lines` have the texts and the confidences that go with their words.
pub open spec fn all_summed_up<C, F: Fn(&Vec<C>) -> C>(
    lines: Seq<TesseractTextLine<C>>,
    mean: F,
) -> bool {
    forall|i: int| 0 <= i < lines.len() ==> summed_up(#[trigger] lines[i], mean)
}

/// `mean` gives one result for each list of confidences.
pub open spec fn single_valued<C, F: Fn(&Vec<C>) -> C>(mean: F) -> bool {
    forall|confidences: Seq<C>, a: C, b: C|
        #[trigger] average_of(mean, confidences, a) && #[trigger] average_of(mean, confidences, b)
            ==> a == b
}

/// Closing the line `cur` in the paragraph `parent` leaves `cur_after` and
/// `parent_after`.
pub open spec fn line_committed<C, F: Fn(&Vec<C>) -> C>(
    cur: Option<TesseractTextLine<C>>,
    parent: Option<TesseractParagraph<C>>,
    mean: F,
    cur_after: Option<TesseractTextLine<C>>,
    parent_after: Option<TesseractParagraph<C>>,
) -> bool {
    &&& cur_after is None
    &&& match (cur, parent) {
        (Some(line), Some(p)) => {
            &&& parent_after matches Some(q)
            &&& q.bbox == p.bbox
            &&& q.lines@.len() == p.lines@.len() + 1
            &&& q.lines@.drop_last() == p.lines@
            &&& q.lines@.last().bbox == line.bbox
            &&& q.lines@.last().words == line.words
            &&& q.lines@.last().text@ == text::spaced(line.words@)
            &&& if line.words@.len() > 0 {
                average_of(mean, confidences_of(line.words@), q.lines@.last().confidence)
            } else {
                q.lines@.last().confidence == line.confidence
            }
        },
        _ => parent_after == parent,
    }
}

/// Closing the paragraph `cur` in the block `parent` leaves `cur_after` and
/// `parent_after`.
pub open spec fn para_committed<C>(
    cur: Option<TesseractParagraph<C>>,
    parent: Option<TesseractBlock<C>>,
    cur_after: Option<TesseractParagraph<C>>,
    parent_after: Option<TesseractBlock<C>>,
) -> bool {
    &&& cur_after is None
    &&& match (cur, parent) {
        (Some(para), Some(b)) => {
            &&& parent_after matches Some(c)
            &&& c.bbox == b.bbox
            &&& c.paragraphs@ == if para.lines@.len() > 0 {
                b.paragraphs@.push(para)
            } else {
                b.paragraphs@
            }
        },
        _ => parent_after == parent,
    }
}

/// Closing the block `cur` in the page `parent` leaves `cur_after` and
/// `parent_after`.
pub open spec fn block_committed<C>(
    cur: Option<TesseractBlock<C>>,
    parent: TesseractHierarchy<C>,
    cur_after: Option<TesseractBlock<C>>,
    parent_after: TesseractHierarchy<C>,
) -> bool {
    &&& cur_after is None
    &&& parent_after.blocks@ == match cur {
        Some(block) if block.paragraphs@.len() > 0 => parent.blocks@.push(block),
        _ => parent.blocks@,
    }
}

fn confidences<C: Copy>(words: &Vec<TesseractWord<C>>) -> (confidences: Vec<C>)
    ensures
        confidences@ == confidences_of(words@),
{
    let mut confidences: Vec<C> = Vec::new();
    for i in 0..words.len()
        invariant
            confidences@ == confidences_of(words@.take(i as int)),
    {
        confidences.push(words[i].confidence);
        assert(confidences@ =~= confidences_of(words@.take(i + 1)));
    }
    assert(words@.take(words@.len() as int) =~= words@);
    confidences
}

/// Closes the line `cur`: gives it its text and confidence and puts it at the end
/// of the paragraph `parent`. Without a paragraph the line is dropped.
pub fn commit_line<C: Copy, F: Fn(&Vec<C>) -> C>(
    cur: &mut Option<TesseractTextLine<C>>,
    parent: &mut Option<TesseractParagraph<C>>,
    mean: &F,
)
    requires
        averages(*mean),
    ensures
        line_committed(*old(cur), *old(parent), *mean, *final(cur), *final(parent)),
{
    if let Some(mut line) = cur.take() {
        line.text = text::join_words(&line.words);
        if !line.words.is_empty() {
            let confidences = confidences(&line.words);
            line.confidence = mean(&confidences);
        }
        if let Some(p) = parent {
            p.lines.push(line);
            assert(p.lines@.drop_last() =~= old(parent)->0.lines@);
        }
    }
}

/// Closes the paragraph `cur`: puts it at the end of the block `parent`, unless it
/// has no line. Without a block the paragraph is dropped.
pub fn commit_para<C>(
    cur: &mut Option<TesseractParagraph<C>>,
    parent: &mut Option<TesseractBlock<C>>,
)
    ensures
        para_committed(*old(cur), *old(parent), *final(cur), *final(parent)),
{
    if let Some(para) = cur.take() {
        if let Some(b) = parent {
            if !para.lines.is_empty() {
                b.paragraphs.push(para);
            }
        }
    }
}

/// Closes the block `cur`: puts it at the end of `parent`, unless it has no
/// paragraph.
pub fn commit_block<C>(cur: &mut Option<TesseractBlock<C>>, parent: &mut TesseractHierarchy<C>)
    ensures
        block_committed(*old(cur), *old(parent), *final(cur), *final(parent)),
{
    if let Some(block) = cur.take() {
        if !block.paragraphs.is_empty() {
            parent.blocks.push(block);
        }
    }
}

/// A function that takes every list of confidences that is not empty is good enough.
pub proof fn any_total_mean_averages<C, F: Fn(&Vec<C>) -> C>(mean: F)
    requires
        forall|v: Vec<C>| v@.len() > 0 ==> #[trigger] call_requires(mean, (&v,)),
    ensures
        averages(mean),
{
}

/// What is averaged is one confidence for each word, in order.
pub proof fn every_word_is_averaged<C>(words: Seq<TesseractWord<C>>)
    ensures
        confidences_of(words).len() == words.len(),
        forall|i: int|
            0 <= i < words.len() ==> #[trigger] confidences_of(words)[i] == words[i].confidence,
{
}

/// A line that is summed up has a confidence that `mean` gave for a list with the
/// confidence of each of its words, in order, and nothing else; and a text that is
/// that of its first words, a space, and that of the others, wherever it is split.
pub proof fn summed_up_takes_every_word<C, F: Fn(&Vec<C>) -> C>(
    line: TesseractTextLine<C>,
    mean: F,
)
    requires
        summed_up(line, mean),
    ensures
        exists|v: Vec<C>|
            {
                &&& #[trigger] call_ensures(mean, (&v,), line.confidence)
                &&& v@.len() == line.words@.len()
                &&& forall|i: int|
                    0 <= i < line.words@.len() ==> #[trigger] v@[i] == line.words@[i].confidence
            },
        line.words@.len() == 1 ==> line.text@ == line.words@[0].text@,
        forall|i: int|
            0 < i < line.words@.len() ==> line.text@ == #[trigger] text::spaced(line.words@.take(i))
                + seq![' '] + text::spaced(line.words@.skip(i)),
{
    every_word_is_averaged(line.words@);
    let v = choose|v: Vec<C>|
        v@ == confidences_of(line.words@) && #[trigger] call_ensures(mean, (&v,), line.confidence);
    assert(call_ensures(mean, (&v,), line.confidence));
    if line.words@.len() == 1 {
        text::one_word_is_its_text(line.words@[0]);
        assert(line.words@ =~= seq![line.words@[0]]);
    }
    assert forall|i: int| 0 < i < line.words@.len() implies line.text@ == #[trigger] text::spaced(
        line.words@.take(i),
    ) + seq![' '] + text::spaced(line.words@.skip(i)) by {
        text::spaced_splits(line.words@.take(i), line.words@.skip(i));
        assert(line.words@.take(i) + line.words@.skip(i) =~= line.words@);
    }
}

/// A line that is closed in a paragraph is its last line then, with its own box and
/// words and summed up; the paragraph keeps its box and its other lines. Without a
/// line or without a paragraph nothing changes.
pub proof fn commit_line_puts_it_last<C, F: Fn(&Vec<C>) -> C>(
    cur: Option<TesseractTextLine<C>>,
    parent: Option<TesseractParagraph<C>>,
    mean: F,
    cur_after: Option<TesseractTextLine<C>>,
    parent_after: Option<TesseractParagraph<C>>,
)
    requires
        line_committed(cur, parent, mean, cur_after, parent_after),
    ensures
        cur_after is None,
        cur is None || parent is None ==> parent_after == parent,
        cur is Some && parent is Some ==> {
            let (n, lines) = (parent->0.lines@.len() as int, parent_after->0.lines@);
            &&& parent_after is Some
            &&& parent_after->0.bbox == parent->0.bbox
            &&& lines.len() == n + 1
            &&& lines.take(n) == parent->0.lines@
            &&& lines[n].bbox == cur->0.bbox
            &&& lines[n].words@ == cur->0.words@
            &&& cur->0.words@.len() == 0 ==> lines[n].text@.len() == 0 && lines[n].confidence
                == cur->0.confidence
            &&& cur->0.words@.len() > 0 ==> summed_up(lines[n], mean)
        },
{
    if cur is Some && parent is Some {
        let (n, lines) = (parent->0.lines@.len() as int, parent_after->0.lines@);
        assert(lines.take(n) =~= lines.drop_last());
        text::spaced_len(cur->0.words@);
    }
}

/// A paragraph with lines that is closed in a block is its last paragraph then, as it
/// was; the block keeps its box and its other paragraphs. Otherwise no paragraph
/// comes to the block or goes.
pub proof fn commit_para_puts_it_last<C>(
    cur: Option<TesseractParagraph<C>>,
    parent: Option<TesseractBlock<C>>,
    cur_after: Option<TesseractParagraph<C>>,
    parent_after: Option<TesseractBlock<C>>,
)
    requires
        para_committed(cur, parent, cur_after, parent_after),
    ensures
        cur_after is None,
        cur is None || parent is None ==> parent_after == parent,
        parent is Some ==> parent_after is Some && parent_after->0.bbox == parent->0.bbox,
        parent is Some && cur is Some && cur->0.lines@.len() == 0 ==> parent_after->0.paragraphs@
            == parent->0.paragraphs@,
        parent is Some && cur is Some && cur->0.lines@.len() > 0 ==> {
            let n = parent->0.paragraphs@.len() as int;
            &&& parent_after->0.paragraphs@.len() == n + 1
            &&& parent_after->0.paragraphs@.take(n) == parent->0.paragraphs@
            &&& parent_after->0.paragraphs@[n] == cur->0
        },
{
    if parent is Some && cur is Some && cur->0.lines@.len() > 0 {
        let n = parent->0.paragraphs@.len() as int;
        assert(parent_after->0.paragraphs@.take(n) =~= parent->0.paragraphs@);
    }
}

/// A block with paragraphs that is closed is the last block of the page then, as it
/// was, and the other blocks stay. Otherwise no block comes to the page or goes.
pub proof fn commit_block_puts_it_last<C>(
    cur: Option<TesseractBlock<C>>,
    parent: TesseractHierarchy<C>,
    cur_after: Option<TesseractBlock<C>>,
    parent_after: TesseractHierarchy<C>,
)
    requires
        block_committed(cur, parent, cur_after, parent_after),
    ensures
        cur_after is None,
        cur is None || cur->0.paragraphs@.len() == 0 ==> parent_after.blocks@ == parent.blocks@,
        cur is Some && cur->0.paragraphs@.len() > 0 ==> {
            let n = parent.blocks@.len() as int;
            &&& parent_after.blocks@.len() == n + 1
            &&& parent_after.blocks@.take(n) == parent.blocks@
            &&& parent_after.blocks@[n] == cur->0
        },
{
    if cur is Some && cur->0.paragraphs@.len() > 0 {
        assert(parent_after.blocks@.take(parent.blocks@.len() as int) =~= parent.blocks@);
    }
}

/// To close a line a second time changes nothing.
pub proof fn commit_line_twice<C, F: Fn(&Vec<C>) -> C>(
    cur: Option<TesseractTextLine<C>>,
    parent: Option<TesseractParagraph<C>>,
    mean: F,
    cur_once: Option<TesseractTextLine<C>>,
    parent_once: Option<TesseractParagraph<C>>,
    cur_twice: Option<TesseractTextLine<C>>,
    parent_twice: Option<TesseractParagraph<C>>,
)
    requires
        line_committed(cur, parent, mean, cur_once, parent_once),
        line_committed(cur_once, parent_once, mean, cur_twice, parent_twice),
    ensures
        cur_twice is None,
        parent_twice == parent_once,
{
}

/// What a line with words had for a text and a confidence before it was closed has
/// no influence: lines with the same box and the same words, closed in the same
/// paragraph, leave the same paragraph.
pub proof fn commit_line_sums_up_afresh<C, F: Fn(&Vec<C>) -> C>(
    line1: TesseractTextLine<C>,
    line2: TesseractTextLine<C>,
    parent1: Option<TesseractParagraph<C>>,
    parent2: Option<TesseractParagraph<C>>,
    mean: F,
    cur_after1: Option<TesseractTextLine<C>>,
    cur_after2: Option<TesseractTextLine<C>>,
    parent_after1: Option<TesseractParagraph<C>>,
    parent_after2: Option<TesseractParagraph<C>>,
)
    requires
        single_valued(mean),
        line1.bbox == line2.bbox,
        layout::word_views(line1.words@) == layout::word_views(line2.words@),
        line1.words@.len() > 0,
        parent1 is Some == parent2 is Some,
        parent1 is Some ==> parent1->0@ == parent2->0@,
        line_committed(Some(line1), parent1, mean, cur_after1, parent_after1),
        line_committed(Some(line2), parent2, mean, cur_after2, parent_after2),
    ensures
        parent_after1 is Some == parent_after2 is Some,
        parent_after1 is Some ==> parent_after1->0@ == parent_after2->0@,
{
    if parent1 is Some {
        let (p1, p2) = (parent1->0, parent2->0);
        let (q1, q2) = (parent_after1->0, parent_after2->0);
        lemma_words_alike(line1.words@, line2.words@);
        assert(p1@.lines.len() == p1.lines@.len());
        assert(p2@.lines.len() == p2.lines@.len());
        assert(layout::word_views(line1.words@).len() == line1.words@.len());
        assert(layout::word_views(line2.words@).len() == line2.words@.len());
        assert forall|i: int| 0 <= i < q1@.lines.len() implies q1@.lines[i] == q2@.lines[i] by {
            if i < p1.lines@.len() {
                assert(q1.lines@.drop_last()[i] == p1.lines@[i]);
                assert(q2.lines@.drop_last()[i] == p2.lines@[i]);
                assert(p1@.lines[i] == p2@.lines[i]);
            }
        }
        assert(q1@ =~= q2@);
    }
}

/// Closing a line loses no word, and leaves the lines before it as they were.
pub proof fn commit_line_keeps_words<C, F: Fn(&Vec<C>) -> C>(
    line: TesseractTextLine<C>,
    parent: TesseractParagraph<C>,
    mean: F,
    cur_after: Option<TesseractTextLine<C>>,
    parent_after: Option<TesseractParagraph<C>>,
)
    requires
        line_committed(Some(line), Some(parent), mean, cur_after, parent_after),
    ensures
        parent_after is Some,
        parent.lines@.is_prefix_of(parent_after->0.lines@),
        hierarchy::words_of_lines(parent_after->0.lines@) == hierarchy::words_of_lines(
            parent.lines@,
        ) + line.words@,
{
    let lines = parent_after->0.lines@;
    assert(lines =~= parent.lines@.push(lines.last()));
    parent.lines@.lemma_flat_map_push(|l: TesseractTextLine<C>| l.words@, lines.last());
}

/// To close a paragraph a second time changes nothing.
pub proof fn commit_para_twice<C>(
    cur: Option<TesseractParagraph<C>>,
    parent: Option<TesseractBlock<C>>,
    cur_once: Option<TesseractParagraph<C>>,
    parent_once: Option<TesseractBlock<C>>,
    cur_twice: Option<TesseractParagraph<C>>,
    parent_twice: Option<TesseractBlock<C>>,
)
    requires
        para_committed(cur, parent, cur_once, parent_once),
        para_committed(cur_once, parent_once, cur_twice, parent_twice),
    ensures
        cur_twice is None,
        parent_twice == parent_once,
{
}

/// Every paragraph of `block` has a line.
pub open spec fn paragraphs_have_lines<C>(block: TesseractBlock<C>) -> bool {
    forall|i: int|
        0 <= i < block.paragraphs@.len() ==> (#[trigger] block.paragraphs@[i]).lines@.len() > 0
}

/// A block in which every paragraph has a line is still one when a paragraph has
/// been closed, and there is a block then exactly if there was one before.
pub proof fn commit_para_adds_no_empty_paragraph<C>(
    cur: Option<TesseractParagraph<C>>,
    parent: Option<TesseractBlock<C>>,
    cur_after: Option<TesseractParagraph<C>>,
    parent_after: Option<TesseractBlock<C>>,
)
    requires
        para_committed(cur, parent, cur_after, parent_after),
        parent matches Some(b) ==> paragraphs_have_lines(b),
    ensures
        parent_after matches Some(b) ==> paragraphs_have_lines(b),
        parent_after is None <==> parent is None,
{
}

/// Closing a paragraph loses no word, and leaves the paragraphs before it as they
/// were.
pub proof fn commit_para_keeps_words<C>(
    para: TesseractParagraph<C>,
    parent: TesseractBlock<C>,
    cur_after: Option<TesseractParagraph<C>>,
    parent_after: Option<TesseractBlock<C>>,
)
    requires
        para_committed(Some(para), Some(parent), cur_after, parent_after),
    ensures
        parent_after is Some,
        parent.paragraphs@.is_prefix_of(parent_after->0.paragraphs@),
        hierarchy::lines_of_paragraphs(parent_after->0.paragraphs@)
            == hierarchy::lines_of_paragraphs(parent.paragraphs@) + para.lines@,
        hierarchy::words_of_lines(hierarchy::lines_of_paragraphs(parent_after->0.paragraphs@))
            == hierarchy::words_of_lines(hierarchy::lines_of_paragraphs(parent.paragraphs@))
            + hierarchy::words_of_lines(para.lines@),
{
    let before = hierarchy::lines_of_paragraphs(parent.paragraphs@);
    parent.paragraphs@.lemma_flat_map_push(|p: TesseractParagraph<C>| p.lines@, para);
    if para.lines@.len() == 0 {
        assert(before + para.lines@ =~= before);
    }
    hierarchy::lemma_words_of_lines_add(before, para.lines@);
}

/// Every block of `page` has a paragraph.
pub open spec fn blocks_have_paragraphs<C>(page: TesseractHierarchy<C>) -> bool {
    forall|i: int|
        0 <= i < page.blocks@.len() ==> (#[trigger] page.blocks@[i]).paragraphs@.len() > 0
}

/// To close a block a second time changes nothing.
pub proof fn commit_block_twice<C>(
    cur: Option<TesseractBlock<C>>,
    parent: TesseractHierarchy<C>,
    cur_once: Option<TesseractBlock<C>>,
    parent_once: TesseractHierarchy<C>,
    cur_twice: Option<TesseractBlock<C>>,
    parent_twice: TesseractHierarchy<C>,
)
    requires
        block_committed(cur, parent, cur_once, parent_once),
        block_committed(cur_once, parent_once, cur_twice, parent_twice),
    ensures
        cur_twice is None,
        parent_twice.blocks@ == parent_once.blocks@,
{
}

/// A page in which every block has a paragraph is still one when a block has been
/// closed. The blocks before it are as they were, and at most one has been added.
pub proof fn commit_block_adds_no_empty_block<C>(
    cur: Option<TesseractBlock<C>>,
    parent: TesseractHierarchy<C>,
    cur_after: Option<TesseractBlock<C>>,
    parent_after: TesseractHierarchy<C>,
)
    requires
        block_committed(cur, parent, cur_after, parent_after),
        blocks_have_paragraphs(parent),
    ensures
        blocks_have_paragraphs(parent_after),
        parent.blocks@.is_prefix_of(parent_after.blocks@),
        parent_after.blocks@.len() <= parent.blocks@.len() + 1,
{
}

/// Closing a block loses no line and no word: the page has those that it had, and
/// then those of the block, which are those of the page `alone` with that block.
pub proof fn commit_block_keeps_words<C>(
    block: TesseractBlock<C>,
    alone: TesseractHierarchy<C>,
    parent: TesseractHierarchy<C>,
    cur_after: Option<TesseractBlock<C>>,
    parent_after: TesseractHierarchy<C>,
)
    requires
        alone.blocks@ == seq![block],
        block_committed(Some(block), parent, cur_after, parent_after),
    ensures
        parent_after.spec_lines() == parent.spec_lines() + alone.spec_lines(),
        parent_after.spec_words() == parent.spec_words() + alone.spec_words(),
        parent_after.spec_words().len() == parent.spec_words().len() + alone.spec_words().len(),
{
    if block.paragraphs@.len() > 0 {
        assert(parent_after.blocks@ =~= parent.blocks@ + alone.blocks@);
        hierarchy::pages_concatenate(parent, alone, parent_after);
    } else {
        alone.blocks@.lemma_flat_map_singleton(
            |b: TesseractBlock<C>| hierarchy::lines_of_paragraphs(b.paragraphs@),
        );
        assert(alone.spec_lines() =~= Seq::empty());
        assert(alone.spec_words() =~= Seq::empty());
        assert(parent.spec_lines() + alone.spec_lines() =~= parent.spec_lines());
        assert(parent.spec_words() + alone.spec_words() =~= parent.spec_words());
    }
}

proof fn lemma_words_alike<C>(a: Seq<TesseractWord<C>>, b: Seq<TesseractWord<C>>)
    requires
        layout::word_views(a) == layout::word_views(b),
    ensures
        text::spaced(a) == text::spaced(b),
        confidences_of(a) == confidences_of(b),
    decreases a.len(),
{
    assert(layout::word_views(a).len() == a.len());
    assert(layout::word_views(b).len() == b.len());
    assert forall|i: int| 0 <= i < a.len() implies (#[trigger] a[i])@ == b[i]@ by {
        assert(layout::word_views(a)[i] == layout::word_views(b)[i]);
    }
    assert(confidences_of(a) =~= confidences_of(b)) by {
        assert forall|i: int| 0 <= i < a.len() implies a[i].confidence == b[i].confidence by {
            assert(a[i]@ == b[i]@);
        }
    }
    if a.len() > 0 {
        assert(a.last()@ == b.last()@);
        assert(layout::word_views(a.drop_last()) =~= layout::word_views(b.drop_last()));
        lemma_words_alike(a.drop_last(), b.drop_last());
    }
}

} // verus!
