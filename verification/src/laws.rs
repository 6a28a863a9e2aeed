//! What a tree is for: where each word of a page stands in it, and what the parts
//! around the word are, in terms of what was read of the page.

use vstd::prelude::*;

use crate::builder;
use crate::commit;
use crate::geometry::BoundingBox;
use crate::hierarchy;
use crate::hierarchy::{
    TesseractBlock, TesseractHierarchy, TesseractParagraph, TesseractTextLine, TesseractWord,
};
use crate::layout;
use crate::layout::{BlockLayout, LineLayout, Scan};
use crate::text;
use crate::walk;
use crate::walk::{ProgressView, WalkView, WordReading};

verus! {

/// A place in a tree: the block, the paragraph in it, the line in that, and the word
/// in that, each counted from zero.
pub struct Place {
    pub block: int,
    pub paragraph: int,
    pub line: int,
    pub word: int,
}

impl<C> TesseractHierarchy<C> {
    /// The block around `p`.
    pub open spec fn block_at(self, p: Place) -> TesseractBlock<C> {
        self.blocks@[p.block]
    }

    /// The paragraph around `p`.
    pub open spec fn paragraph_at(self, p: Place) -> TesseractParagraph<C> {
        self.blocks@[p.block].paragraphs@[p.paragraph]
    }

    /// The line around `p`.
    pub open spec fn line_at(self, p: Place) -> TesseractTextLine<C> {
        self.blocks@[p.block].paragraphs@[p.paragraph].lines@[p.line]
    }

    /// The word at `p`.
    pub open spec fn word_at(self, p: Place) -> TesseractWord<C> {
        self.blocks@[p.block].paragraphs@[p.paragraph].lines@[p.line].words@[p.word]
    }

    /// There is a word at `p`.
    pub open spec fn has_word(self, p: Place) -> bool {
        &&& 0 <= p.block < self.blocks@.len()
        &&& 0 <= p.paragraph < self.block_at(p).paragraphs@.len()
        &&& 0 <= p.line < self.paragraph_at(p).lines@.len()
        &&& 0 <= p.word < self.line_at(p).words@.len()
    }
}

/// There is a word at `p` in the layout `t`.
spec fn stands_in<C>(t: Seq<BlockLayout<C>>, p: Place) -> bool {
    &&& 0 <= p.block < t.len()
    &&& 0 <= p.paragraph < t[p.block].paragraphs.len()
    &&& 0 <= p.line < t[p.block].paragraphs[p.paragraph].lines.len()
    &&& 0 <= p.word < t[p.block].paragraphs[p.paragraph].lines[p.line].words.len()
}

/// The line around `p` in the layout `t`.
spec fn line_at<C>(t: Seq<BlockLayout<C>>, p: Place) -> LineLayout<C> {
    t[p.block].paragraphs[p.paragraph].lines[p.line]
}

/// Every part of `t` has a part.
spec fn full<C>(t: Seq<BlockLayout<C>>) -> bool {
    &&& forall|i: int| 0 <= i < t.len() ==> (#[trigger] t[i]).paragraphs.len() > 0
    &&& forall|i: int, j: int|
        0 <= i < t.len() && 0 <= j < t[i].paragraphs.len() ==> (
        #[trigger] t[i].paragraphs[j]).lines.len() > 0
    &&& forall|i: int, j: int, k: int|
        0 <= i < t.len() && 0 <= j < t[i].paragraphs.len() && 0 <= k
            < t[i].paragraphs[j].lines.len() ==> (
        #[trigger] t[i].paragraphs[j].lines[k]).words.len() > 0
}

/// The place of the last word.
spec fn last_place<C>(t: Seq<BlockLayout<C>>) -> Place {
    Place {
        block: t.len() - 1,
        paragraph: t.last().paragraphs.len() - 1,
        line: t.last().paragraphs.last().lines.len() - 1,
        word: t.last().paragraphs.last().lines.last().words.len() - 1,
    }
}

/// The place of a word `s` behind the word at `p`.
spec fn place_behind<C>(p: Place, s: Scan<C>) -> Place {
    if s.block is Some {
        Place { block: p.block + 1, paragraph: 0, line: 0, word: 0 }
    } else if s.paragraph is Some {
        Place { paragraph: p.paragraph + 1, line: 0, word: 0, ..p }
    } else if s.line is Some {
        Place { line: p.line + 1, word: 0, ..p }
    } else {
        Place { word: p.word + 1, ..p }
    }
}

/// The word and the boxes at `p` are those of `s`, as far as `p` is where they begin.
spec fn begins<C>(t: Seq<BlockLayout<C>>, p: Place, s: Scan<C>) -> bool {
    &&& line_at(t, p).words[p.word] == s.word
    &&& p.word == 0 ==> line_at(t, p).bbox == layout::box_or_origin(s.line)
    &&& p.word == 0 && p.line == 0 ==> t[p.block].paragraphs[p.paragraph].bbox
        == layout::box_or_origin(s.paragraph)
    &&& p.word == 0 && p.line == 0 && p.paragraph == 0 ==> t[p.block].bbox
        == layout::box_or_origin(s.block)
}

/// What one more word does: it comes to stand at the end, and nothing else moves.
proof fn lemma_one_more<C>(t: Seq<BlockLayout<C>>, s: Scan<C>)
    requires
        full(t),
    ensures
        ({
            let u = layout::blocks_then(t, s);
            let q = last_place(u);
            &&& stands_in(u, q)
            &&& !stands_in(t, q)
            &&& begins(u, q, s)
            &&& t.len() == 0 ==> q == Place { block: 0, paragraph: 0, line: 0, word: 0 }
            &&& t.len() > 0 ==> q == place_behind(last_place(t), s)
            &&& forall|p: Place| stands_in(u, p) ==> #[trigger] stands_in(t, p) || p == q
            &&& forall|p: Place, r: Scan<C>| #[trigger]
                begins(t, p, r) && stands_in(t, p) ==> stands_in(u, p) && begins(u, p, r)
        }),
{
    let u = layout::blocks_then(t, s);
    let q = last_place(u);
    layout::lemma_of_one(s);
    if t.len() == 0 || s.block is Some {
        assert(u.last() == layout::block_of(seq![s]));
    } else {
        let (b, c) = (t.last(), u.last());
        assert(b == t[t.len() - 1]);
        assert(c.paragraphs == layout::paragraphs_then(b.paragraphs, s));
        if s.paragraph is Some {
            assert(c.paragraphs.last() == layout::paragraph_of(seq![s]));
        } else {
            let (p, r) = (b.paragraphs.last(), c.paragraphs.last());
            assert(p == t[t.len() - 1].paragraphs[b.paragraphs.len() - 1]);
            assert(r.lines == layout::lines_then(p.lines, s));
            if s.line is Some {
                assert(r.lines.last() == layout::line_of(seq![s]));
            } else {
                let l = p.lines.last();
                assert(l == t[t.len() - 1].paragraphs[b.paragraphs.len() - 1].lines[p.lines.len()
                    - 1]);
                assert(r.lines.last().words == l.words.push(s.word));
            }
        }
    }
    assert forall|p: Place| stands_in(u, p) implies #[trigger] stands_in(t, p) || p == q by {
    }
    assert forall|p: Place, r: Scan<C>| #[trigger]
        begins(t, p, r) && stands_in(t, p) implies stands_in(u, p) && begins(u, p, r) by {
    }
}

/// The places of the words of `page` in their tree, in order.
proof fn lemma_places<C>(page: Seq<Scan<C>>) -> (at: Seq<Place>)
    ensures
        at.len() == page.len(),
        at.no_duplicates(),
        full(layout::blocks_of(page)),
        page.len() == 0 ==> layout::blocks_of(page).len() == 0,
        page.len() > 0 ==> at.last() == last_place(layout::blocks_of(page)),
        page.len() > 0 ==> at[0] == (Place { block: 0, paragraph: 0, line: 0, word: 0 }),
        forall|n: int|
            0 <= n < page.len() ==> stands_in(layout::blocks_of(page), #[trigger] at[n]) && begins(
                layout::blocks_of(page),
                at[n],
                page[n],
            ),
        forall|m: int, n: int|
            0 <= m && m + 1 == n && n < page.len() ==> #[trigger] at[n] == place_behind(
                #[trigger] at[m],
                page[n],
            ),
        forall|p: Place| #[trigger] stands_in(layout::blocks_of(page), p) ==> at.contains(p),
    decreases page.len(),
{
    let t = layout::blocks_of(page);
    layout::layout_has_no_empty_part(page);
    if page.len() == 0 {
        assert(t.len() == 0);
        Seq::empty()
    } else {
        let rest = page.drop_last();
        let s = page.last();
        let before = lemma_places(rest);
        let old_t = layout::blocks_of(rest);
        lemma_one_more(old_t, s);
        layout::lemma_blocks_extend(rest, s);
        assert(page =~= rest.push(s));
        assert(t == layout::blocks_then(old_t, s));
        let at = before.push(last_place(t));
        if rest.len() > 0 {
            assert(stands_in(old_t, before[0]));
        }
        assert forall|n: int| 0 <= n < page.len() implies stands_in(t, #[trigger] at[n]) && begins(
            t,
            at[n],
            page[n],
        ) by {
            if n < rest.len() {
                assert(stands_in(old_t, before[n]) && begins(old_t, before[n], rest[n]));
            }
        }
        assert forall|m: int, n: int| 0 <= m && m + 1 == n && n < page.len() implies #[trigger] at[n]
            == place_behind(#[trigger] at[m], page[n]) by {
            if n < rest.len() {
                assert(before[n] == place_behind(before[m], rest[n]));
            }
        }
        assert forall|p: Place| #[trigger] stands_in(t, p) implies at.contains(p) by {
            if stands_in(old_t, p) {
                let n = choose|n: int| 0 <= n < before.len() && before[n] == p;
                assert(at[n] == p);
            } else {
                assert(at[at.len() - 1] == p);
            }
        }
        at
    }
}

/// The tree of a page follows the boundaries at its words. The place of the first
/// word is the first of all. Each word behind it stands at the beginning of the next
/// block, of the next paragraph of its block or of the next line of its paragraph,
/// where it begins one, and otherwise behind the word before it in the same line. A
/// block, paragraph or line has the box that came with its first word. Nothing else
/// stands in the tree.
pub proof fn tree_follows_the_boundaries<C, F: Fn(&Vec<C>) -> C>(
    h: TesseractHierarchy<C>,
    page: Seq<Scan<C>>,
    mean: F,
) -> (at: Seq<Place>)
    requires
        builder::is_tree_of(h, page, mean),
    ensures
        at.len() == page.len(),
        at.no_duplicates(),
        forall|n: int| 0 <= n < page.len() ==> h.has_word(#[trigger] at[n]),
        forall|p: Place| #[trigger] h.has_word(p) ==> at.contains(p),
        page.len() == 0 ==> h.blocks@.len() == 0,
        forall|n: int|
            0 <= n < page.len() ==> {
                let w = h.word_at(#[trigger] at[n]);
                &&& w.text@ == page[n].word.text
                &&& w.bbox == page[n].word.bbox
                &&& w.confidence == page[n].word.confidence
            },
        page.len() > 0 ==> at[0] == (Place { block: 0, paragraph: 0, line: 0, word: 0 }),
        forall|m: int, n: int|
            0 <= m && m + 1 == n && n < page.len() ==> {
                let (p, q) = (#[trigger] at[m], #[trigger] at[n]);
                if page[n].block is Some {
                    q == Place { block: p.block + 1, paragraph: 0, line: 0, word: 0 }
                } else if page[n].paragraph is Some {
                    q == Place { block: p.block, paragraph: p.paragraph + 1, line: 0, word: 0 }
                } else if page[n].line is Some {
                    q == Place {
                        block: p.block,
                        paragraph: p.paragraph,
                        line: p.line + 1,
                        word: 0,
                    }
                } else {
                    q == Place {
                        block: p.block,
                        paragraph: p.paragraph,
                        line: p.line,
                        word: p.word + 1,
                    }
                }
            },
        forall|n: int|
            0 <= n < page.len() ==> {
                let p = #[trigger] at[n];
                let none = BoundingBox { left: 0, top: 0, right: 0, bottom: 0 };
                &&& page[n].line is Some ==> p.word == 0
                &&& page[n].paragraph is Some ==> p.word == 0 && p.line == 0
                &&& page[n].block is Some ==> p.word == 0 && p.line == 0 && p.paragraph == 0
                &&& p.word == 0 ==> h.line_at(p).bbox == (match page[n].line {
                    Some(b) => b,
                    None => none,
                })
                &&& p.word == 0 && p.line == 0 ==> h.paragraph_at(p).bbox == (
                match page[n].paragraph {
                    Some(b) => b,
                    None => none,
                })
                &&& p.word == 0 && p.line == 0 && p.paragraph == 0 ==> h.block_at(p).bbox == (
                match page[n].block {
                    Some(b) => b,
                    None => none,
                })
            },
{
    let t = layout::blocks_of(page);
    let at = lemma_places(page);
    assert(h.layout() == t);
    assert forall|p: Place| #![trigger h.has_word(p)] #![trigger stands_in(t, p)] h.has_word(p) == stands_in(t, p) by {
        lemma_same_parts(h, p);
    }
    assert forall|n: int| 0 <= n < page.len() implies {
        let w = h.word_at(#[trigger] at[n]);
        &&& h.has_word(at[n])
        &&& w@ == page[n].word
        &&& h.line_at(at[n]).bbox == line_at(t, at[n]).bbox
        &&& h.paragraph_at(at[n]).bbox == t[at[n].block].paragraphs[at[n].paragraph].bbox
        &&& h.block_at(at[n]).bbox == t[at[n].block].bbox
    } by {
        lemma_same_parts(h, at[n]);
        assert(begins(t, at[n], page[n]));
    }
    assert forall|n: int| 0 <= n < page.len() implies {
        let p = #[trigger] at[n];
        &&& begins(t, p, page[n])
        &&& page[n].line is Some ==> p.word == 0
        &&& page[n].paragraph is Some ==> p.word == 0 && p.line == 0
        &&& page[n].block is Some ==> p.word == 0 && p.line == 0 && p.paragraph == 0
    } by {
        if n > 0 {
            assert(at[n] == place_behind(at[n - 1], page[n]));
        }
    }
    at
}

/// Every line of the tree of a page has a confidence that `mean` gave for a list with
/// the confidence of each of its words, in order, and nothing else. Its text is that
/// of its only word, or splits in front of any word but the first into the text of
/// the words before, a space and the text of the others.
pub proof fn every_line_is_summed_up<C, F: Fn(&Vec<C>) -> C>(
    h: TesseractHierarchy<C>,
    page: Seq<Scan<C>>,
    mean: F,
    p: Place,
)
    requires
        builder::is_tree_of(h, page, mean),
        h.has_word(p),
    ensures
        exists|v: Vec<C>|
            {
                &&& #[trigger] call_ensures(mean, (&v,), h.line_at(p).confidence)
                &&& v@.len() == h.line_at(p).words@.len()
                &&& forall|i: int|
                    0 <= i < v@.len() ==> #[trigger] v@[i] == h.line_at(p).words@[i].confidence
            },
        h.line_at(p).words@.len() == 1 ==> h.line_at(p).text@ == h.line_at(p).words@[0].text@,
        forall|i: int|
            0 < i < h.line_at(p).words@.len() ==> h.line_at(p).text@ == #[trigger] text::spaced(
                h.line_at(p).words@.take(i),
            ) + seq![' '] + text::spaced(h.line_at(p).words@.skip(i)),
{
    let f = |b: TesseractBlock<C>| hierarchy::lines_of_paragraphs(b.paragraphs@);
    let g = |p: TesseractParagraph<C>| p.lines@;
    let b = h.block_at(p);
    lemma_flat_map_contains(b.paragraphs@, g, p.paragraph, p.line);
    let k = choose|k: int|
        0 <= k < hierarchy::lines_of_paragraphs(b.paragraphs@).len()
            && hierarchy::lines_of_paragraphs(b.paragraphs@)[k] == h.line_at(p);
    lemma_flat_map_contains(h.blocks@, f, p.block, k);
    let n = choose|n: int| 0 <= n < h.spec_lines().len() && h.spec_lines()[n] == h.line_at(p);
    assert(commit::summed_up(h.spec_lines()[n], mean));
    commit::summed_up_takes_every_word(h.line_at(p), mean);
}

/// The text was read and has a character that is not white space.
pub open spec fn legible<E>(text: Result<String, E>) -> bool {
    text is Ok && exists|k: int|
        0 <= k < text->Ok_0@.len() && !text::is_white_space(#[trigger] text->Ok_0@[k])
}

/// A walk over a page comes to an end with a tree, if there is a word behind each word
/// but the last, and if it is known of each legible word which parts begin with it.
pub proof fn walk_finishes<C, E>(page: Seq<WordReading<C, E>>, zero: C)
    requires
        page.len() > 0,
        forall|i: int|
            0 <= i < page.len() ==> (#[trigger] page[i]).next == Ok::<bool, E>(
                i < page.len() - 1,
            ),
        forall|i: int|
            0 <= i < page.len() && legible((#[trigger] page[i]).text) ==> page[i].at_block is Ok
                && page[i].at_paragraph is Ok && page[i].at_line is Ok,
    ensures
        walk::drive(WalkView::start(zero), page, 10 * page.len()) is Finished,
{
    lemma_complete(page, zero);
}

/// A walk over a page ends with the first error that it comes across in asking which
/// parts begin with a legible word, block before paragraph before line, and in going
/// on to the next word. No other error ends it, be it in reading a text, a box or a
/// confidence, or at a word that is not legible.
pub proof fn walk_fails_with_the_first_error<C, E>(
    page: Seq<WordReading<C, E>>,
    zero: C,
    e: E,
)
    requires
        page.len() > 0,
        forall|i: int|
            0 <= i < page.len() - 1 ==> (#[trigger] page[i]).next == Ok::<bool, E>(true),
        forall|i: int|
            0 <= i < page.len() - 1 && legible((#[trigger] page[i]).text) ==> page[i].at_block is Ok
                && page[i].at_paragraph is Ok && page[i].at_line is Ok,
        ({
            let r = page.last();
            ||| legible(r.text) && r.at_block == Err::<bool, E>(e)
            ||| legible(r.text) && r.at_block is Ok && r.at_paragraph == Err::<bool, E>(e)
            ||| legible(r.text) && r.at_block is Ok && r.at_paragraph is Ok && r.at_line == Err::<
                bool,
                E,
            >(e)
            ||| (legible(r.text) ==> r.at_block is Ok && r.at_paragraph is Ok && r.at_line is Ok)
                && r.next == Err::<bool, E>(e)
        }),
    ensures
        walk::drive(WalkView::start(zero), page, 10 * page.len()) == ProgressView::<C, E>::Failed(
            e,
        ),
{
    assert forall|i: int| 0 <= i < page.len() implies legible((#[trigger] page[i]).text)
        == page[i].visible() by {
        lemma_legible(page[i]);
    }
    assert(legible(page[page.len() - 1].text) == page.last().visible());
    walk::walk_reads_the_page(page, zero);
}

/// The tree that a walk over a page ends with, in terms of what was read of the page.
///
/// `seen` are the words of the page that are legible, all of them and in order, and
/// `at` is where they stand in the tree, in which nothing else stands. The text of a
/// word is what was read without the white space around it. Its box and those of the
/// parts that begin with it are what was read for each of them, or zero where that
/// failed or was not there to read. Its confidence is what was read, or zero where
/// that failed or is not greater than zero.
#[verifier::spinoff_prover]
pub proof fn walk_ends_with_the_tree_of_the_page<C, E, F: Fn(&Vec<C>) -> C>(
    page: Seq<WordReading<C, E>>,
    zero: C,
    words: Seq<Scan<C>>,
    h: TesseractHierarchy<C>,
    mean: F,
) -> (r: (Seq<int>, Seq<Place>))
    requires
        page.len() > 0,
        forall|i: int|
            0 <= i < page.len() ==> (#[trigger] page[i]).next == Ok::<bool, E>(
                i < page.len() - 1,
            ),
        forall|i: int|
            0 <= i < page.len() && legible((#[trigger] page[i]).text) ==> page[i].at_block is Ok
                && page[i].at_paragraph is Ok && page[i].at_line is Ok,
        walk::drive(WalkView::start(zero), page, 10 * page.len()) == ProgressView::<
            C,
            E,
        >::Finished(words),
        builder::is_tree_of(h, words, mean),
    ensures
        ({
            let (seen, at) = r;
            let none = BoundingBox { left: 0, top: 0, right: 0, bottom: 0 };
            &&& seen.len() == at.len()
            &&& forall|n: int| 0 <= n < seen.len() ==> 0 <= #[trigger] seen[n] < page.len()
            &&& forall|m: int, n: int|
                0 <= m < n < seen.len() ==> #[trigger] seen[m] < #[trigger] seen[n]
            &&& forall|i: int|
                0 <= i < page.len() ==> (legible((#[trigger] page[i]).text) <==> seen.contains(i))
            &&& at.no_duplicates()
            &&& forall|n: int| 0 <= n < at.len() ==> h.has_word(#[trigger] at[n])
            &&& forall|p: Place| #[trigger] h.has_word(p) ==> at.contains(p)
            &&& at.len() == 0 ==> h.blocks@.len() == 0
            // The text.
            &&& forall|n: int|
                0 <= n < at.len() ==> {
                    let t = page[seen[n]].text->Ok_0@;
                    let u = h.word_at(#[trigger] at[n]).text@;
                    &&& u.len() > 0
                    &&& !text::is_white_space(u[0])
                    &&& !text::is_white_space(u[u.len() - 1])
                    &&& exists|a: int|
                        {
                            &&& 0 <= a <= a + u.len() <= t.len()
                            &&& u == #[trigger] t.subrange(a, a + u.len())
                            &&& forall|k: int|
                                0 <= k < a || a + u.len() <= k < t.len() ==> text::is_white_space(
                                    #[trigger] t[k],
                                )
                        }
                }
            // The box and the confidence of the word.
            &&& forall|n: int|
                0 <= n < at.len() ==> {
                    let w = h.word_at(#[trigger] at[n]);
                    &&& match page[seen[n]].bbox {
                        Ok((left, top, right, bottom)) => w.bbox == BoundingBox {
                            left,
                            top,
                            right,
                            bottom,
                        },
                        Err(_) => w.bbox == none,
                    }
                    &&& match page[seen[n]].confidence {
                        Ok((c, positive)) => w.confidence == if positive { c } else { zero },
                        Err(_) => w.confidence == zero,
                    }
                }
            // Where the word stands.
            &&& at.len() > 0 ==> at[0] == Place { block: 0, paragraph: 0, line: 0, word: 0 }
            &&& forall|m: int, n: int|
                0 <= m && m + 1 == n && n < at.len() ==> {
                    let (p, q) = (#[trigger] at[m], #[trigger] at[n]);
                    if page[seen[n]].at_block == Ok::<bool, E>(true) {
                        q == Place { block: p.block + 1, paragraph: 0, line: 0, word: 0 }
                    } else if page[seen[n]].at_paragraph == Ok::<bool, E>(true) {
                        q == Place {
                            block: p.block,
                            paragraph: p.paragraph + 1,
                            line: 0,
                            word: 0,
                        }
                    } else if page[seen[n]].at_line == Ok::<bool, E>(true) {
                        q == Place {
                            block: p.block,
                            paragraph: p.paragraph,
                            line: p.line + 1,
                            word: 0,
                        }
                    } else {
                        q == Place {
                            block: p.block,
                            paragraph: p.paragraph,
                            line: p.line,
                            word: p.word + 1,
                        }
                    }
                }
            // The boxes of the parts that begin with the word.
            &&& forall|n: int|
                0 <= n < at.len() ==> {
                    let (p, w) = (#[trigger] at[n], page[seen[n]]);
                    &&& w.at_line == Ok::<bool, E>(true) ==> p.word == 0
                    &&& w.at_paragraph == Ok::<bool, E>(true) ==> p.word == 0 && p.line == 0
                    &&& w.at_block == Ok::<bool, E>(true) ==> p.word == 0 && p.line == 0
                        && p.paragraph == 0
                    &&& p.word == 0 ==> match (w.at_line, w.line_box) {
                        (Ok(true), Ok((left, top, right, bottom))) => h.line_at(p).bbox
                            == BoundingBox { left, top, right, bottom },
                        _ => h.line_at(p).bbox == none,
                    }
                    &&& p.word == 0 && p.line == 0 ==> match (w.at_paragraph, w.paragraph_box) {
                        (Ok(true), Ok((left, top, right, bottom))) => h.paragraph_at(p).bbox
                            == BoundingBox { left, top, right, bottom },
                        _ => h.paragraph_at(p).bbox == none,
                    }
                    &&& p.word == 0 && p.line == 0 && p.paragraph == 0 ==> match (
                        w.at_block,
                        w.block_box,
                    ) {
                        (Ok(true), Ok((left, top, right, bottom))) => h.block_at(p).bbox
                            == BoundingBox { left, top, right, bottom },
                        _ => h.block_at(p).bbox == none,
                    }
                }
        }),
{
    lemma_complete(page, zero);
    let seen = lemma_seen(page, zero);
    let at = tree_follows_the_boundaries(h, words, mean);
    assert forall|i: int| 0 <= i < page.len() implies (legible((#[trigger] page[i]).text)
        <==> seen.contains(i)) by {
        lemma_legible(page[i]);
    }
    assert forall|n: int| 0 <= n < seen.len() implies {
        let r = page[#[trigger] seen[n]];
        &&& 0 <= seen[n] < page.len()
        &&& words[n] == r.scan(zero)
        &&& r.visible()
        &&& r.at_block is Ok && r.at_paragraph is Ok && r.at_line is Ok
    } by {
        assert(seen.contains(seen[n]));
        assert(legible(page[seen[n]].text));
    }
    assert forall|n: int| 0 <= n < at.len() implies read_as(
        page[seen[n]],
        zero,
        h.word_at(#[trigger] at[n]),
    ) by {
        let r = page[seen[n]];
        assert(words[n] == r.scan(zero));
        lemma_read_as(r, zero, h.word_at(at[n]));
    }
    assert forall|m: int, n: int| 0 <= m && m + 1 == n && n < at.len() implies {
        let (p, q) = (#[trigger] at[m], #[trigger] at[n]);
        if page[seen[n]].at_block == Ok::<bool, E>(true) {
            q == Place { block: p.block + 1, paragraph: 0, line: 0, word: 0 }
        } else if page[seen[n]].at_paragraph == Ok::<bool, E>(true) {
            q == Place { block: p.block, paragraph: p.paragraph + 1, line: 0, word: 0 }
        } else if page[seen[n]].at_line == Ok::<bool, E>(true) {
            q == Place { block: p.block, paragraph: p.paragraph, line: p.line + 1, word: 0 }
        } else {
            q == Place {
                block: p.block,
                paragraph: p.paragraph,
                line: p.line,
                word: p.word + 1,
            }
        }
    } by {
        assert(words[n] == page[seen[n]].scan(zero));
    }
    assert forall|n: int| 0 <= n < at.len() implies boxed_as(
        page[seen[n]],
        #[trigger] at[n],
        h.line_at(at[n]).bbox,
        h.paragraph_at(at[n]).bbox,
        h.block_at(at[n]).bbox,
    ) by {
        assert(words[n] == page[seen[n]].scan(zero));
    }
    (seen, at)
}

/// `w` is what was read of its word.
spec fn read_as<C, E>(r: WordReading<C, E>, zero: C, w: TesseractWord<C>) -> bool {
    let t = r.text->Ok_0@;
    let u = w.text@;
    let none = BoundingBox { left: 0, top: 0, right: 0, bottom: 0 };
    &&& u.len() > 0
    &&& !text::is_white_space(u[0])
    &&& !text::is_white_space(u[u.len() - 1])
    &&& exists|a: int|
        {
            &&& 0 <= a <= a + u.len() <= t.len()
            &&& u == #[trigger] t.subrange(a, a + u.len())
            &&& forall|k: int|
                0 <= k < a || a + u.len() <= k < t.len() ==> text::is_white_space(#[trigger] t[k])
        }
    &&& match r.bbox {
        Ok((left, top, right, bottom)) => w.bbox == BoundingBox { left, top, right, bottom },
        Err(_) => w.bbox == none,
    }
    &&& match r.confidence {
        Ok((c, positive)) => w.confidence == if positive {
            c
        } else {
            zero
        },
        Err(_) => w.confidence == zero,
    }
}

proof fn lemma_read_as<C, E>(r: WordReading<C, E>, zero: C, w: TesseractWord<C>)
    requires
        r.visible(),
        w.text@ == r.scan(zero).word.text,
        w.bbox == r.scan(zero).word.bbox,
        w.confidence == r.scan(zero).word.confidence,
    ensures
        read_as(r, zero, w),
{
    let t = r.text->Ok_0@;
    let u = w.text@;
    text::trimmed_is_the_core(t);
    let (i, j) = choose|i: int, j: int|
        {
            &&& 0 <= i <= j <= t.len()
            &&& text::trimmed(t) == #[trigger] t.subrange(i, j)
            &&& forall|k: int| 0 <= k < i ==> text::is_white_space(t[k])
            &&& forall|k: int| j <= k < t.len() ==> text::is_white_space(t[k])
        };
    assert(u == t.subrange(i, i + u.len()));
}

/// The boxes are those that were read of the parts that begin at `p`.
spec fn boxed_as<C, E>(
    r: WordReading<C, E>,
    p: Place,
    line: BoundingBox,
    paragraph: BoundingBox,
    block: BoundingBox,
) -> bool {
    let none = BoundingBox { left: 0, top: 0, right: 0, bottom: 0 };
    &&& r.at_line == Ok::<bool, E>(true) ==> p.word == 0
    &&& r.at_paragraph == Ok::<bool, E>(true) ==> p.word == 0 && p.line == 0
    &&& r.at_block == Ok::<bool, E>(true) ==> p.word == 0 && p.line == 0 && p.paragraph == 0
    &&& p.word == 0 ==> match (r.at_line, r.line_box) {
        (Ok(true), Ok((left, top, right, bottom))) => line == BoundingBox {
            left,
            top,
            right,
            bottom,
        },
        _ => line == none,
    }
    &&& p.word == 0 && p.line == 0 ==> match (r.at_paragraph, r.paragraph_box) {
        (Ok(true), Ok((left, top, right, bottom))) => paragraph == BoundingBox {
            left,
            top,
            right,
            bottom,
        },
        _ => paragraph == none,
    }
    &&& p.word == 0 && p.line == 0 && p.paragraph == 0 ==> match (r.at_block, r.block_box) {
        (Ok(true), Ok((left, top, right, bottom))) => block == BoundingBox {
            left,
            top,
            right,
            bottom,
        },
        _ => block == none,
    }
}

proof fn lemma_legible<C, E>(r: WordReading<C, E>)
    ensures
        legible(r.text) == r.visible(),
{
    if r.text is Ok {
        text::blank_is_all_white_space(r.text->Ok_0@);
    }
}

proof fn lemma_complete<C, E>(page: Seq<WordReading<C, E>>, zero: C)
    requires
        page.len() > 0,
        forall|i: int|
            0 <= i < page.len() ==> (#[trigger] page[i]).next == Ok::<bool, E>(
                i < page.len() - 1,
            ),
        forall|i: int|
            0 <= i < page.len() && legible((#[trigger] page[i]).text) ==> page[i].at_block is Ok
                && page[i].at_paragraph is Ok && page[i].at_line is Ok,
    ensures
        walk::drive(WalkView::start(zero), page, 10 * page.len()) == ProgressView::<
            C,
            E,
        >::Finished(walk::visible_scans(page, zero)),
{
    assert forall|i: int| 0 <= i < page.len() implies legible((#[trigger] page[i]).text)
        == page[i].visible() by {
        lemma_legible(page[i]);
    }
    assert(page[page.len() - 1] == page.last());
    walk::walk_reads_the_page(page, zero);
}

/// Which words of `page` are visible.
proof fn lemma_seen<C, E>(page: Seq<WordReading<C, E>>, zero: C) -> (seen: Seq<int>)
    ensures
        seen.len() == walk::visible_scans(page, zero).len(),
        forall|n: int| 0 <= n < seen.len() ==> 0 <= #[trigger] seen[n] < page.len(),
        forall|m: int, n: int| 0 <= m < n < seen.len() ==> #[trigger] seen[m] < #[trigger] seen[n],
        forall|i: int|
            0 <= i < page.len() ==> ((#[trigger] page[i]).visible() <==> seen.contains(i)),
        forall|n: int|
            0 <= n < seen.len() ==> walk::visible_scans(page, zero)[n] == page[#[trigger] seen[n]].scan(
                zero,
            ),
    decreases page.len(),
{
    let visible = |r: WordReading<C, E>| r.visible();
    if page.len() == 0 {
        reveal(Seq::filter);
        Seq::empty()
    } else {
        let rest = page.drop_last();
        let r = page.last();
        let before = lemma_seen(rest, zero);
        assert(page =~= rest.push(r));
        rest.lemma_filter_push(r, visible);
        let seen = if r.visible() {
            before.push(page.len() - 1)
        } else {
            before
        };
        assert(walk::visible_scans(page, zero) =~= if r.visible() {
            walk::visible_scans(rest, zero).push(r.scan(zero))
        } else {
            walk::visible_scans(rest, zero)
        });
        assert forall|i: int| 0 <= i < page.len() implies ((#[trigger] page[i]).visible()
            <==> seen.contains(i)) by {
            if i < rest.len() {
                assert(rest[i] == page[i]);
                if rest[i].visible() {
                    let n = choose|n: int| 0 <= n < before.len() && before[n] == i;
                    assert(seen[n] == i);
                } else if seen.contains(i) {
                    let n = choose|n: int| 0 <= n < seen.len() && seen[n] == i;
                    assert(before[n] == i);
                }
            } else if r.visible() {
                assert(seen[seen.len() - 1] == i);
            } else if seen.contains(i) {
                let n = choose|n: int| 0 <= n < seen.len() && seen[n] == i;
                assert(before[n] < rest.len());
            }
        }
        assert forall|n: int| 0 <= n < seen.len() implies walk::visible_scans(page, zero)[n]
            == page[#[trigger] seen[n]].scan(zero) by {
            if n < before.len() {
                assert(rest[before[n]] == page[before[n]]);
            }
        }
        seen
    }
}

/// The parts of a tree at a place and those of its layout.
proof fn lemma_same_parts<C>(h: TesseractHierarchy<C>, p: Place)
    ensures
        h.has_word(p) == stands_in(h.layout(), p),
        h.has_word(p) ==> {
            let t = h.layout();
            &&& h.word_at(p)@ == line_at(t, p).words[p.word]
            &&& h.line_at(p).bbox == line_at(t, p).bbox
            &&& h.paragraph_at(p).bbox == t[p.block].paragraphs[p.paragraph].bbox
            &&& h.block_at(p).bbox == t[p.block].bbox
        },
{
    let t = h.layout();
    assert(t.len() == h.blocks@.len());
    if 0 <= p.block < t.len() {
        assert(t[p.block] == h.block_at(p).layout());
        if 0 <= p.paragraph < t[p.block].paragraphs.len() {
            assert(t[p.block].paragraphs[p.paragraph] == h.paragraph_at(p).layout());
            if 0 <= p.line < t[p.block].paragraphs[p.paragraph].lines.len() {
                assert(line_at(t, p) == h.line_at(p).layout());
            }
        }
    }
}

proof fn lemma_flat_map_contains<A, B>(s: Seq<A>, f: spec_fn(A) -> Seq<B>, i: int, k: int)
    requires
        0 <= i < s.len(),
        0 <= k < f(s[i]).len(),
    ensures
        s.flat_map(f).contains(f(s[i])[k]),
    decreases s.len(),
{
    let rest = s.drop_last();
    assert(s =~= rest.push(s.last()));
    rest.lemma_flat_map_push(f, s.last());
    let all = rest.flat_map(f) + f(s.last());
    if i < rest.len() {
        lemma_flat_map_contains(rest, f, i, k);
        let n = choose|n: int| 0 <= n < rest.flat_map(f).len() && rest.flat_map(f)[n] == f(s[i])[k];
        assert(all[n] == f(s[i])[k]);
    } else {
        assert(all[rest.flat_map(f).len() + k] == f(s[i])[k]);
    }
}

} // verus!
