use tesseract_rs::commit::{commit_block, commit_line, commit_para};
use tesseract_rs::{
    BoundingBox, TesseractBlock, TesseractHierarchy, TesseractParagraph, TesseractTextLine,
    TesseractWord,
};

fn mean(confidences: &Vec<f32>) -> f32 {
    confidences.iter().sum::<f32>() / confidences.len() as f32
}

fn word(text: &str, confidence: f32) -> TesseractWord<f32> {
    TesseractWord {
        text: text.to_string(),
        bbox: BoundingBox::from_lrtb(1, 2, 3, 4),
        confidence,
    }
}

fn line(words: Vec<TesseractWord<f32>>) -> TesseractTextLine<f32> {
    TesseractTextLine {
        text: "before".to_string(),
        bbox: BoundingBox::from_lrtb(5, 6, 7, 8),
        confidence: 12.0,
        words,
    }
}

fn paragraph(lines: Vec<TesseractTextLine<f32>>) -> TesseractParagraph<f32> {
    TesseractParagraph { bbox: BoundingBox::from_lrtb(9, 10, 11, 12), lines }
}

fn block(paragraphs: Vec<TesseractParagraph<f32>>) -> TesseractBlock<f32> {
    TesseractBlock { bbox: BoundingBox::from_lrtb(13, 14, 15, 16), paragraphs }
}

#[test]
fn a_line_is_summed_up_and_put_last() {
    let first = line(vec![word("a", 10.0)]);
    let mut cur = Some(line(vec![word("b", 30.0), word("c", 50.0)]));
    let mut parent = Some(paragraph(vec![first.clone()]));
    commit_line(&mut cur, &mut parent, &mean);
    assert_eq!(cur, None);
    let lines = parent.unwrap().lines;
    assert_eq!(lines.len(), 2);
    assert_eq!(lines[0], first);
    assert_eq!(lines[1].text, "b c");
    assert_eq!(lines[1].confidence, 40.0);
    assert_eq!(lines[1].bbox, BoundingBox::from_lrtb(5, 6, 7, 8));
    assert_eq!(lines[1].words, vec![word("b", 30.0), word("c", 50.0)]);
}

#[test]
fn a_line_without_words_keeps_its_confidence() {
    let mut cur = Some(line(vec![]));
    let mut parent = Some(paragraph(vec![]));
    commit_line(&mut cur, &mut parent, &mean);
    let lines = parent.unwrap().lines;
    assert_eq!((lines[0].text.as_str(), lines[0].confidence), ("", 12.0));
}

#[test]
fn nothing_is_put_where_there_is_no_parent() {
    let mut cur = Some(line(vec![word("a", 10.0)]));
    let mut parent = None;
    commit_line(&mut cur, &mut parent, &mean);
    assert_eq!((cur, parent), (None, None));
    let mut cur = Some(paragraph(vec![line(vec![])]));
    let mut parent = None;
    commit_para(&mut cur, &mut parent);
    assert_eq!((cur, parent), (None, None));
}

#[test]
fn a_line_is_committed_once() {
    let mut cur = Some(line(vec![word("a", 10.0)]));
    let mut parent = Some(paragraph(vec![]));
    commit_line(&mut cur, &mut parent, &mean);
    let once = parent.clone();
    commit_line(&mut cur, &mut parent, &mean);
    assert_eq!(cur, None);
    assert_eq!(parent, once);
}

#[test]
fn the_text_and_confidence_before_have_no_influence() {
    let words = vec![word("a", 10.0), word("b", 20.0)];
    let other = TesseractTextLine {
        text: "something else".to_string(),
        confidence: 99.0,
        ..line(words.clone())
    };
    let mut parent1 = Some(paragraph(vec![line(vec![])]));
    let mut parent2 = parent1.clone();
    commit_line(&mut Some(line(words)), &mut parent1, &mean);
    commit_line(&mut Some(other), &mut parent2, &mean);
    assert_eq!(parent1, parent2);
    assert_eq!(parent1.unwrap().lines[1].confidence, 15.0);
}

#[test]
fn a_paragraph_without_lines_is_not_put() {
    let before = block(vec![paragraph(vec![line(vec![])])]);
    let mut parent = Some(before.clone());
    commit_para(&mut Some(paragraph(vec![])), &mut parent);
    assert_eq!(parent, Some(before.clone()));
    let mut cur = Some(paragraph(vec![line(vec![word("a", 1.0)])]));
    commit_para(&mut cur, &mut parent);
    assert_eq!(cur, None);
    let after = parent.unwrap();
    assert_eq!(after.bbox, before.bbox);
    assert_eq!(after.paragraphs.len(), 2);
    assert_eq!(after.paragraphs[0], before.paragraphs[0]);
    assert!(after.paragraphs.iter().all(|p| !p.lines.is_empty()));
}

#[test]
fn a_paragraph_is_committed_once() {
    let mut cur = Some(paragraph(vec![line(vec![])]));
    let mut parent = Some(block(vec![]));
    commit_para(&mut cur, &mut parent);
    let once = parent.clone();
    commit_para(&mut cur, &mut parent);
    assert_eq!(cur, None);
    assert_eq!(parent, once);
}

#[test]
fn a_block_without_paragraphs_is_not_put() {
    let full = block(vec![paragraph(vec![line(vec![word("a", 1.0)])])]);
    let mut page = TesseractHierarchy { blocks: vec![full.clone()] };
    commit_block(&mut Some(block(vec![])), &mut page);
    assert_eq!(page.blocks, vec![full.clone()]);
    commit_block(&mut None, &mut page);
    assert_eq!(page.blocks, vec![full.clone()]);
    let mut cur = Some(full.clone());
    commit_block(&mut cur, &mut page);
    assert_eq!(cur, None);
    assert_eq!(page.blocks, vec![full.clone(), full.clone()]);
    commit_block(&mut cur, &mut page);
    assert_eq!(page.blocks.len(), 2);
}

#[test]
fn committing_a_block_loses_no_word() {
    let full = block(vec![
        paragraph(vec![line(vec![word("a", 1.0), word("b", 2.0)])]),
        paragraph(vec![line(vec![word("c", 3.0)])]),
    ]);
    for cur in [full.clone(), block(vec![])] {
        let mut page = TesseractHierarchy { blocks: vec![full.clone()] };
        let before = page.word_count();
        let alone = TesseractHierarchy { blocks: vec![cur.clone()] };
        commit_block(&mut Some(cur), &mut page);
        assert_eq!(page.word_count(), before + alone.word_count());
    }
}
