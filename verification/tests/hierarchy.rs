use tesseract_rs::{
    BoundingBox, TesseractBlock, TesseractHierarchy, TesseractParagraph, TesseractTextLine,
    TesseractWord,
};

fn word(text: &str, confidence: f32) -> TesseractWord<f32> {
    TesseractWord { text: text.to_string(), bbox: BoundingBox::default(), confidence }
}

fn line(words: Vec<TesseractWord<f32>>) -> TesseractTextLine<f32> {
    TesseractTextLine {
        text: String::new(),
        bbox: BoundingBox::default(),
        confidence: 0.0,
        words,
    }
}

fn two_blocks() -> TesseractHierarchy<f32> {
    TesseractHierarchy {
        blocks: vec![
            TesseractBlock {
                bbox: BoundingBox::default(),
                paragraphs: vec![
                    TesseractParagraph {
                        bbox: BoundingBox::default(),
                        lines: vec![
                            line(vec![word("a", 1.0), word("b", 2.0)]),
                            line(vec![]),
                        ],
                    },
                    TesseractParagraph {
                        bbox: BoundingBox::default(),
                        lines: vec![line(vec![word("c", 3.0)])],
                    },
                ],
            },
            TesseractBlock {
                bbox: BoundingBox::default(),
                paragraphs: vec![TesseractParagraph {
                    bbox: BoundingBox::default(),
                    lines: vec![line(vec![word("d", 4.0), word("e", 5.0)])],
                }],
            },
        ],
    }
}

fn texts(h: &TesseractHierarchy<f32>) -> Vec<String> {
    h.iter_words().map(|w| w.text.clone()).collect()
}

#[test]
fn bounding_box_constructor_and_dims() {
    let b = BoundingBox::from_lrtb(10, 20, 110, 60);
    assert_eq!(b.width(), 100);
    assert_eq!(b.height(), 40);
    assert!(!b.is_empty());

    let zero = BoundingBox::default();
    assert!(zero.is_empty());
}

#[test]
fn from_lrtb_takes_left_top_right_bottom() {
    let b = BoundingBox::from_lrtb(1, 2, 3, 4);
    assert_eq!((b.left, b.top, b.right, b.bottom), (1, 2, 3, 4));
    assert_eq!(b, BoundingBox { left: 1, top: 2, right: 3, bottom: 4 });
}

#[test]
fn inverted_box_has_no_extent() {
    let b = BoundingBox::from_lrtb(50, 60, 10, 20);
    assert_eq!(b.width(), 0);
    assert_eq!(b.height(), 0);
    assert!(b.is_empty());
}

#[test]
fn box_with_one_extent_is_not_empty() {
    assert!(!BoundingBox::from_lrtb(0, 5, 7, 5).is_empty());
    assert!(!BoundingBox::from_lrtb(5, 0, 5, 7).is_empty());
}

#[test]
fn extents_reach_the_limits_of_pixels() {
    assert_eq!(BoundingBox::from_lrtb(0, 0, i32::MAX, 0).width(), i32::MAX);
    assert_eq!(BoundingBox::from_lrtb(0, -1, 0, i32::MAX - 1).height(), i32::MAX);
    assert_eq!(BoundingBox::from_lrtb(0, 0, i32::MIN, 0).width(), 0);
    // The height is not looked at where the width is not zero.
    assert!(!BoundingBox::from_lrtb(0, i32::MIN, 1, i32::MAX).is_empty());
}

#[test]
fn hierarchy_aggregations_empty() {
    let h = TesseractHierarchy::<f32>::default();
    assert_eq!(h.word_count(), 0);
    assert_eq!(h.iter_lines().count(), 0);
    assert_eq!(h.iter_words().count(), 0);
}

#[test]
fn hierarchy_aggregations_synthetic() {
    let line = TesseractTextLine {
        text: "Mario Rossi".into(),
        bbox: BoundingBox::from_lrtb(0, 0, 200, 30),
        confidence: 95.0,
        words: vec![
            TesseractWord {
                text: "Mario".into(),
                bbox: BoundingBox::from_lrtb(0, 0, 90, 30),
                confidence: 96.0,
            },
            TesseractWord {
                text: "Rossi".into(),
                bbox: BoundingBox::from_lrtb(100, 0, 200, 30),
                confidence: 94.0,
            },
        ],
    };
    let para = TesseractParagraph {
        bbox: line.bbox,
        lines: vec![line],
    };
    let block = TesseractBlock {
        bbox: para.bbox,
        paragraphs: vec![para],
    };
    let h: TesseractHierarchy<f32> = TesseractHierarchy { blocks: vec![block] };

    assert_eq!(h.word_count(), 2);
    assert_eq!(h.iter_lines().count(), 1);
    assert_eq!(h.iter_words().count(), 2);
    assert_eq!(h.iter_words().nth(1).unwrap().text, "Rossi");
}

#[test]
fn iteration_is_in_reading_order() {
    let h = two_blocks();
    assert_eq!(texts(&h), vec!["a", "b", "c", "d", "e"]);
    let lengths: Vec<usize> = h.iter_lines().map(|l| l.words.len()).collect();
    assert_eq!(lengths, vec![2, 0, 1, 2]);
    assert_eq!(h.word_count(), 5);
    assert_eq!(h.word_count(), h.iter_words().count());
}

#[test]
fn parts_without_children_add_nothing() {
    let h: TesseractHierarchy<f32> = TesseractHierarchy {
        blocks: vec![
            TesseractBlock::default(),
            TesseractBlock {
                bbox: BoundingBox::default(),
                paragraphs: vec![TesseractParagraph::default()],
            },
        ],
    };
    assert_eq!(h.word_count(), 0);
    assert_eq!(h.iter_lines().count(), 0);
}

#[test]
fn pages_put_together_keep_their_order() {
    let first = two_blocks();
    let second = TesseractHierarchy {
        blocks: vec![TesseractBlock {
            bbox: BoundingBox::default(),
            paragraphs: vec![TesseractParagraph {
                bbox: BoundingBox::default(),
                lines: vec![line(vec![word("z", 9.0)])],
            }],
        }],
    };
    let mut both = first.clone();
    both.blocks.extend(second.blocks.clone());
    assert_eq!(texts(&both), vec!["a", "b", "c", "d", "e", "z"]);
    assert_eq!(both.word_count(), first.word_count() + second.word_count());
    assert_eq!(
        both.iter_lines().count(),
        first.iter_lines().count() + second.iter_lines().count()
    );
}

#[test]
fn defaults_are_blank() {
    let w = TesseractWord::<f32>::default();
    assert_eq!((w.text.as_str(), w.bbox, w.confidence), ("", BoundingBox::default(), 0.0));
    let l = TesseractTextLine::<f32>::default();
    assert_eq!((l.text.as_str(), l.bbox, l.confidence), ("", BoundingBox::default(), 0.0));
    assert!(l.words.is_empty());
    let p = TesseractParagraph::<f32>::default();
    assert_eq!(p.bbox, BoundingBox::default());
    assert!(p.lines.is_empty());
    let b = TesseractBlock::<f32>::default();
    assert_eq!(b.bbox, BoundingBox::default());
    assert!(b.paragraphs.is_empty());
}
