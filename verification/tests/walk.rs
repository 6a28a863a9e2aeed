use tesseract_rs::walk::WordReading;
use tesseract_rs::{
    BoundingBox, HierarchyWalk, Level, Progress, Reply, Request, TesseractHierarchy,
};

type Reading = WordReading<f32, &'static str>;

const BLOCK_BOX: (i32, i32, i32, i32) = (1, 2, 301, 402);
const PARA_BOX: (i32, i32, i32, i32) = (3, 4, 203, 104);
const LINE_BOX: (i32, i32, i32, i32) = (5, 6, 105, 26);
const WORD_BOX: (i32, i32, i32, i32) = (7, 8, 57, 28);

fn bbox(e: (i32, i32, i32, i32)) -> BoundingBox {
    BoundingBox::from_lrtb(e.0, e.1, e.2, e.3)
}

/// A word inside a line, with another word behind it.
fn word(text: &str) -> Reading {
    WordReading {
        text: Ok(text.to_string()),
        bbox: Ok(WORD_BOX),
        confidence: Ok((90.0, true)),
        at_block: Ok(false),
        block_box: Ok(BLOCK_BOX),
        at_paragraph: Ok(false),
        paragraph_box: Ok(PARA_BOX),
        at_line: Ok(false),
        line_box: Ok(LINE_BOX),
        next: Ok(true),
    }
}

fn line_start(text: &str) -> Reading {
    WordReading { at_line: Ok(true), ..word(text) }
}

fn paragraph_start(text: &str) -> Reading {
    WordReading { at_paragraph: Ok(true), ..line_start(text) }
}

fn block_start(text: &str) -> Reading {
    WordReading { at_block: Ok(true), ..paragraph_start(text) }
}

fn mean(confidences: &Vec<f32>) -> f32 {
    confidences.iter().sum::<f32>() / confidences.len() as f32
}

fn edges(e: &Result<(i32, i32, i32, i32), &'static str>) -> Reply<f32, &'static str> {
    match e {
        Ok((l, t, r, b)) => Reply::Edges(*l, *t, *r, *b),
        Err(e) => Reply::Failed(e),
    }
}

fn flag(f: &Result<bool, &'static str>) -> Reply<f32, &'static str> {
    match f {
        Ok(b) => Reply::Flag(*b),
        Err(e) => Reply::Failed(e),
    }
}

fn answer(r: &Reading, request: Request) -> Reply<f32, &'static str> {
    match request {
        Request::GetUtf8Text => match &r.text {
            Ok(t) => Reply::Text(t.clone()),
            Err(e) => Reply::Failed(e),
        },
        Request::GetBoundingBox(Level::Word) => edges(&r.bbox),
        Request::GetBoundingBox(Level::Block) => edges(&r.block_box),
        Request::GetBoundingBox(Level::Para) => edges(&r.paragraph_box),
        Request::GetBoundingBox(Level::TextLine) => edges(&r.line_box),
        Request::Confidence => match &r.confidence {
            Ok((c, positive)) => Reply::Confidence(*c, *positive),
            Err(e) => Reply::Failed(e),
        },
        Request::IsAtBeginningOf(Level::Block) => flag(&r.at_block),
        Request::IsAtBeginningOf(Level::Para) => flag(&r.at_paragraph),
        Request::IsAtBeginningOf(Level::TextLine) => flag(&r.at_line),
        Request::IsAtBeginningOf(Level::Word) => panic!("not a boundary"),
        Request::Next => flag(&r.next),
    }
}

/// Walks over `page`, whose last word has nothing behind it, and notes the requests.
fn walk_noting(
    mut page: Vec<Reading>,
) -> (Result<TesseractHierarchy<f32>, &'static str>, Vec<Request>) {
    if let Some(last) = page.last_mut() {
        if last.next == Ok(true) {
            last.next = Ok(false);
        }
    }
    let mut at = 0;
    let mut requests = Vec::new();
    let mut walk = HierarchyWalk::new(mean, 0.0f32);
    loop {
        let request = walk.request();
        requests.push(request);
        match walk.step(answer(&page[at], request)) {
            Progress::Continue(w) => walk = w,
            Progress::Finished(h) => return (Ok(h), requests),
            Progress::Failed(e) => return (Err(e), requests),
        }
        if request == Request::Next {
            at += 1;
        }
    }
}

fn walk(page: Vec<Reading>) -> Result<TesseractHierarchy<f32>, &'static str> {
    walk_noting(page).0
}

/// The texts of the lines, nested by block and paragraph.
fn outline(h: &TesseractHierarchy<f32>) -> Vec<Vec<Vec<String>>> {
    h.blocks
        .iter()
        .map(|b| {
            b.paragraphs
                .iter()
                .map(|p| p.lines.iter().map(|l| l.text.clone()).collect())
                .collect()
        })
        .collect()
}

fn texts(h: &TesseractHierarchy<f32>) -> Vec<String> {
    h.iter_words().map(|w| w.text.clone()).collect()
}

#[test]
fn one_word_has_every_level() {
    let h = walk(vec![block_start("ciao")]).unwrap();
    assert_eq!(h.blocks.len(), 1);
    assert_eq!(h.blocks[0].bbox, bbox(BLOCK_BOX));
    assert_eq!(h.blocks[0].paragraphs.len(), 1);
    assert_eq!(h.blocks[0].paragraphs[0].bbox, bbox(PARA_BOX));
    assert_eq!(h.blocks[0].paragraphs[0].lines.len(), 1);
    let line = &h.blocks[0].paragraphs[0].lines[0];
    assert_eq!(line.bbox, bbox(LINE_BOX));
    assert_eq!(line.text, "ciao");
    assert_eq!(line.confidence, 90.0);
    assert_eq!(line.words.len(), 1);
    assert_eq!(line.words[0].text, "ciao");
    assert_eq!(line.words[0].bbox, bbox(WORD_BOX));
    assert_eq!(line.words[0].confidence, 90.0);
}

#[test]
fn words_nest_by_their_boundaries() {
    let h = walk(vec![
        block_start("a"),
        word("b"),
        line_start("c"),
        paragraph_start("d"),
        word("e"),
        block_start("f"),
        line_start("g"),
    ])
    .unwrap();
    assert_eq!(
        outline(&h),
        vec![
            vec![vec!["a b".to_string(), "c".to_string()], vec!["d e".to_string()]],
            vec![vec!["f".to_string(), "g".to_string()]],
        ]
    );
}

#[test]
fn blocks_of_one_line_stay_apart() {
    let first = block_start("one");
    let second = WordReading { block_box: Ok((9, 9, 10, 10)), ..block_start("two") };
    let h = walk(vec![first, second]).unwrap();
    assert_eq!(
        outline(&h),
        vec![vec![vec!["one".to_string()]], vec![vec!["two".to_string()]]]
    );
    assert_eq!(h.blocks[0].bbox, bbox(BLOCK_BOX));
    assert_eq!(h.blocks[1].bbox, BoundingBox::from_lrtb(9, 9, 10, 10));
}

#[test]
fn last_line_of_a_paragraph_stays_in_it() {
    let h = walk(vec![block_start("a"), line_start("b"), paragraph_start("c")]).unwrap();
    assert_eq!(
        outline(&h),
        vec![vec![vec!["a".to_string(), "b".to_string()], vec!["c".to_string()]]]
    );
}

#[test]
fn a_page_without_boundaries_gets_scopes_without_boxes() {
    let h = walk(vec![word("a"), word("b")]).unwrap();
    assert_eq!(outline(&h), vec![vec![vec!["a b".to_string()]]]);
    assert_eq!(h.blocks[0].bbox, BoundingBox::default());
    assert_eq!(h.blocks[0].paragraphs[0].bbox, BoundingBox::default());
    assert_eq!(h.blocks[0].paragraphs[0].lines[0].bbox, BoundingBox::default());
}

#[test]
fn a_boundary_closes_the_scopes_inside() {
    let only_block = WordReading { at_block: Ok(true), ..word("b") };
    let h = walk(vec![block_start("a"), only_block]).unwrap();
    assert_eq!(
        outline(&h),
        vec![vec![vec!["a".to_string()]], vec![vec!["b".to_string()]]]
    );
    assert_eq!(h.blocks[1].bbox, bbox(BLOCK_BOX));
    assert_eq!(h.blocks[1].paragraphs[0].bbox, BoundingBox::default());
    assert_eq!(h.blocks[1].paragraphs[0].lines[0].bbox, BoundingBox::default());
}

#[test]
fn no_word_is_lost_or_moved() {
    let h = walk(vec![
        word("a"),
        block_start("b"),
        line_start("c"),
        word("d"),
        paragraph_start("e"),
        block_start("f"),
        block_start("g"),
        word("h"),
    ])
    .unwrap();
    assert_eq!(texts(&h), vec!["a", "b", "c", "d", "e", "f", "g", "h"]);
    assert_eq!(h.word_count(), 8);
    assert_eq!(h.blocks.len(), 4);
    for b in &h.blocks {
        assert!(!b.paragraphs.is_empty());
        for p in &b.paragraphs {
            assert!(!p.lines.is_empty());
            for l in &p.lines {
                assert!(!l.words.is_empty());
            }
        }
    }
}

#[test]
fn texts_are_trimmed_and_joined_by_one_space() {
    let h = walk(vec![
        block_start(" Mario\n"),
        word("\t\u{a0}Rossi \u{3000}"),
        word("di Roma"),
    ])
    .unwrap();
    assert_eq!(texts(&h), vec!["Mario", "Rossi", "di Roma"]);
    assert_eq!(h.iter_lines().next().unwrap().text, "Mario Rossi di Roma");
}

#[test]
fn blank_words_are_skipped() {
    let unreadable = WordReading { text: Err("no text"), ..word("") };
    let h = walk(vec![block_start("a"), word(" \t"), unreadable, word(""), word("b")]).unwrap();
    assert_eq!(outline(&h), vec![vec![vec!["a b".to_string()]]]);
}

#[test]
fn a_blank_word_opens_nothing() {
    let h = walk(vec![block_start("a"), block_start(" "), word("b")]).unwrap();
    assert_eq!(outline(&h), vec![vec![vec!["a b".to_string()]]]);
}

#[test]
fn a_page_of_blank_words_is_empty() {
    let h = walk(vec![block_start(" "), word("")]).unwrap();
    assert_eq!(h, TesseractHierarchy::default());
}

#[test]
fn exactly_white_space_is_blank() {
    let mut white: Vec<char> = vec![
        '\u{20}', '\u{85}', '\u{a0}', '\u{1680}', '\u{2028}', '\u{2029}', '\u{202f}', '\u{205f}',
        '\u{3000}',
    ];
    white.extend('\u{9}'..='\u{d}');
    white.extend('\u{2000}'..='\u{200a}');
    for c in '\u{0}'..=char::MAX {
        let start = HierarchyWalk::new(mean, 0.0f32);
        match start.step(Reply::<f32, ()>::Text(c.to_string())) {
            Progress::Continue(w) => {
                let blank = w.request() == Request::Next;
                assert_eq!(blank, white.contains(&c), "{:?}", c);
            }
            _ => panic!("the walk ended at its first text"),
        }
    }
}

#[test]
fn line_confidence_is_the_mean_of_its_words() {
    let with = |r: Reading, c: f32| WordReading { confidence: Ok((c, c > 0.0)), ..r };
    let h = walk(vec![
        with(block_start("a"), 96.0),
        with(word("b"), 94.0),
        with(word("c"), 80.0),
        with(line_start("d"), 50.0),
    ])
    .unwrap();
    let confidences: Vec<f32> = h.iter_lines().map(|l| l.confidence).collect();
    assert_eq!(confidences, vec![90.0, 50.0]);
}

#[test]
fn confidence_is_not_below_zero() {
    for c in [-1.0, 0.0, -0.0, f32::NAN] {
        let h = walk(vec![
            WordReading { confidence: Ok((c, c > 0.0)), ..block_start("a") },
            word("b"),
        ])
        .unwrap();
        let confidences: Vec<f32> = h.iter_words().map(|w| w.confidence).collect();
        assert_eq!(confidences, vec![0.0, 90.0]);
        assert_eq!(h.iter_lines().next().unwrap().confidence, 45.0);
    }
}

#[test]
fn what_cannot_be_read_is_replaced() {
    let h = walk(vec![WordReading {
        bbox: Err("no box"),
        confidence: Err("no confidence"),
        block_box: Err("no box"),
        paragraph_box: Err("no box"),
        line_box: Err("no box"),
        ..block_start("a")
    }])
    .unwrap();
    let block = &h.blocks[0];
    let line = &block.paragraphs[0].lines[0];
    assert_eq!(block.bbox, BoundingBox::default());
    assert_eq!(block.paragraphs[0].bbox, BoundingBox::default());
    assert_eq!(line.bbox, BoundingBox::default());
    assert_eq!(line.words[0].bbox, BoundingBox::default());
    assert_eq!(line.words[0].confidence, 0.0);
    assert_eq!(line.confidence, 0.0);
}

#[test]
fn errors_at_boundaries_end_the_walk() {
    let at = |r: Reading| walk(vec![block_start("a"), r, block_start("b")]);
    assert_eq!(at(WordReading { at_block: Err("block"), ..word("x") }), Err("block"));
    assert_eq!(at(WordReading { at_paragraph: Err("para"), ..word("x") }), Err("para"));
    assert_eq!(at(WordReading { at_line: Err("line"), ..word("x") }), Err("line"));
    assert_eq!(at(WordReading { next: Err("next"), ..word("x") }), Err("next"));
    assert_eq!(at(WordReading { next: Err("next"), ..word(" ") }), Err("next"));
}

#[test]
fn the_first_error_counts() {
    let r = WordReading {
        at_block: Ok(true),
        at_paragraph: Err("para"),
        at_line: Err("line"),
        next: Err("next"),
        ..word("x")
    };
    assert_eq!(walk(vec![r]), Err("para"));
}

#[test]
fn boundaries_of_blank_words_are_not_asked_for() {
    let r = WordReading {
        at_block: Err("block"),
        at_paragraph: Err("para"),
        at_line: Err("line"),
        ..word(" ")
    };
    let h = walk(vec![block_start("a"), r]).unwrap();
    assert_eq!(texts(&h), vec!["a"]);
}

#[test]
fn requests_come_in_order() {
    let (h, requests) = walk_noting(vec![block_start("a"), word("b"), word(" ")]);
    assert_eq!(h.unwrap().word_count(), 2);
    assert_eq!(
        requests,
        vec![
            Request::GetUtf8Text,
            Request::GetBoundingBox(Level::Word),
            Request::Confidence,
            Request::IsAtBeginningOf(Level::Block),
            Request::GetBoundingBox(Level::Block),
            Request::IsAtBeginningOf(Level::Para),
            Request::GetBoundingBox(Level::Para),
            Request::IsAtBeginningOf(Level::TextLine),
            Request::GetBoundingBox(Level::TextLine),
            Request::Next,
            Request::GetUtf8Text,
            Request::GetBoundingBox(Level::Word),
            Request::Confidence,
            Request::IsAtBeginningOf(Level::Block),
            Request::IsAtBeginningOf(Level::Para),
            Request::IsAtBeginningOf(Level::TextLine),
            Request::Next,
            Request::GetUtf8Text,
            Request::Next,
        ]
    );
}

#[test]
fn a_word_takes_at_most_ten_requests() {
    let page: Vec<Reading> = (0..50).map(|_| block_start("a")).collect();
    let (h, requests) = walk_noting(page);
    assert_eq!(h.unwrap().word_count(), 50);
    assert_eq!(requests.len(), 500);
}
