//! The text of words and lines.

use vstd::prelude::*;

use crate::hierarchy::TesseractWord;

verus! {

/// The characters with the Unicode property `White_Space`.
pub open spec fn is_white_space(c: char) -> bool {
    let u = c as u32;
    ||| 0x9 <= u <= 0xd
    ||| u == 0x20
    ||| u == 0x85
    ||| u == 0xa0
    ||| u == 0x1680
    ||| 0x2000 <= u <= 0x200a
    ||| 0x2028 <= u <= 0x2029
    ||| u == 0x202f
    ||| u == 0x205f
    ||| u == 0x3000
}

/// `s` without its leading white space.
pub open spec fn trimmed_start(s: Seq<char>) -> Seq<char>
    decreases s.len(),
{
    if s.len() > 0 && is_white_space(s.first()) {
        trimmed_start(s.drop_first())
    } else {
        s
    }
}

/// `s` without its trailing white space.
pub open spec fn trimmed_end(s: Seq<char>) -> Seq<char>
    decreases s.len(),
{
    if s.len() > 0 && is_white_space(s.last()) {
        trimmed_end(s.drop_last())
    } else {
        s
    }
}

/// `s` without the white space around it.
pub open spec fn trimmed(s: Seq<char>) -> Seq<char> {
    trimmed_end(trimmed_start(s))
}

/// The standard library's `str::trim`: the part of the string that is left when
/// leading and trailing white space is removed, where white space is what the
/// Unicode property `White_Space` says it is.
pub assume_specification<'a>[ str::trim ](s: &'a str) -> (r: &'a str)
    ensures
        r@ == trimmed(s@),
;

/// The texts of `words` in order, with one space between each two of them.
pub open spec fn spaced<C>(words: Seq<TesseractWord<C>>) -> Seq<char>
    decreases words.len(),
{
    if words.len() == 0 {
        Seq::empty()
    } else if words.len() == 1 {
        words[0].text@
    } else {
        spaced(words.drop_last()).push(' ') + words.last().text@
    }
}

/// The text of a line that consists of `words`.
pub(crate) fn join_words<C>(words: &Vec<TesseractWord<C>>) -> (text: String)
    ensures
        text@ == spaced(words@),
{
    let mut text = String::new();
    for i in 0..words.len()
        invariant
            text@ == spaced(words@.take(i as int)),
    {
        assert(words@.take(i + 1).drop_last() =~= words@.take(i as int));
        if i > 0 {
            proof {
                reveal_strlit(" ");
            }
            text.append(" ");
            assert(text@ =~= spaced(words@.take(i as int)).push(' '));
        }
        text.append(words[i].text.as_str());
        assert(text@ =~= spaced(words@.take(i + 1)));
    }
    assert(words@.take(words@.len() as int) =~= words@);
    text
}

/// No letter, digit or mark of ASCII is white space, and nothing beyond the ideographic
/// space; the characters of ASCII that separate words and lines are.
pub proof fn white_space_separates(c: char)
    ensures
        0x21 <= c as u32 <= 0x7e ==> !is_white_space(c),
        c as u32 > 0x3000 ==> !is_white_space(c),
        c == ' ' || c == '\t' || c == '\n' || c == '\r' ==> is_white_space(c),
{
}

/// The text of one word is its own.
pub proof fn one_word_is_its_text<C>(word: TesseractWord<C>)
    ensures
        spaced(seq![word]) == word.text@,
{
}

/// The text of a line splits at any word: what stands before the word, one space,
/// what stands from the word on.
pub proof fn spaced_splits<C>(a: Seq<TesseractWord<C>>, b: Seq<TesseractWord<C>>)
    requires
        a.len() > 0,
        b.len() > 0,
    ensures
        spaced(a + b) == spaced(a) + seq![' '] + spaced(b),
    decreases b.len(),
{
    let last = b.last();
    assert((a + b).last() == last);
    assert((a + b).drop_last() =~= a + b.drop_last());
    if b.len() == 1 {
        assert(a + b.drop_last() =~= a);
        assert(spaced(a + b) =~= spaced(a) + seq![' '] + spaced(b));
    } else {
        spaced_splits(a, b.drop_last());
        assert(spaced(a + b) =~= spaced(a) + seq![' '] + spaced(b));
    }
}

/// The text of a line begins with the text of its first word and ends with that of
/// its last one, and each word stands in it behind the words before it and a space
/// for each of them.
pub proof fn spaced_holds_every_word<C>(words: Seq<TesseractWord<C>>, i: int)
    requires
        0 <= i < words.len(),
    ensures
        i == 0 ==> words[i].text@.is_prefix_of(spaced(words)),
        i > 0 ==> (spaced(words.take(i)) + seq![' '] + words[i].text@).is_prefix_of(spaced(words)),
        i == words.len() - 1 ==> words[i].text@.is_suffix_of(spaced(words)),
{
    let upto = words.take(i + 1);
    assert(seq![words[i]].len() == 1);
    if i > 0 {
        spaced_splits(words.take(i), seq![words[i]]);
        assert(upto =~= words.take(i) + seq![words[i]]);
    } else {
        assert(upto =~= seq![words[i]]);
    }
    if i < words.len() - 1 {
        spaced_splits(upto, words.skip(i + 1));
        assert(words =~= upto + words.skip(i + 1));
    } else {
        assert(words =~= upto);
    }
}

/// The length of the text of a line: that of its words' texts, and one less than
/// their number for the spaces.
pub proof fn spaced_len<C>(words: Seq<TesseractWord<C>>)
    ensures
        words.len() == 0 ==> spaced(words).len() == 0,
        words.len() > 0 ==> spaced(words).len() == words.fold_left(
            0int,
            |n: int, w: TesseractWord<C>| n + w.text@.len(),
        ) + words.len() - 1,
    decreases words.len(),
{
    if words.len() > 1 {
        spaced_len(words.drop_last());
    } else if words.len() == 1 {
        reveal_with_fuel(Seq::fold_left, 2);
    }
}

/// Trimming leaves a part of the text, and takes away nothing but white space.
pub proof fn trimmed_is_the_core(s: Seq<char>)
    ensures
        exists|i: int, j: int|
            {
                &&& 0 <= i <= j <= s.len()
                &&& trimmed(s) == #[trigger] s.subrange(i, j)
                &&& forall|k: int| 0 <= k < i ==> is_white_space(s[k])
                &&& forall|k: int| j <= k < s.len() ==> is_white_space(s[k])
            },
        trimmed(s).len() > 0 ==> !is_white_space(trimmed(s).first()) && !is_white_space(
            trimmed(s).last(),
        ),
{
    let i = lemma_trimmed_start(s);
    let rest = trimmed_start(s);
    let n = lemma_trimmed_end(rest);
    let j = i + n;
    assert(trimmed(s) =~= s.subrange(i, j));
    assert forall|k: int| j <= k < s.len() implies is_white_space(s[k]) by {
        assert(s[k] == rest[k - i]);
    }
    if trimmed(s).len() > 0 {
        assert(trimmed(s).first() == rest.first());
    }
}

/// A text trims to nothing exactly when it is all white space.
pub proof fn blank_is_all_white_space(s: Seq<char>)
    ensures
        trimmed(s).len() == 0 <==> forall|k: int| 0 <= k < s.len() ==> is_white_space(s[k]),
{
    trimmed_is_the_core(s);
    let (i, j) = choose|i: int, j: int|
        {
            &&& 0 <= i <= j <= s.len()
            &&& trimmed(s) == #[trigger] s.subrange(i, j)
            &&& forall|k: int| 0 <= k < i ==> is_white_space(s[k])
            &&& forall|k: int| j <= k < s.len() ==> is_white_space(s[k])
        };
    if trimmed(s).len() > 0 {
        assert(trimmed(s).first() == s[i]);
        assert(!is_white_space(s[i]));
    }
}

/// Trimming a trimmed text changes nothing.
pub proof fn trimmed_is_idempotent(s: Seq<char>)
    ensures
        trimmed(trimmed(s)) == trimmed(s),
{
    trimmed_is_the_core(s);
}

proof fn lemma_trimmed_start(s: Seq<char>) -> (i: int)
    ensures
        0 <= i <= s.len(),
        trimmed_start(s) == s.skip(i),
        forall|k: int| 0 <= k < i ==> is_white_space(s[k]),
        trimmed_start(s).len() > 0 ==> !is_white_space(trimmed_start(s).first()),
    decreases s.len(),
{
    if s.len() > 0 && is_white_space(s.first()) {
        let i = lemma_trimmed_start(s.drop_first());
        assert(s.drop_first().skip(i) =~= s.skip(i + 1));
        assert forall|k: int| 0 <= k < i + 1 implies is_white_space(s[k]) by {
            if k > 0 {
                assert(s[k] == s.drop_first()[k - 1]);
            }
        }
        i + 1
    } else {
        assert(s.skip(0) =~= s);
        0
    }
}

proof fn lemma_trimmed_end(s: Seq<char>) -> (n: int)
    ensures
        0 <= n <= s.len(),
        trimmed_end(s) == s.take(n),
        forall|k: int| n <= k < s.len() ==> is_white_space(s[k]),
        trimmed_end(s).len() > 0 ==> !is_white_space(trimmed_end(s).last()),
    decreases s.len(),
{
    if s.len() > 0 && is_white_space(s.last()) {
        let n = lemma_trimmed_end(s.drop_last());
        assert(s.drop_last().take(n) =~= s.take(n));
        assert forall|k: int| n <= k < s.len() implies is_white_space(s[k]) by {
            if k < s.len() - 1 {
                assert(s[k] == s.drop_last()[k]);
            }
        }
        n
    } else {
        assert(s.take(s.len() as int) =~= s);
        s.len() as int
    }
}

} // verus!
