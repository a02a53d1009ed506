use vstd::prelude::*;
use crate::chars::{
    ascii_letter, is_ascii_letter, is_lower, is_space, is_token_char, lower, space, token_char,
};

verus! {

/// Number of ASCII letters starting at `i`.
pub open spec fn letter_run(s: Seq<char>, i: int) -> int
    decreases s.len() - i,
{
    if 0 <= i < s.len() && is_ascii_letter(s[i]) {
        1 + letter_run(s, i + 1)
    } else {
        0
    }
}

/// Number of lowercase ASCII letters starting at `i`.
pub open spec fn lower_run(s: Seq<char>, i: int) -> int
    decreases s.len() - i,
{
    if 0 <= i < s.len() && is_lower(s[i]) {
        1 + lower_run(s, i + 1)
    } else {
        0
    }
}

/// Number of phrase-token characters starting at `i`.
pub open spec fn token_run(s: Seq<char>, i: int) -> int
    decreases s.len() - i,
{
    if 0 <= i < s.len() && is_token_char(s[i]) {
        1 + token_run(s, i + 1)
    } else {
        0
    }
}

/// A part-of-speech abbreviation starts at `i`: one to four lowercase letters and `.`.
pub open spec fn part_of_speech_at(s: Seq<char>, i: int) -> bool {
    let m = lower_run(s, i);
    1 <= m <= 4 && i + m < s.len() && s[i + m] == '.'
}

/// The line begins with a part-of-speech abbreviation.
pub open spec fn has_part_of_speech(s: Seq<char>) -> bool {
    part_of_speech_at(s, 0)
}

pub open spec fn no_newline(s: Seq<char>) -> bool {
    forall|k: int| 0 <= k < s.len() ==> s[k] != '\n'
}

/// A word entry line: a headword of ASCII letters alone, or one followed by one
/// whitespace character and a translation that begins with a part-of-speech
/// abbreviation and holds no line break. Gives the headword and the translation.
pub open spec fn word_parse(s: Seq<char>) -> Option<(Seq<char>, Option<Seq<char>>)> {
    let n = letter_run(s, 0);
    if n == 0 {
        None
    } else if n == s.len() {
        Some((s, None))
    } else if is_space(s[n]) && part_of_speech_at(s, n + 1) && no_newline(
        s.subrange(n + 1, s.len() as int),
    ) {
        Some((s.take(n), Some(s.subrange(n + 1, s.len() as int))))
    } else {
        None
    }
}

/// From the token that starts at `w`: the end of the longest run of tokens separated by
/// single whitespace characters.
pub open spec fn words_end(s: Seq<char>, w: int) -> int
    decreases s.len() - w,
{
    let t = w + token_run(s, w);
    if w < t && t + 1 < s.len() && is_space(s[t]) && is_token_char(s[t + 1]) {
        words_end(s, t + 1)
    } else {
        t
    }
}

/// Where the first token of a phrase item at `i` starts: after an optional `(`.
pub open spec fn item_start(s: Seq<char>, i: int) -> Option<int> {
    if 0 <= i && i + 1 < s.len() && s[i] == '(' && is_token_char(s[i + 1]) {
        Some(i + 1)
    } else if 0 <= i < s.len() && is_token_char(s[i]) {
        Some(i)
    } else {
        None
    }
}

/// The end of a phrase item at `i`: an optional `(`, its tokens, an optional `)` and one
/// optional whitespace character.
pub open spec fn item_end(s: Seq<char>, i: int) -> Option<int> {
    match item_start(s, i) {
        Some(w) => {
            let t = words_end(s, w);
            let u = if t < s.len() && s[t] == ')' {
                t + 1
            } else {
                t
            };
            Some(
                if u < s.len() && is_space(s[u]) {
                    u + 1
                } else {
                    u
                },
            )
        },
        None => None,
    }
}

/// The end of the longest run of phrase items from `i`.
pub open spec fn items_end(s: Seq<char>, i: int) -> int
    decreases s.len() - i,
{
    match item_end(s, i) {
        Some(e) => if i < e <= s.len() {
            items_end(s, e)
        } else {
            i
        },
        None => i,
    }
}

/// `s` without whitespace at its end.
pub open spec fn trim_end(s: Seq<char>) -> Seq<char>
    decreases s.len(),
{
    if s.len() > 0 && is_space(s.last()) {
        trim_end(s.drop_last())
    } else {
        s
    }
}

/// The part of `s` before its first line break.
pub open spec fn first_line(s: Seq<char>) -> Seq<char>
    decreases s.len(),
{
    if s.len() == 0 {
        s
    } else if s[0] == '\n' {
        Seq::empty()
    } else {
        seq![s[0]] + first_line(s.drop_first())
    }
}

/// A phrase entry line: a run of phrase items from the start, then the translation.
/// Gives the phrase (without trailing whitespace) and the translation.
pub open spec fn phrase_parse(s: Seq<char>) -> Option<(Seq<char>, Seq<char>)> {
    if item_end(s, 0) is None {
        None
    } else {
        let p = items_end(s, 0);
        Some((trim_end(s.take(p)), first_line(s.subrange(p, s.len() as int))))
    }
}

/// What a stripped line is.
#[allow(inconsistent_fields)]
pub enum LineView {
    Word { name: Seq<char>, trans: Option<Seq<char>> },
    Phrase { phrase: Seq<char>, trans: Seq<char> },
    Continuation { has_part_of_speech: bool },
}

/// The classification of a stripped line: word rule first, then the phrase rule for
/// lines that do not begin with a part-of-speech abbreviation, else a continuation.
pub open spec fn classify_spec(s: Seq<char>) -> LineView {
    match word_parse(s) {
        Some((name, trans)) => LineView::Word { name, trans },
        None => match phrase_parse(s) {
            Some((phrase, trans)) if !has_part_of_speech(s) => LineView::Phrase { phrase, trans },
            _ => LineView::Continuation { has_part_of_speech: has_part_of_speech(s) },
        },
    }
}

/// A classified line.
#[allow(inconsistent_fields)]
#[derive(Debug, Clone)]
pub enum Line {
    Word { name: Vec<char>, trans: Option<Vec<char>> },
    Phrase { phrase: Vec<char>, trans: Vec<char> },
    Continuation { has_part_of_speech: bool },
}

impl View for Line {
    type V = LineView;

    open spec fn view(&self) -> LineView {
        match self {
            Line::Word { name, trans } => LineView::Word {
                name: name@,
                trans: match trans {
                    Some(t) => Some(t@),
                    None => None,
                },
            },
            Line::Phrase { phrase, trans } => LineView::Phrase { phrase: phrase@, trans: trans@ },
            Line::Continuation { has_part_of_speech } => LineView::Continuation {
                has_part_of_speech: *has_part_of_speech,
            },
        }
    }
}

fn letters_from(s: &Vec<char>, i: usize) -> (r: usize)
    requires
        i <= s@.len(),
    ensures
        r == letter_run(s@, i as int),
        i + r <= s@.len(),
{
    let mut j = i;
    while j < s.len() && ascii_letter(s[j])
        invariant
            i <= j <= s@.len(),
            letter_run(s@, i as int) == (j - i) + letter_run(s@, j as int),
        decreases s@.len() - j,
    {
        j = j + 1;
    }
    j - i
}

fn lowers_from(s: &Vec<char>, i: usize) -> (r: usize)
    requires
        i <= s@.len(),
    ensures
        r == lower_run(s@, i as int),
        i + r <= s@.len(),
{
    let mut j = i;
    while j < s.len() && lower(s[j])
        invariant
            i <= j <= s@.len(),
            lower_run(s@, i as int) == (j - i) + lower_run(s@, j as int),
        decreases s@.len() - j,
    {
        j = j + 1;
    }
    j - i
}

fn tokens_from(s: &Vec<char>, i: usize) -> (r: usize)
    requires
        i <= s@.len(),
    ensures
        r == token_run(s@, i as int),
        i + r <= s@.len(),
{
    let mut j = i;
    while j < s.len() && token_char(s[j])
        invariant
            i <= j <= s@.len(),
            token_run(s@, i as int) == (j - i) + token_run(s@, j as int),
        decreases s@.len() - j,
    {
        j = j + 1;
    }
    j - i
}

fn part_of_speech_from(s: &Vec<char>, i: usize) -> (r: bool)
    requires
        i <= s@.len(),
    ensures
        r == part_of_speech_at(s@, i as int),
{
    let m = lowers_from(s, i);
    1 <= m && m <= 4 && m < s.len() - i && s[i + m] == '.'
}

fn has_newline_from(s: &Vec<char>, i: usize) -> (r: bool)
    requires
        i <= s@.len(),
    ensures
        r == !no_newline(s@.subrange(i as int, s@.len() as int)),
{
    let mut j = i;
    while j < s.len()
        invariant
            i <= j <= s@.len(),
            forall|k: int| i <= k < j ==> s@[k] != '\n',
        decreases s@.len() - j,
    {
        if s[j] == '\n' {
            assert(s@.subrange(i as int, s@.len() as int)[j - i] == '\n');
            return true;
        }
        j = j + 1;
    }
    false
}

/// The characters `s[a..b]`.
pub fn copy_range(s: &Vec<char>, a: usize, b: usize) -> (r: Vec<char>)
    requires
        a <= b <= s@.len(),
    ensures
        r@ == s@.subrange(a as int, b as int),
{
    let mut r: Vec<char> = Vec::new();
    let mut j = a;
    while j < b
        invariant
            a <= j <= b <= s@.len(),
            r@ == s@.subrange(a as int, j as int),
        decreases b - j,
    {
        r.push(s[j]);
        assert(r@ =~= s@.subrange(a as int, j + 1));
        j = j + 1;
    }
    r
}

/// Matches the word entry rule.
pub fn parse_word(s: &Vec<char>) -> (r: Option<(Vec<char>, Option<Vec<char>>)>)
    ensures
        r is Some <==> word_parse(s@) is Some,
        r matches Some((name, trans)) ==> word_parse(s@) == Some(
            (
                name@,
                match trans {
                    Some(t) => Some(t@),
                    None => None,
                },
            ),
        ),
{
    let n = letters_from(s, 0);
    let len = s.len();
    if n == 0 {
        None
    } else if n == len {
        let name = copy_range(s, 0, len);
        assert(s@.subrange(0, len as int) =~= s@);
        Some((name, None))
    } else if space(s[n]) && part_of_speech_from(s, n + 1) && !has_newline_from(s, n + 1) {
        let name = copy_range(s, 0, n);
        let trans = copy_range(s, n + 1, len);
        Some((name, Some(trans)))
    } else {
        None
    }
}

fn words_end_from(s: &Vec<char>, start: usize) -> (r: usize)
    requires
        start <= s@.len(),
    ensures
        r == words_end(s@, start as int),
        start <= r <= s@.len(),
{
    let len = s.len();
    let mut w = start;
    loop
        invariant
            start <= w <= len == s@.len(),
            words_end(s@, start as int) == words_end(s@, w as int),
        decreases len - w,
    {
        let t = w + tokens_from(s, w);
        if w < t && t < len - 1 && space(s[t]) && token_char(s[t + 1]) {
            w = t + 1;
        } else {
            assert(words_end(s@, w as int) == t);
            return t;
        }
    }
}

fn item_end_from(s: &Vec<char>, i: usize) -> (r: Option<usize>)
    requires
        i <= s@.len(),
    ensures
        r matches Some(e) ==> item_end(s@, i as int) == Some(e as int) && i < e <= s@.len(),
        r is None ==> item_end(s@, i as int) is None,
{
    let len = s.len();
    let w: usize;
    if len > 1 && i < len - 1 && s[i] == '(' && token_char(s[i + 1]) {
        w = i + 1;
    } else if i < len && token_char(s[i]) {
        w = i;
    } else {
        return None;
    }
    proof {
        lemma_token_run_nonneg(s@, w + 1);
        assert(token_run(s@, w as int) >= 1);
    }
    let t = words_end_from(s, w);
    proof {
        if w < len {
            assert(words_end(s@, w as int) >= w + token_run(s@, w as int)) by {
                reveal_with_fuel(words_end, 1);
                lemma_words_end_past_token(s@, w as int);
            }
        }
    }
    let u = if t < len && s[t] == ')' {
        t + 1
    } else {
        t
    };
    if u < len && space(s[u]) {
        Some(u + 1)
    } else {
        Some(u)
    }
}

proof fn lemma_words_end_past_token(s: Seq<char>, w: int)
    ensures
        words_end(s, w) >= w + token_run(s, w),
    decreases s.len() - w,
{
    let t = w + token_run(s, w);
    if w < t && t + 1 < s.len() && is_space(s[t]) && is_token_char(s[t + 1]) {
        lemma_words_end_past_token(s, t + 1);
        lemma_token_run_nonneg(s, t + 1);
    }
}

proof fn lemma_token_run_nonneg(s: Seq<char>, i: int)
    ensures
        token_run(s, i) >= 0,
    decreases s.len() - i,
{
    if 0 <= i < s.len() && is_token_char(s[i]) {
        lemma_token_run_nonneg(s, i + 1);
    }
}

fn items_end_from(s: &Vec<char>, i: usize) -> (r: usize)
    requires
        i <= s@.len(),
    ensures
        r == items_end(s@, i as int),
        i <= r <= s@.len(),
{
    let mut p = i;
    loop
        invariant
            i <= p <= s@.len(),
            items_end(s@, i as int) == items_end(s@, p as int),
        decreases s@.len() - p,
    {
        match item_end_from(s, p) {
            Some(e) => {
                p = e;
            },
            None => {
                return p;
            },
        }
    }
}

/// `v` without whitespace at its end.
pub fn trim_end_chars(v: &Vec<char>) -> (r: Vec<char>)
    ensures
        r@ == trim_end(v@),
{
    let mut n = v.len();
    assert(v@.take(n as int) =~= v@);
    while n > 0 && space(v[n - 1])
        invariant
            n <= v@.len(),
            trim_end(v@) == trim_end(v@.take(n as int)),
        decreases n,
    {
        assert(v@.take(n as int).drop_last() =~= v@.take(n - 1));
        n = n - 1;
    }
    copy_range(v, 0, n)
}

/// The characters of `s` from `p` up to the first line break after it.
fn first_line_from(s: &Vec<char>, p: usize) -> (r: Vec<char>)
    requires
        p <= s@.len(),
    ensures
        r@ == first_line(s@.subrange(p as int, s@.len() as int)),
{
    let len = s.len();
    let mut j = p;
    while j < len && s[j] != '\n'
        invariant
            p <= j <= len == s@.len(),
            first_line(s@.subrange(p as int, len as int)) == s@.subrange(p as int, j as int)
                + first_line(s@.subrange(j as int, len as int)),
        decreases len - j,
    {
        let ghost u = s@.subrange(j as int, len as int);
        assert(u.drop_first() =~= s@.subrange(j + 1, len as int));
        assert(s@.subrange(p as int, j as int) + seq![s@[j as int]] =~= s@.subrange(
            p as int,
            j + 1,
        ));
        assert(s@.subrange(p as int, j as int) + (seq![s@[j as int]] + first_line(u.drop_first()))
            =~= s@.subrange(p as int, j + 1) + first_line(u.drop_first()));
        j = j + 1;
    }
    assert(first_line(s@.subrange(j as int, len as int)) =~= Seq::<char>::empty());
    assert(s@.subrange(p as int, j as int) + Seq::<char>::empty() =~= s@.subrange(
        p as int,
        j as int,
    ));
    copy_range(s, p, j)
}

/// Matches the phrase entry rule.
pub fn parse_phrase(s: &Vec<char>) -> (r: Option<(Vec<char>, Vec<char>)>)
    ensures
        r is Some <==> phrase_parse(s@) is Some,
        r matches Some((phrase, trans)) ==> phrase_parse(s@) == Some((phrase@, trans@)),
{
    match item_end_from(s, 0) {
        None => None,
        Some(_) => {
            let p = items_end_from(s, 0);
            let head = copy_range(s, 0, p);
            assert(head@ =~= s@.take(p as int));
            let phrase = trim_end_chars(&head);
            let trans = first_line_from(s, p);
            Some((phrase, trans))
        },
    }
}

/// Classifies a stripped line: a word entry, else a phrase entry where the line does
/// not begin with a part-of-speech abbreviation, else a continuation.
pub fn classify(line: &Vec<char>) -> (r: Line)
    ensures
        r@ == classify_spec(line@),
        word_parse(line@) is Some ==> r is Word,
{
    match parse_word(line) {
        Some((name, trans)) => Line::Word { name, trans },
        None => {
            let pos = part_of_speech_from(line, 0);
            if !pos {
                match parse_phrase(line) {
                    Some((phrase, trans)) => {
                        return Line::Phrase { phrase, trans };
                    },
                    None => {},
                }
            }
            Line::Continuation { has_part_of_speech: pos }
        },
    }
}

/// A line that matches the word entry rule is classified as a word entry, never as a
/// phrase or a continuation, with the headword and translation of that rule.
pub proof fn lemma_word_rule_wins(s: Seq<char>)
    requires
        word_parse(s) is Some,
    ensures
        classify_spec(s) is Word,
        forall|name: Seq<char>, trans: Option<Seq<char>>|
            word_parse(s) == Some((name, trans)) ==> classify_spec(s) == (LineView::Word {
                name,
                trans,
            }),
{
}

} // verus!
