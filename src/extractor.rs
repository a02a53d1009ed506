use vstd::prelude::*;
use crate::chars::{chars_of, is_upper, text_of, upper};
use crate::classify::{classify, classify_spec, Line, LineView};
use crate::dict::{entries_view, Entry, EntryView, Kind};
use crate::strip::{strip_pronunciation, stripped};

verus! {

/// A continuation line came while no entry was open.
#[derive(Debug, Clone, Copy, PartialEq, Eq, Structural)]
pub struct NoPriorEntry;

/// The entry list after a continuation line `line`: with a part-of-speech abbreviation,
/// or where the current entry has no fragment yet, `line` becomes a new fragment; else
/// it is joined onto the last fragment. `None` where there is no entry.
pub open spec fn continue_spec(es: Seq<EntryView>, line: Seq<char>, has_part_of_speech: bool) -> Option<
    Seq<EntryView>,
> {
    if es.len() == 0 {
        None
    } else {
        let cur = es.last();
        let trans = if has_part_of_speech || cur.trans.len() == 0 {
            cur.trans.push(line)
        } else {
            cur.trans.drop_last().push(cur.trans.last() + line)
        };
        Some(es.drop_last().push(EntryView { name: cur.name, trans, kind: cur.kind }))
    }
}

/// The entry list after one raw line: it is stripped, classified, and opens a word or
/// phrase entry or continues the current one.
pub open spec fn step(es: Seq<EntryView>, raw: Seq<char>) -> Option<Seq<EntryView>> {
    let line = stripped(raw);
    match classify_spec(line) {
        LineView::Word { name, trans } => Some(
            es.push(
                EntryView {
                    name,
                    trans: match trans {
                        Some(t) => seq![t],
                        None => Seq::empty(),
                    },
                    kind: Kind::Word,
                },
            ),
        ),
        LineView::Phrase { phrase, trans } => Some(
            es.push(EntryView { name: phrase, trans: seq![trans], kind: Kind::Phrase }),
        ),
        LineView::Continuation { has_part_of_speech } => continue_spec(
            es,
            line,
            has_part_of_speech,
        ),
    }
}

/// The entry list after the raw lines `ls`, one by one; `None` at a continuation with
/// no entry.
pub open spec fn feed_all(es: Seq<EntryView>, ls: Seq<Seq<char>>) -> Option<Seq<EntryView>>
    decreases ls.len(),
{
    if ls.len() == 0 {
        Some(es)
    } else {
        match feed_all(es, ls.drop_last()) {
            Some(e) => step(e, ls.last()),
            None => None,
        }
    }
}

pub open spec fn has_upper(s: Seq<char>) -> bool {
    exists|i: int| 0 <= i < s.len() && is_upper(#[trigger] s[i])
}

/// How many entries the noise trimmer keeps: those before `start`, and those of the
/// page up to its last entry whose headword holds an uppercase ASCII letter.
pub open spec fn trim_len(es: Seq<EntryView>, start: int) -> int
    decreases es.len(),
{
    if es.len() == 0 || es.len() <= start || has_upper(es.last().name) {
        es.len() as int
    } else {
        trim_len(es.drop_last(), start)
    }
}

pub open spec fn trimmed(es: Seq<EntryView>, start: int) -> Seq<EntryView> {
    es.take(trim_len(es, start))
}

proof fn lemma_push_view(s: Seq<Entry>, e: Entry)
    ensures
        entries_view(s.push(e)) == entries_view(s).push(e@),
{
    assert(entries_view(s.push(e)) =~= entries_view(s).push(e@));
}

proof fn lemma_drop_last_view(s: Seq<Entry>)
    requires
        s.len() > 0,
    ensures
        entries_view(s.drop_last()) == entries_view(s).drop_last(),
{
    assert(entries_view(s.drop_last()) =~= entries_view(s).drop_last());
}

/// Opens a word entry.
pub fn begin_word(entries: &mut Vec<Entry>, name: &Vec<char>, trans: &Option<Vec<char>>)
    ensures
        entries_view(final(entries)@) == entries_view(old(entries)@).push(
            EntryView {
                name: name@,
                trans: match trans {
                    Some(t) => seq![t@],
                    None => Seq::empty(),
                },
                kind: Kind::Word,
            },
        ),
{
    let mut fragments: Vec<String> = Vec::new();
    match trans {
        Some(t) => {
            fragments.push(text_of(t.as_slice()));
        },
        None => {},
    }
    let e = Entry { name: text_of(name.as_slice()), trans: fragments, kind: Kind::Word };
    assert(e@.trans =~= match trans {
        Some(t) => seq![t@],
        None => Seq::<Seq<char>>::empty(),
    });
    proof {
        lemma_push_view(entries@, e);
    }
    entries.push(e);
}

/// Opens a phrase entry, whose one fragment is `trans`, empty or not.
pub fn begin_phrase(entries: &mut Vec<Entry>, phrase: &Vec<char>, trans: &Vec<char>)
    ensures
        entries_view(final(entries)@) == entries_view(old(entries)@).push(
            EntryView { name: phrase@, trans: seq![trans@], kind: Kind::Phrase },
        ),
{
    let mut fragments: Vec<String> = Vec::new();
    fragments.push(text_of(trans.as_slice()));
    let e = Entry { name: text_of(phrase.as_slice()), trans: fragments, kind: Kind::Phrase };
    assert(e@.trans =~= seq![trans@]);
    proof {
        lemma_push_view(entries@, e);
    }
    entries.push(e);
}

/// Adds a continuation line to the current entry, the last one.
pub fn continue_current(entries: &mut Vec<Entry>, line: &Vec<char>, has_part_of_speech: bool) -> (r:
    Result<(), NoPriorEntry>)
    ensures
        r is Err <==> old(entries)@.len() == 0,
        r is Err ==> final(entries)@ == old(entries)@,
        r is Ok ==> continue_spec(entries_view(old(entries)@), line@, has_part_of_speech) == Some(
            entries_view(final(entries)@),
        ),
{
    if entries.len() == 0 {
        return Err(NoPriorEntry);
    }
    let ghost before = entries_view(entries@);
    proof {
        lemma_drop_last_view(entries@);
    }
    let mut cur = entries.pop().unwrap();
    let ghost cur0 = cur@;
    assert(cur0 == before.last());
    let piece = text_of(line.as_slice());
    if has_part_of_speech || cur.trans.len() == 0 {
        cur.trans.push(piece);
        assert(cur@.trans =~= cur0.trans.push(line@));
    } else {
        let ghost t0 = cur.trans@;
        let mut last = cur.trans.pop().unwrap();
        last.append(piece.as_str());
        cur.trans.push(last);
        assert(cur@.trans =~= cur0.trans.drop_last().push(cur0.trans.last() + line@)) by {
            assert(t0.map_values(|t: String| t@).last() == t0.last()@);
        }
    }
    proof {
        lemma_push_view(entries@, cur);
    }
    entries.push(cur);
    Ok(())
}

/// Reads one raw line: strips it, classifies it, and opens or continues an entry.
pub fn feed_line(entries: &mut Vec<Entry>, raw: &String) -> (r: Result<(), NoPriorEntry>)
    ensures
        r is Ok <==> step(entries_view(old(entries)@), raw@) is Some,
        r is Ok ==> step(entries_view(old(entries)@), raw@) == Some(entries_view(final(entries)@)),
        r is Err ==> final(entries)@ == old(entries)@ && old(entries)@.len() == 0,
{
    let cs = chars_of(raw.as_str());
    let line = strip_pronunciation(&cs);
    match classify(&line) {
        Line::Word { name, trans } => {
            begin_word(entries, &name, &trans);
            Ok(())
        },
        Line::Phrase { phrase, trans } => {
            begin_phrase(entries, &phrase, &trans);
            Ok(())
        },
        Line::Continuation { has_part_of_speech } => {
            proof {
                if entries@.len() == 0 {
                    assert(entries_view(entries@).len() == 0);
                }
            }
            continue_current(entries, &line, has_part_of_speech)
        },
    }
}

/// Whether a headword holds an uppercase ASCII letter.
pub fn name_has_upper(name: &String) -> (r: bool)
    ensures
        r == has_upper(name@),
{
    let cs = chars_of(name.as_str());
    let mut i: usize = 0;
    while i < cs.len()
        invariant
            i <= cs@.len(),
            cs@ == name@,
            forall|k: int| 0 <= k < i ==> !is_upper(cs@[k]),
        decreases cs@.len() - i,
    {
        if upper(cs[i]) {
            return true;
        }
        i = i + 1;
    }
    false
}

/// Discards the trailing run of entries from `start` on whose headwords hold no
/// uppercase letter; where no entry from `start` on holds one, all of them go.
pub fn trim_noise(entries: &mut Vec<Entry>, start: usize)
    ensures
        entries_view(final(entries)@) == trimmed(entries_view(old(entries)@), start as int),
{
    let ghost v = entries_view(entries@);
    let mut n = entries.len();
    assert(v.take(n as int) =~= v);
    while n > start && !name_has_upper(&entries[n - 1].name)
        invariant
            n <= entries@.len(),
            entries_view(entries@) == v,
            trim_len(v, start as int) == trim_len(v.take(n as int), start as int),
        decreases n,
    {
        assert(v.take(n as int).drop_last() =~= v.take(n - 1));
        n = n - 1;
    }
    entries.truncate(n);
    assert(entries_view(entries@) =~= v.take(n as int));
}

/// A continuation line with no entry open, with where it stood.
#[derive(Debug, Clone)]
pub struct MalformedContinuation {
    pub page: usize,
    pub line: String,
}

/// The raw lines as character sequences.
pub open spec fn lines_view(ls: Seq<String>) -> Seq<Seq<char>> {
    ls.map_values(|l: String| l@)
}

/// The lines of a page after its first `skip` lines.
pub open spec fn body_lines(ls: Seq<Seq<char>>, skip: int) -> Seq<Seq<char>> {
    if skip <= ls.len() {
        ls.subrange(skip, ls.len() as int)
    } else {
        Seq::empty()
    }
}

proof fn lemma_step_len(es: Seq<EntryView>, raw: Seq<char>)
    ensures
        step(es, raw) matches Some(e) ==> e.len() >= 1 && e.len() >= es.len(),
{
}

/// Reads the lines of one page after its first `skip` lines into `entries`, then trims
/// the trailing noise of what this page added.
pub fn extract_page(lines: &Vec<String>, skip: usize, page: usize, entries: &mut Vec<Entry>) -> (r:
    Result<(), MalformedContinuation>)
    ensures
        r is Err <==> old(entries)@.len() == 0 && body_lines(lines_view(lines@), skip as int).len()
            > 0 && step(Seq::empty(), body_lines(lines_view(lines@), skip as int)[0]) is None,
        r is Err ==> feed_all(
            entries_view(old(entries)@),
            body_lines(lines_view(lines@), skip as int),
        ) is None,
        r matches Err(e) ==> e.page == page && e.line@ == lines@[skip as int]@ && final(entries)@
            == old(entries)@,
        r is Ok ==> (feed_all(
            entries_view(old(entries)@),
            body_lines(lines_view(lines@), skip as int),
        ) matches Some(w) && entries_view(final(entries)@) == trimmed(
            w,
            old(entries)@.len() as int,
        )),
{
    let ghost v0 = entries_view(entries@);
    let ghost body = body_lines(lines_view(lines@), skip as int);
    let start = entries.len();
    if skip >= lines.len() {
        assert(body.len() == 0);
        assert(feed_all(v0, body) == Some(v0));
        trim_noise(entries, start);
        return Ok(());
    }
    let mut i = skip;
    while i < lines.len()
        invariant
            skip <= i <= lines@.len(),
            body == lines_view(lines@).subrange(skip as int, lines@.len() as int),
            body.len() == lines@.len() - skip,
            feed_all(v0, body.take(i - skip)) == Some(entries_view(entries@)),
            entries@.len() >= start,
            start == old(entries)@.len(),
            i > skip ==> entries@.len() >= 1,
            i == skip ==> entries@ == old(entries)@,
            i > skip ==> (old(entries)@.len() == 0 ==> step(Seq::empty(), body[0]) is Some),
        decreases lines@.len() - i,
    {
        let ghost before = entries_view(entries@);
        assert(body.take(i - skip + 1).drop_last() =~= body.take(i - skip));
        assert(body[i - skip] == lines@[i as int]@);
        proof {
            if entries@.len() == 0 {
                assert(before =~= Seq::<EntryView>::empty());
            }
        }
        match feed_line(entries, &lines[i]) {
            Ok(()) => {
                proof {
                    lemma_step_len(before, lines@[i as int]@);
                }
            },
            Err(_) => {
                assert(entries@.len() == 0);
                assert(i == skip);
                proof {
                    assert(body.take(1).drop_last() =~= Seq::<Seq<char>>::empty());
                    lemma_feed_none_extends(v0, body, 1);
                }
                return Err(MalformedContinuation { page, line: lines[i].clone() });
            },
        }
        i = i + 1;
    }
    assert(body.take(i - skip) =~= body);
    trim_noise(entries, start);
    Ok(())
}

proof fn lemma_feed_none_extends(es: Seq<EntryView>, ls: Seq<Seq<char>>, j: int)
    requires
        0 <= j <= ls.len(),
        feed_all(es, ls.take(j)) is None,
    ensures
        feed_all(es, ls) is None,
    decreases ls.len(),
{
    if ls.len() == j {
        assert(ls.take(j) =~= ls);
    } else {
        assert(ls.drop_last().take(j) =~= ls.take(j));
        lemma_feed_none_extends(es, ls.drop_last(), j);
    }
}

/// The lines skipped at the top of each page (a running header).
pub const HEADER_LINES: usize = 2;

/// The entry list after one page: its lines after the first `skip` are read, then the
/// noise that the page added is trimmed. `None` at a continuation with no entry.
pub open spec fn process_page(es: Seq<EntryView>, lines: Seq<Seq<char>>, skip: int) -> Option<
    Seq<EntryView>,
> {
    match feed_all(es, body_lines(lines, skip)) {
        Some(w) => Some(trimmed(w, es.len() as int)),
        None => None,
    }
}

/// The entry list after the pages `ps`, in order, from an empty list.
pub open spec fn process_pages(ps: Seq<Seq<Seq<char>>>, skip: int) -> Option<Seq<EntryView>>
    decreases ps.len(),
{
    if ps.len() == 0 {
        Some(Seq::empty())
    } else {
        match process_pages(ps.drop_last(), skip) {
            Some(es) => process_page(es, ps.last(), skip),
            None => None,
        }
    }
}

pub open spec fn pages_view(ps: Seq<Vec<String>>) -> Seq<Seq<Seq<char>>> {
    ps.map_values(|p: Vec<String>| lines_view(p@))
}

proof fn lemma_pages_none_extends(ps: Seq<Seq<Seq<char>>>, skip: int, j: int)
    requires
        0 <= j <= ps.len(),
        process_pages(ps.take(j), skip) is None,
    ensures
        process_pages(ps, skip) is None,
    decreases ps.len(),
{
    if ps.len() == j {
        assert(ps.take(j) =~= ps);
    } else {
        assert(ps.drop_last().take(j) =~= ps.take(j));
        lemma_pages_none_extends(ps.drop_last(), skip, j);
    }
}

/// Reads the pages in order, each without its running header, into one dictionary.
/// `first_page` is the number of the first page, for the error.
pub fn extract_pages(pages: &Vec<Vec<String>>, first_page: usize) -> (r: Result<
    crate::dict::Dict,
    MalformedContinuation,
>)
    requires
        first_page + pages@.len() <= usize::MAX,
    ensures
        r is Ok <==> process_pages(pages_view(pages@), HEADER_LINES as int) is Some,
        r matches Ok(d) ==> process_pages(pages_view(pages@), HEADER_LINES as int) == Some(d@),
        r matches Err(e) ==> exists|k: int|
            0 <= k < pages@.len() && e.page == first_page + k && process_pages(
                pages_view(pages@).take(k),
                HEADER_LINES as int,
            ) is Some && process_pages(pages_view(pages@).take(k + 1), HEADER_LINES as int) is None
                && e.line@ == pages@[k]@[HEADER_LINES as int]@,
{
    let ghost pv = pages_view(pages@);
    let mut entries: Vec<Entry> = Vec::new();
    let mut k: usize = 0;
    assert(pv.take(0) =~= Seq::<Seq<Seq<char>>>::empty());
    assert(entries_view(entries@) =~= Seq::<EntryView>::empty());
    while k < pages.len()
        invariant
            k <= pages@.len(),
            first_page + pages@.len() <= usize::MAX,
            pv == pages_view(pages@),
            process_pages(pv.take(k as int), HEADER_LINES as int) == Some(entries_view(entries@)),
        decreases pages@.len() - k,
    {
        assert(pv.take(k + 1).drop_last() =~= pv.take(k as int));
        assert(pv[k as int] == lines_view(pages@[k as int]@));
        match extract_page(&pages[k], HEADER_LINES, first_page + k, &mut entries) {
            Ok(()) => {},
            Err(e) => {
                proof {
                    lemma_pages_none_extends(pv, HEADER_LINES as int, k + 1);
                }
                return Err(e);
            },
        }
        k = k + 1;
    }
    assert(pv.take(k as int) =~= pv);
    Ok(crate::dict::Dict(entries))
}

/// Trimming leaves a list whose last headword holds an uppercase letter as it is.
pub proof fn lemma_trim_keeps_capitalized_end(es: Seq<EntryView>, start: int)
    requires
        es.len() > 0,
        has_upper(es.last().name),
    ensures
        trimmed(es, start) == es,
{
    assert(es.take(es.len() as int) =~= es);
}

/// Where no headword of the page (the entries from `start` on) holds an uppercase
/// letter, trimming removes every entry of the page.
pub proof fn lemma_trim_empties_lowercase_page(es: Seq<EntryView>, start: int)
    requires
        0 <= start <= es.len(),
        forall|i: int| start <= i < es.len() ==> !has_upper(#[trigger] es[i].name),
    ensures
        trimmed(es, start) == es.take(start),
        trim_len(es, start) == start,
    decreases es.len(),
{
    if es.len() > start {
        let p = es.drop_last();
        assert(!has_upper(es[es.len() - 1].name));
        assert forall|i: int| start <= i < p.len() implies !has_upper(#[trigger] p[i].name) by {
            assert(p[i] == es[i]);
        }
        lemma_trim_empties_lowercase_page(p, start);
    }
}

/// A continuation without a part-of-speech abbreviation, on an entry that has a
/// fragment, joins the line onto the last fragment: the number of fragments stays,
/// the last one grows by the line, and everything else is kept.
pub proof fn lemma_continuation_extends(es: Seq<EntryView>, line: Seq<char>)
    requires
        es.len() > 0,
        es.last().trans.len() > 0,
    ensures
        continue_spec(es, line, false) matches Some(r) && r.len() == es.len() && (forall|i: int|
            0 <= i < es.len() - 1 ==> r[i] == es[i]) && r.last().name == es.last().name
            && r.last().kind == es.last().kind && r.last().trans.len() == es.last().trans.len()
            && (forall|j: int|
            0 <= j < es.last().trans.len() - 1 ==> r.last().trans[j] == es.last().trans[j])
            && r.last().trans.last() == es.last().trans.last() + line
            && r.last().trans.last().len() == es.last().trans.last().len() + line.len(),
{
}

} // verus!
