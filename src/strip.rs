use vstd::prelude::*;
use crate::chars::{is_private_use, is_space, private_use, space};
use crate::classify::copy_range;

verus! {

/// The first index from `k` on that holds `/` or `,`; the length where none does.
pub open spec fn first_stop(s: Seq<char>, k: int) -> int
    decreases s.len() - k,
{
    if k < 0 || k >= s.len() {
        s.len() as int
    } else if s[k] == '/' || s[k] == ',' {
        k
    } else {
        first_stop(s, k + 1)
    }
}

/// Number of private-use glyphs starting at `i`.
pub open spec fn private_run(s: Seq<char>, i: int) -> int
    decreases s.len() - i,
{
    if 0 <= i < s.len() && is_private_use(s[i]) {
        1 + private_run(s, i + 1)
    } else {
        0
    }
}

/// The end of an annotation that starts at `i`: a slash span (`/`, one or more
/// characters that are neither `/` nor `,`, then `/`), else a run of private-use glyphs.
pub open spec fn annotation_end(s: Seq<char>, i: int) -> Option<int> {
    if 0 <= i < s.len() && s[i] == '/' {
        let j = first_stop(s, i + 1);
        if j < s.len() && s[j] == '/' && j > i + 1 {
            Some(j + 1)
        } else {
            None
        }
    } else if 0 <= i < s.len() && is_private_use(s[i]) {
        Some(i + private_run(s, i))
    } else {
        None
    }
}

/// The end of the match at `i`: one optional whitespace character, then an annotation.
pub open spec fn match_end(s: Seq<char>, i: int) -> Option<int> {
    if 0 <= i < s.len() && is_space(s[i]) && annotation_end(s, i + 1) is Some {
        annotation_end(s, i + 1)
    } else {
        annotation_end(s, i)
    }
}

/// One pass from `i`: each match, taken leftmost first, is removed; other characters
/// are kept.
pub open spec fn pass_from(s: Seq<char>, i: int) -> Seq<char>
    decreases s.len() - i,
{
    if i < 0 || i >= s.len() {
        Seq::empty()
    } else {
        match match_end(s, i) {
            Some(e) => if i < e <= s.len() {
                pass_from(s, e)
            } else {
                seq![s[i]] + pass_from(s, i + 1)
            },
            None => seq![s[i]] + pass_from(s, i + 1),
        }
    }
}

pub open spec fn strip_pass(s: Seq<char>) -> Seq<char> {
    pass_from(s, 0)
}

/// A line with its pronunciation annotations removed: passes are repeated until one
/// removes nothing.
pub open spec fn stripped(s: Seq<char>) -> Seq<char>
    decreases s.len(),
{
    if strip_pass(s).len() < s.len() {
        stripped(strip_pass(s))
    } else {
        s
    }
}

/// `s[i..j]` is a slash span: `/`, at least one character that is neither `/` nor `,`,
/// and `/`.
pub open spec fn is_slash_span(s: Seq<char>, i: int, j: int) -> bool {
    &&& 0 <= i && i + 1 < j && j < s.len()
    &&& s[i] == '/' && s[j] == '/'
    &&& forall|k: int| i < k < j ==> s[k] != '/' && s[k] != ','
}

/// Text that holds no pronunciation annotation.
pub open spec fn annotation_free(s: Seq<char>) -> bool {
    &&& forall|k: int| 0 <= k < s.len() ==> !is_private_use(#[trigger] s[k])
    &&& forall|i: int, j: int| !#[trigger] is_slash_span(s, i, j)
}

proof fn lemma_private_run_bounds(s: Seq<char>, i: int)
    requires
        0 <= i <= s.len(),
    ensures
        0 <= private_run(s, i) <= s.len() - i,
    decreases s.len() - i,
{
    if 0 <= i < s.len() && is_private_use(s[i]) {
        lemma_private_run_bounds(s, i + 1);
    }
}

proof fn lemma_first_stop(s: Seq<char>, k: int)
    requires
        0 <= k <= s.len(),
    ensures
        k <= first_stop(s, k) <= s.len(),
        forall|m: int| k <= m < first_stop(s, k) ==> s[m] != '/' && s[m] != ',',
        first_stop(s, k) < s.len() ==> (s[first_stop(s, k)] == '/' || s[first_stop(s, k)] == ','),
    decreases s.len() - k,
{
    if k < s.len() && s[k] != '/' && s[k] != ',' {
        lemma_first_stop(s, k + 1);
    }
}

proof fn lemma_pass_len(s: Seq<char>, i: int)
    requires
        0 <= i <= s.len(),
    ensures
        pass_from(s, i).len() <= s.len() - i,
    decreases s.len() - i,
{
    if i < s.len() {
        lemma_pass_len(s, i + 1);
        if let Some(e) = match_end(s, i) {
            if i < e <= s.len() {
                lemma_pass_len(s, e);
            }
        }
    }
}

/// Where a pass from `i` removes nothing, no annotation starts at or after `i`.
proof fn lemma_full_pass(s: Seq<char>, i: int)
    requires
        0 <= i <= s.len(),
        pass_from(s, i).len() == s.len() - i,
    ensures
        forall|k: int| i <= k < s.len() ==> #[trigger] annotation_end(s, k) is None,
    decreases s.len() - i,
{
    if i < s.len() {
        lemma_pass_len(s, i + 1);
        lemma_private_run_bounds(s, i);
        lemma_private_run_bounds(s, i + 1);
        lemma_first_stop(s, i + 1);
        if i + 2 <= s.len() {
            lemma_first_stop(s, i + 2);
            lemma_private_run_bounds(s, i + 2);
        }
        if let Some(e) = match_end(s, i) {
            assert(i < e <= s.len());
            lemma_pass_len(s, e);
        }
        lemma_full_pass(s, i + 1);
    }
}

/// What stripping gives holds no annotation.
proof fn lemma_stripped_free(s: Seq<char>)
    ensures
        annotation_free(stripped(s)),
        strip_pass(stripped(s)).len() >= stripped(s).len(),
    decreases s.len(),
{
    if strip_pass(s).len() < s.len() {
        lemma_stripped_free(strip_pass(s));
    } else {
        lemma_pass_len(s, 0);
        lemma_full_pass(s, 0);
        assert forall|k: int| 0 <= k < s.len() implies !is_private_use(#[trigger] s[k]) by {
            assert(annotation_end(s, k) is None);
        }
        assert forall|i: int, j: int| !#[trigger] is_slash_span(s, i, j) by {
            if is_slash_span(s, i, j) {
                lemma_first_stop(s, i + 1);
                assert(annotation_end(s, i) is None);
                if first_stop(s, i + 1) < j {
                    assert(false);
                }
            }
        }
    }
}

/// Stripping twice gives what stripping once gives, and the result holds no
/// annotation.
pub proof fn lemma_strip_idempotent(s: Seq<char>)
    ensures
        stripped(stripped(s)) == stripped(s),
        annotation_free(stripped(s)),
{
    lemma_stripped_free(s);
}

fn private_run_from(s: &Vec<char>, i: usize) -> (r: usize)
    requires
        i <= s@.len(),
    ensures
        r == private_run(s@, i as int),
        i + r <= s@.len(),
{
    let mut j = i;
    while j < s.len() && private_use(s[j])
        invariant
            i <= j <= s@.len(),
            private_run(s@, i as int) == (j - i) + private_run(s@, j as int),
        decreases s@.len() - j,
    {
        j = j + 1;
    }
    j - i
}

fn annotation_end_at(s: &Vec<char>, i: usize) -> (r: Option<usize>)
    requires
        i <= s@.len(),
    ensures
        r matches Some(e) ==> annotation_end(s@, i as int) == Some(e as int),
        r is None ==> annotation_end(s@, i as int) is None,
{
    let len = s.len();
    if i < len && s[i] == '/' {
        let mut j = i + 1;
        while j < len && s[j] != '/' && s[j] != ','
            invariant
                i < j <= len == s@.len(),
                first_stop(s@, i + 1) == first_stop(s@, j as int),
            decreases len - j,
        {
            j = j + 1;
        }
        if j < len && s[j] == '/' && j > i + 1 {
            Some(j + 1)
        } else {
            None
        }
    } else if i < len && private_use(s[i]) {
        Some(i + private_run_from(s, i))
    } else {
        None
    }
}

fn match_end_at(s: &Vec<char>, i: usize) -> (r: Option<usize>)
    requires
        i <= s@.len(),
    ensures
        r matches Some(e) ==> match_end(s@, i as int) == Some(e as int),
        r is None ==> match_end(s@, i as int) is None,
{
    if i < s.len() && space(s[i]) {
        match annotation_end_at(s, i + 1) {
            Some(e) => {
                return Some(e);
            },
            None => {},
        }
    }
    annotation_end_at(s, i)
}

/// One leftmost-first pass over `s`.
fn pass(s: &Vec<char>) -> (r: Vec<char>)
    ensures
        r@ == strip_pass(s@),
{
    let mut out: Vec<char> = Vec::new();
    let mut i: usize = 0;
    assert(out@ + pass_from(s@, 0) =~= strip_pass(s@));
    while i < s.len()
        invariant
            i <= s@.len(),
            out@ + pass_from(s@, i as int) == strip_pass(s@),
        decreases s@.len() - i,
    {
        match match_end_at(s, i) {
            Some(e) => {
                if i < e && e <= s.len() {
                    i = e;
                    continue;
                }
            },
            None => {},
        }
        let ghost before = out@;
        out.push(s[i]);
        assert(before + (seq![s@[i as int]] + pass_from(s@, i + 1)) =~= out@ + pass_from(
            s@,
            i + 1,
        ));
        i = i + 1;
    }
    assert(out@ + pass_from(s@, i as int) =~= out@);
    out
}

/// Removes the pronunciation annotations of a line: each slash span holding no `,` and
/// no inner `/`, and each run of private-use glyphs, with one whitespace character
/// directly before it, matched leftmost first; passes repeat until one removes nothing.
pub fn strip_pronunciation(line: &Vec<char>) -> (r: Vec<char>)
    ensures
        r@ == stripped(line@),
        annotation_free(r@),
{
    let mut cur = copy_range(line, 0, line.len());
    assert(line@.subrange(0, line@.len() as int) =~= line@);
    loop
        invariant
            stripped(line@) == stripped(cur@),
        decreases cur@.len(),
    {
        let next = pass(&cur);
        if next.len() < cur.len() {
            cur = next;
        } else {
            proof {
                lemma_stripped_free(line@);
            }
            return cur;
        }
    }
}

} // verus!
