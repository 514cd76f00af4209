//! Naming of downloaded files.

use vstd::prelude::*;

verus! {

/// Index one past the last `'/'` of `s`, or 0 when `s` holds none.
pub open spec fn after_last_slash(s: Seq<char>) -> int
    decreases s.len(),
{
    if s.len() == 0 {
        0
    } else if s.last() == '/' {
        s.len() as int
    } else {
        after_last_slash(s.drop_last())
    }
}

/// Index of the first `'?'` of `s`, or `s.len()` when `s` holds none.
pub open spec fn first_question_mark(s: Seq<char>) -> int
    decreases s.len(),
{
    if s.len() == 0 {
        0
    } else if s[0] == '?' {
        0
    } else {
        1 + first_question_mark(s.drop_first())
    }
}

/// The file name that a URL designates: what follows its last `'/'`, cut at
/// the first `'?'` found there.
pub open spec fn filename_of(url: Seq<char>) -> Seq<char> {
    let tail = url.subrange(after_last_slash(url), url.len() as int);
    tail.subrange(0, first_question_mark(tail))
}

pub proof fn lemma_after_last_slash_bounds(s: Seq<char>)
    ensures
        0 <= after_last_slash(s) <= s.len(),
        after_last_slash(s) > 0 ==> s[after_last_slash(s) - 1] == '/',
        forall|i: int| after_last_slash(s) <= i < s.len() ==> s[i] != '/',
    decreases s.len(),
{
    if s.len() > 0 && s.last() != '/' {
        let t = s.drop_last();
        lemma_after_last_slash_bounds(t);
        assert forall|i: int| after_last_slash(s) <= i < s.len() implies s[i] != '/' by {
            if i < t.len() {
                assert(s[i] == t[i]);
            }
        }
    }
}

pub proof fn lemma_first_question_mark_bounds(s: Seq<char>)
    ensures
        0 <= first_question_mark(s) <= s.len(),
        first_question_mark(s) < s.len() ==> s[first_question_mark(s)] == '?',
        forall|i: int| 0 <= i < first_question_mark(s) ==> s[i] != '?',
    decreases s.len(),
{
    if s.len() > 0 && s[0] != '?' {
        let t = s.drop_first();
        lemma_first_question_mark_bounds(t);
        assert forall|i: int| 0 <= i < first_question_mark(s) implies s[i] != '?' by {
            if i > 0 {
                assert(s[i] == t[i - 1]);
            }
        }
    }
}

/// A scan position `k` at which no `'?'` has been seen in `s[..k]` agrees
/// with `first_question_mark` once it meets a `'?'` or the end.
proof fn lemma_first_question_mark_is(s: Seq<char>, k: int)
    requires
        0 <= k <= s.len(),
        forall|i: int| 0 <= i < k ==> s[i] != '?',
        k < s.len() ==> s[k] == '?',
    ensures
        first_question_mark(s) == k,
{
    lemma_first_question_mark_bounds(s);
    let f = first_question_mark(s);
    if f < k {
        assert(s[f] == '?');
    } else if f > k {
        assert(s[k] != '?');
    }
}

proof fn lemma_after_last_slash_is(s: Seq<char>, k: int)
    requires
        0 <= k <= s.len(),
        forall|i: int| k <= i < s.len() ==> s[i] != '/',
        k > 0 ==> s[k - 1] == '/',
    ensures
        after_last_slash(s) == k,
{
    lemma_after_last_slash_bounds(s);
    let f = after_last_slash(s);
    if f > k {
        assert(s[f - 1] == '/');
    } else if f < k {
        assert(s[k - 1] != '/');
    }
}

/// Extracts the file name from a download URL.
pub fn extract_filename(url: &str) -> (name: String)
    ensures
        name@ == filename_of(url@),
{
    let n: usize = url.unicode_len();
    let mut start: usize = n;
    while start > 0 && url.get_char(start - 1) != '/'
        invariant
            start <= n,
            n == url@.len(),
            forall|i: int| start <= i < n ==> url@[i] != '/',
        decreases start,
    {
        start = start - 1;
    }
    let mut end: usize = start;
    while end < n && url.get_char(end) != '?'
        invariant
            start <= end <= n,
            n == url@.len(),
            forall|i: int| start <= i < end ==> url@[i] != '?',
        decreases n - end,
    {
        end = end + 1;
    }
    proof {
        lemma_after_last_slash_is(url@, start as int);
        let tail = url@.subrange(start as int, n as int);
        assert forall|i: int| 0 <= i < end - start implies tail[i] != '?' by {
            assert(tail[i] == url@[start + i]);
        }
        lemma_first_question_mark_is(tail, end - start);
        assert(tail.subrange(0, end - start) =~= url@.subrange(start as int, end as int));
    }
    String::from_str(url.substring_char(start, end))
}

} // verus!
