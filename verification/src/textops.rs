//! Verified text primitives for the chunker: whitespace word splitting,
//! paragraph splitting on blank lines, trimming, and joining word ranges.
//!
//! Whitespace here is the ASCII class (space, tab, line feed, carriage
//! return, vertical tab, form feed); the corpus this engine targets is plain
//! text where this coincides with the usual notion.

use vstd::prelude::*;
use vstd::string::StrSliceExecFns;
use vstd::string::StringExecFns;

verus! {

/// ASCII whitespace.
pub open spec fn is_space_char(c: char) -> bool {
    c == ' ' || c == '\t' || c == '\n' || c == '\r' || c == '\u{000B}' || c == '\u{000C}'
}

/// Executable form of `is_space_char`.
pub fn is_space(c: char) -> (r: bool)
    ensures
        r == is_space_char(c),
{
    c == ' ' || c == '\t' || c == '\n' || c == '\r' || c == '\u{000B}' || c == '\u{000C}'
}

/// Character-wise string equality.
pub fn str_eq(a: &str, b: &str) -> (r: bool)
    ensures
        r == (a@ == b@),
{
    let na = a.unicode_len();
    let nb = b.unicode_len();
    if na != nb {
        proof {
            assert(a@ != b@);
        }
        return false;
    }
    let mut i: usize = 0;
    while i < na
        invariant
            0 <= i <= na,
            na == a@.len(),
            na == b@.len(),
            forall|q: int| 0 <= q < i ==> #[trigger] a@[q] == b@[q],
        decreases na - i,
    {
        if a.get_char(i) != b.get_char(i) {
            return false;
        }
        i = i + 1;
    }
    proof {
        assert(a@ =~= b@);
    }
    true
}

/// The views of a sequence of strings.
pub open spec fn views_of(v: Seq<String>) -> Seq<Seq<char>> {
    v.map_values(|s: String| s@)
}

/// Length of the maximal non-space run of `s` starting at `i`.
pub open spec fn word_len_from(s: Seq<char>, i: int) -> int
    decreases s.len() - i,
{
    if i < 0 || i >= s.len() || is_space_char(s[i]) {
        0
    } else {
        1 + word_len_from(s, i + 1)
    }
}

/// The whitespace-separated words of `s` from position `i` on.
pub open spec fn words_from(s: Seq<char>, i: int) -> Seq<Seq<char>>
    decreases s.len() - i,
    when i >= 0
    via words_from_dec
{
    if i >= s.len() {
        Seq::empty()
    } else if is_space_char(s[i]) {
        words_from(s, i + 1)
    } else {
        seq![s.subrange(i, i + word_len_from(s, i))] + words_from(s, i + word_len_from(s, i))
    }
}

#[via_fn]
proof fn words_from_dec(s: Seq<char>, i: int) {
    if 0 <= i && i < s.len() && !is_space_char(s[i]) {
        lemma_word_len_from_bounds(s, i);
    }
}

/// The whitespace-separated words of `s`.
pub open spec fn words_of(s: Seq<char>) -> Seq<Seq<char>> {
    words_from(s, 0)
}

proof fn lemma_word_len_from_bounds(s: Seq<char>, i: int)
    requires
        0 <= i <= s.len(),
    ensures
        i + word_len_from(s, i) <= s.len(),
        i < s.len() && !is_space_char(s[i]) ==> word_len_from(s, i) >= 1,
    decreases s.len() - i,
{
    if i < s.len() && !is_space_char(s[i]) {
        lemma_word_len_from_bounds(s, i + 1);
    }
}

/// A scan that stops at the first space starting from a non-space position
/// computes `word_len_from`.
proof fn lemma_word_len_from_scan(s: Seq<char>, i: int, j: int)
    requires
        0 <= i <= j <= s.len(),
        forall|p: int| i <= p < j ==> !is_space_char(#[trigger] s[p]),
        j == s.len() || is_space_char(s[j]),
    ensures
        word_len_from(s, i) == j - i,
    decreases j - i,
{
    if i < j {
        lemma_word_len_from_scan(s, i + 1, j);
    }
}

/// Executable whitespace splitting; returns exactly the words of `s`.
pub fn split_words(s: &str) -> (r: Vec<String>)
    ensures
        views_of(r@) == words_of(s@),
{
    let n = s.unicode_len();
    let mut r: Vec<String> = Vec::new();
    let mut i: usize = 0;
    while i < n
        invariant
            0 <= i <= n,
            n == s@.len(),
            words_of(s@) == views_of(r@) + words_from(s@, i as int),
        decreases n - i,
    {
        if is_space(s.get_char(i)) {
            i = i + 1;
        } else {
            let mut j: usize = i + 1;
            while j < n && !is_space(s.get_char(j))
                invariant
                    i < j <= n,
                    n == s@.len(),
                    forall|p: int| i <= p < j ==> !is_space_char(#[trigger] s@[p]),
                decreases n - j,
            {
                j = j + 1;
            }
            proof {
                lemma_word_len_from_scan(s@, i as int, j as int);
            }
            let word = s.substring_char(i, j).to_owned();
            let ghost old_r = r@;
            r.push(word);
            proof {
                assert(views_of(r@) =~= views_of(old_r).push(s@.subrange(i as int, j as int)));
                assert(views_of(r@) + words_from(s@, j as int) =~= views_of(old_r) + words_from(
                    s@,
                    i as int,
                ));
            }
            i = j;
        }
    }
    proof {
        assert(views_of(r@) =~= words_of(s@));
    }
    r
}

/// Position of the first blank-line break (`"\n\n"`) at or after `i`, or the
/// length of `s` if there is none.
pub open spec fn next_break(s: Seq<char>, i: int) -> int
    decreases s.len() - i,
    when i >= 0
{
    if i + 2 > s.len() {
        s.len() as int
    } else if s[i] == '\n' && s[i + 1] == '\n' {
        i
    } else {
        next_break(s, i + 1)
    }
}

proof fn lemma_next_break_bounds(s: Seq<char>, i: int)
    requires
        0 <= i <= s.len(),
    ensures
        i <= next_break(s, i) <= s.len(),
    decreases s.len() - i,
{
    if i + 2 <= s.len() && !(s[i] == '\n' && s[i + 1] == '\n') {
        lemma_next_break_bounds(s, i + 1);
    }
}

proof fn lemma_next_break_scan(s: Seq<char>, i: int, j: int)
    requires
        0 <= i <= j <= s.len(),
        forall|p: int|
            i <= p < j && p + 2 <= s.len() ==> !(#[trigger] s[p] == '\n' && s[p + 1] == '\n'),
    ensures
        next_break(s, i) == next_break(s, j),
    decreases j - i,
{
    if i < j {
        lemma_next_break_scan(s, i + 1, j);
    }
}

/// The segments of `s` from position `i` on, split on blank-line breaks.
/// Always at least one segment (the final, possibly empty, remainder).
pub open spec fn paras_from(s: Seq<char>, i: int) -> Seq<Seq<char>>
    decreases s.len() - i,
    when 0 <= i <= s.len()
{
    let b = next_break(s, i);
    if i <= b && b + 2 <= s.len() {
        seq![s.subrange(i, b)] + paras_from(s, b + 2)
    } else {
        seq![s.subrange(i, s.len() as int)]
    }
}

/// The blank-line separated segments of `s`.
pub open spec fn paras_of(s: Seq<char>) -> Seq<Seq<char>> {
    paras_from(s, 0)
}

/// Executable paragraph splitting on `"\n\n"`.
pub fn split_paragraphs(s: &str) -> (r: Vec<String>)
    ensures
        views_of(r@) == paras_of(s@),
{
    let n = s.unicode_len();
    let mut r: Vec<String> = Vec::new();
    let mut start: usize = 0;
    loop
        invariant
            0 <= start <= n,
            n == s@.len(),
            paras_of(s@) == views_of(r@) + paras_from(s@, start as int),
        decreases n - start + 1,
    {
        // Scan for the next break at or after `start`.
        let mut j: usize = start;
        while j < n && j + 1 < n && !(s.get_char(j) == '\n' && s.get_char(j + 1) == '\n')
            invariant
                start <= j <= n,
                n == s@.len(),
                forall|p: int|
                    start <= p < j && p + 2 <= s@.len() ==> !(#[trigger] s@[p] == '\n' && s@[p + 1]
                        == '\n'),
            decreases n - j,
        {
            j = j + 1;
        }
        proof {
            lemma_next_break_scan(s@, start as int, j as int);
        }
        if j < n && j + 1 < n {
            // A break sits at j.
            let seg = s.substring_char(start, j).to_owned();
            let ghost old_r = r@;
            r.push(seg);
            proof {
                lemma_next_break_bounds(s@, j as int);
                assert(next_break(s@, j as int) == j as int);
                assert(next_break(s@, start as int) == j as int);
                assert(views_of(r@) =~= views_of(old_r).push(
                    s@.subrange(start as int, j as int),
                ));
                assert(views_of(r@) + paras_from(s@, (j + 2) as int) =~= views_of(old_r)
                    + paras_from(s@, start as int));
            }
            start = j + 2;
        } else {
            // No further break: the remainder is the last segment.
            let seg = s.substring_char(start, n).to_owned();
            let ghost old_r = r@;
            r.push(seg);
            proof {
                assert(next_break(s@, start as int) == j as int || next_break(s@, start as int)
                    == s@.len());
                assert(next_break(s@, start as int) + 2 > s@.len());
                assert(views_of(r@) =~= views_of(old_r).push(
                    s@.subrange(start as int, n as int),
                ));
                assert(views_of(r@) =~= paras_of(s@));
            }
            return r;
        }
    }
}

/// First non-space position at or after `i`.
pub open spec fn first_nonspace(s: Seq<char>, i: int) -> int
    decreases s.len() - i,
    when i >= 0
{
    if i >= s.len() {
        s.len() as int
    } else if is_space_char(s[i]) {
        first_nonspace(s, i + 1)
    } else {
        i
    }
}

/// End (exclusive) of the content once trailing spaces before `j` are
/// dropped.
pub open spec fn trim_end_from(s: Seq<char>, j: int) -> int
    decreases j,
    when j <= s.len()
{
    if j <= 0 {
        0
    } else if is_space_char(s[j - 1]) {
        trim_end_from(s, j - 1)
    } else {
        j
    }
}

/// `s` with leading and trailing whitespace removed.
pub open spec fn trim_of(s: Seq<char>) -> Seq<char> {
    let a = first_nonspace(s, 0);
    if a == s.len() {
        Seq::empty()
    } else {
        s.subrange(a, trim_end_from(s, s.len() as int))
    }
}

proof fn lemma_first_nonspace_bounds(s: Seq<char>, i: int)
    requires
        0 <= i <= s.len(),
    ensures
        i <= first_nonspace(s, i) <= s.len(),
        first_nonspace(s, i) < s.len() ==> !is_space_char(s[first_nonspace(s, i)]),
        forall|p: int| i <= p < first_nonspace(s, i) ==> is_space_char(#[trigger] s[p]),
    decreases s.len() - i,
{
    if i < s.len() && is_space_char(s[i]) {
        lemma_first_nonspace_bounds(s, i + 1);
    }
}

proof fn lemma_trim_end_bounds(s: Seq<char>, j: int, a: int)
    requires
        0 <= a < j <= s.len(),
        !is_space_char(s[a]),
    ensures
        a < trim_end_from(s, j) <= j,
        !is_space_char(s[trim_end_from(s, j) - 1]),
    decreases j,
{
    if is_space_char(s[j - 1]) {
        if a < j - 1 {
            lemma_trim_end_bounds(s, j - 1, a);
        }
    }
}

proof fn lemma_first_nonspace_scan(s: Seq<char>, i: int, j: int)
    requires
        0 <= i <= j <= s.len(),
        forall|p: int| i <= p < j ==> is_space_char(#[trigger] s[p]),
    ensures
        first_nonspace(s, i) == first_nonspace(s, j),
    decreases j - i,
{
    if i < j {
        lemma_first_nonspace_scan(s, i + 1, j);
    }
}

proof fn lemma_trim_end_scan(s: Seq<char>, j: int, k: int)
    requires
        0 <= k <= j <= s.len(),
        forall|p: int| k <= p < j ==> is_space_char(#[trigger] s[p]),
    ensures
        trim_end_from(s, j) == trim_end_from(s, k),
    decreases j - k,
{
    if k < j {
        lemma_trim_end_scan(s, j - 1, k);
    }
}

/// Executable trim; returns `s` without leading and trailing whitespace.
pub fn trim(s: &str) -> (r: String)
    ensures
        r@ == trim_of(s@),
{
    let n = s.unicode_len();
    let mut a: usize = 0;
    while a < n && is_space(s.get_char(a))
        invariant
            0 <= a <= n,
            n == s@.len(),
            forall|p: int| 0 <= p < a ==> is_space_char(#[trigger] s@[p]),
        decreases n - a,
    {
        a = a + 1;
    }
    proof {
        lemma_first_nonspace_scan(s@, 0, a as int);
    }
    if a == n {
        proof {
            assert(first_nonspace(s@, a as int) == s@.len());
        }
        let r = String::new();
        proof {
            assert(r@ =~= trim_of(s@));
        }
        return r;
    }
    proof {
        assert(first_nonspace(s@, 0) == a as int);
    }
    let mut b: usize = n;
    while b > a + 1 && is_space(s.get_char(b - 1))
        invariant
            a < b <= n,
            n == s@.len(),
            forall|p: int| b <= p < n ==> is_space_char(#[trigger] s@[p]),
        decreases b,
    {
        b = b - 1;
    }
    proof {
        lemma_trim_end_scan(s@, n as int, b as int);
        if !(b > a + 1 && is_space_char(s@[b as int - 1])) {
            if is_space_char(s@[b as int - 1]) {
                // Then b == a + 1, and s[a] is not a space.
                assert(b as int - 1 == a as int);
                assert(false);
            }
        }
        assert(trim_end_from(s@, b as int) == b as int);
    }
    let r = s.substring_char(a, b).to_owned();
    proof {
        assert(r@ =~= trim_of(s@));
    }
    r
}

/// The words of `ws`, joined with single spaces.
pub open spec fn join_words(ws: Seq<Seq<char>>) -> Seq<char>
    decreases ws.len(),
{
    if ws.len() == 0 {
        Seq::empty()
    } else if ws.len() == 1 {
        ws[0]
    } else {
        join_words(ws.drop_last()) + seq![' '] + ws.last()
    }
}

/// Join `words[from..to]` with single spaces.
pub fn join_range(words: &Vec<String>, from: usize, to: usize) -> (r: String)
    requires
        from <= to <= words@.len(),
    ensures
        r@ == join_words(views_of(words@).subrange(from as int, to as int)),
{
    let mut r = String::new();
    let mut i: usize = from;
    while i < to
        invariant
            from <= i <= to <= words@.len(),
            r@ == join_words(views_of(words@).subrange(from as int, i as int)),
        decreases to - i,
    {
        if i > from {
            r.append(" ");
        }
        r.append(words[i].as_str());
        proof {
            reveal_strlit(" ");
            assert(" "@ =~= seq![' ']);
            let vs = views_of(words@);
            let prev = vs.subrange(from as int, i as int);
            let cur = vs.subrange(from as int, i + 1);
            assert(cur.drop_last() =~= prev);
            assert(cur.last() == words@[i as int]@);
            if i > from {
                assert(r@ == join_words(prev) + seq![' '] + vs[i as int]);
                assert(r@ =~= join_words(cur));
            } else {
                assert(prev.len() == 0);
                assert(join_words(prev) =~= Seq::<char>::empty());
                assert(r@ =~= vs[i as int]);
                assert(r@ =~= join_words(cur));
            }
        }
        i = i + 1;
    }
    r
}

} // verus!
