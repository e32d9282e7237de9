//! Verified text utilities: character-level equality, searching, line
//! splitting, whitespace trimming, and decimal conversions. All contracts are
//! stated over `Seq<char>` views of `&str` and `String`.

use vstd::prelude::*;
use vstd::string::*;

verus! {

/// The ASCII whitespace characters that trimming removes.
pub open spec fn is_ws(c: char) -> bool {
    c == ' ' || c == '\t' || c == '\r' || c == '\n'
}

/// Index of the first occurrence of `c` in `s`, or `s.len()` if absent.
pub open spec fn first_idx(s: Seq<char>, c: char) -> int
    decreases s.len(),
{
    if s.len() == 0 {
        0
    } else if s[0] == c {
        0
    } else {
        1 + first_idx(s.drop_first(), c)
    }
}

pub proof fn lemma_first_idx(s: Seq<char>, c: char)
    ensures
        0 <= first_idx(s, c) <= s.len(),
        first_idx(s, c) < s.len() ==> s[first_idx(s, c)] == c,
        forall|j: int| 0 <= j < first_idx(s, c) ==> s[j] != c,
    decreases s.len(),
{
    if s.len() > 0 && s[0] != c {
        lemma_first_idx(s.drop_first(), c);
        assert(forall|j: int| 1 <= j < first_idx(s, c) ==> s[j] == s.drop_first()[j - 1]);
    }
}

/// `first_idx` is the unique position with `c` behind it and none before it.
pub proof fn lemma_first_idx_is(s: Seq<char>, c: char, i: int)
    requires
        0 <= i < s.len(),
        s[i] == c,
        forall|j: int| 0 <= j < i ==> s[j] != c,
    ensures
        first_idx(s, c) == i,
{
    lemma_first_idx(s, c);
}

/// Exact string equality, decided character by character.
pub fn str_eq(a: &str, b: &str) -> (r: bool)
    ensures
        r <==> a@ == b@,
{
    let na = a.unicode_len();
    let nb = b.unicode_len();
    if na != nb {
        return false;
    }
    let mut i: usize = 0;
    while i < na
        invariant
            na == a@.len(),
            na == b@.len(),
            i <= na,
            forall|j: int| 0 <= j < i ==> a@[j] == b@[j],
        decreases na - i,
    {
        if a.get_char(i) != b.get_char(i) {
            return false;
        }
        i += 1;
    }
    proof {
        assert(a@ =~= b@);
    }
    true
}

/// Finds the first occurrence of `c` at or after `from`; returns `s@.len()`
/// when there is none at or after `from`.
pub fn find_char_from(s: &str, c: char, from: usize) -> (i: usize)
    requires
        from <= s@.len(),
    ensures
        from <= i <= s@.len(),
        i - from == first_idx(s@.skip(from as int), c),
{
    let n = s.unicode_len();
    let mut i = from;
    while i < n
        invariant
            n == s@.len(),
            from <= i <= n,
            forall|j: int| from <= j < i ==> s@[j] != c,
        decreases n - i,
    {
        if s.get_char(i) == c {
            proof {
                let t = s@.skip(from as int);
                lemma_first_idx(t, c);
                assert(forall|j: int| 0 <= j < i - from ==> t[j] == s@[from + j] && t[j] != c);
                assert(t[i - from] == c);
            }
            return i;
        }
        i += 1;
    }
    proof {
        let t = s@.skip(from as int);
        lemma_first_idx(t, c);
        assert(forall|j: int| 0 <= j < t.len() ==> t[j] == s@[from + j] && t[j] != c);
    }
    n
}

/// A line of the listing: everything up to the next newline, with one
/// trailing carriage return removed.
pub open spec fn strip_cr(l: Seq<char>) -> Seq<char> {
    if l.len() > 0 && l.last() == '\r' {
        l.drop_last()
    } else {
        l
    }
}

/// The lines of `s`, split on `'\n'`, each stripped of one trailing `'\r'`;
/// a final newline does not produce an empty last line.
pub open spec fn split_lines_spec(s: Seq<char>) -> Seq<Seq<char>>
    decreases s.len(),
    via split_lines_spec_decreases
{
    if s.len() == 0 {
        seq![]
    } else {
        let i = first_idx(s, '\n');
        let line = strip_cr(s.subrange(0, i));
        if i == s.len() {
            seq![line]
        } else {
            seq![line] + split_lines_spec(s.subrange(i + 1, s.len() as int))
        }
    }
}

#[via_fn]
proof fn split_lines_spec_decreases(s: Seq<char>) {
    lemma_first_idx(s, '\n');
}

/// The views of a vector of strings.
pub open spec fn views_of(v: Seq<String>) -> Seq<Seq<char>> {
    v.map_values(|x: String| x@)
}

/// Splits `s` into lines as `str::lines` does: on `'\n'`, dropping one
/// trailing `'\r'` per line, with no empty line after a final newline.
pub fn split_lines(s: &str) -> (r: Vec<String>)
    ensures
        views_of(r@) == split_lines_spec(s@),
{
    let n = s.unicode_len();
    let mut res: Vec<String> = Vec::new();
    let mut start: usize = 0;
    proof {
        assert(s@.skip(0) =~= s@);
        assert(views_of(Seq::<String>::empty()) =~= Seq::<Seq<char>>::empty());
    }
    while start < n
        invariant
            n == s@.len(),
            start <= n,
            split_lines_spec(s@) =~= views_of(res@) + split_lines_spec(s@.skip(start as int)),
        decreases n - start,
    {
        let i = find_char_from(s, '\n', start);
        let mut end = i;
        if end > start && s.get_char(end - 1) == '\r' {
            end -= 1;
        }
        let line = s.substring_char(start, end).to_owned();
        proof {
            let t = s@.skip(start as int);
            lemma_first_idx(t, '\n');
            assert(t.subrange(0, i - start) =~= s@.subrange(start as int, i as int));
            assert(strip_cr(t.subrange(0, i - start)) =~= line@);
            if i < n {
                assert(t.subrange(i - start + 1, t.len() as int) =~= s@.skip(i + 1));
                assert(split_lines_spec(t) =~= seq![line@] + split_lines_spec(s@.skip(i + 1)));
            } else {
                assert(split_lines_spec(t) =~= seq![line@]);
            }
            assert(views_of(res@.push(line)) =~= views_of(res@) + seq![line@]);
        }
        res.push(line);
        if i < n {
            start = i + 1;
        } else {
            start = n;
            proof {
                assert(s@.skip(n as int) =~= Seq::<char>::empty());
            }
        }
    }
    proof {
        assert(s@.skip(start as int) =~= Seq::<char>::empty());
        assert(views_of(res@) =~= split_lines_spec(s@));
    }
    res
}

/// Count of leading whitespace characters.
pub open spec fn trim_start_idx(s: Seq<char>) -> int
    decreases s.len(),
{
    if s.len() == 0 {
        0
    } else if !is_ws(s[0]) {
        0
    } else {
        1 + trim_start_idx(s.drop_first())
    }
}

/// End of the string with trailing whitespace removed.
pub open spec fn trim_end_idx(s: Seq<char>) -> int
    decreases s.len(),
{
    if s.len() == 0 {
        0
    } else if !is_ws(s.last()) {
        s.len() as int
    } else {
        trim_end_idx(s.drop_last())
    }
}

/// `s` with leading and trailing ASCII whitespace removed.
pub open spec fn trim_spec(s: Seq<char>) -> Seq<char> {
    if trim_start_idx(s) == s.len() {
        Seq::empty()
    } else {
        s.subrange(trim_start_idx(s), trim_end_idx(s))
    }
}

pub proof fn lemma_trim_start(s: Seq<char>)
    ensures
        0 <= trim_start_idx(s) <= s.len(),
        trim_start_idx(s) < s.len() ==> !is_ws(s[trim_start_idx(s)]),
        forall|j: int| 0 <= j < trim_start_idx(s) ==> is_ws(s[j]),
    decreases s.len(),
{
    if s.len() > 0 && is_ws(s[0]) {
        lemma_trim_start(s.drop_first());
        assert(forall|j: int| 1 <= j < trim_start_idx(s) ==> s[j] == s.drop_first()[j - 1]);
    }
}

pub proof fn lemma_trim_end(s: Seq<char>)
    ensures
        0 <= trim_end_idx(s) <= s.len(),
        trim_end_idx(s) > 0 ==> !is_ws(s[trim_end_idx(s) - 1]),
        forall|j: int| trim_end_idx(s) <= j < s.len() ==> is_ws(s[j]),
    decreases s.len(),
{
    if s.len() > 0 && is_ws(s.last()) {
        lemma_trim_end(s.drop_last());
        assert(forall|j: int| trim_end_idx(s.drop_last()) <= j < s.len() - 1 ==> is_ws(
            s.drop_last()[j],
        ) && s.drop_last()[j] == s[j]);
    }
}

/// Whether `c` is one of the whitespace characters that trimming removes.
pub fn is_ws_char(c: char) -> (r: bool)
    ensures
        r == is_ws(c),
{
    c == ' ' || c == '\t' || c == '\r' || c == '\n'
}

/// `s` with leading and trailing ASCII whitespace removed.
pub fn trim(s: &str) -> (r: &str)
    ensures
        r@ == trim_spec(s@),
{
    let n = s.unicode_len();
    let mut i: usize = 0;
    while i < n && is_ws_char(s.get_char(i))
        invariant
            n == s@.len(),
            i <= n,
            forall|j: int| 0 <= j < i ==> is_ws(s@[j]),
        decreases n - i,
    {
        i += 1;
    }
    proof {
        lemma_trim_start(s@);
        assert(i as int == trim_start_idx(s@));
    }
    let mut j: usize = n;
    while j > i && is_ws_char(s.get_char(j - 1))
        invariant
            n == s@.len(),
            i <= j <= n,
            i as int == trim_start_idx(s@),
            forall|k: int| j <= k < n ==> is_ws(s@[k]),
        decreases j,
    {
        j -= 1;
    }
    proof {
        lemma_trim_end(s@);
        if i < n {
            assert(!is_ws(s@[j - 1]));
            assert(j as int == trim_end_idx(s@));
        } else {
            assert(trim_spec(s@) =~= s@.subrange(i as int, j as int));
        }
    }
    s.substring_char(i, j)
}

/// Whether `s` contains a carriage return immediately followed by a newline.
pub open spec fn has_crlf(s: Seq<char>) -> bool {
    exists|i: int| 0 <= i && i + 1 < s.len() && #[trigger] s[i] == '\r' && s[i + 1] == '\n'
}

/// Whether `s` contains the two-character Windows line ending.
pub fn contains_crlf(s: &str) -> (r: bool)
    ensures
        r == has_crlf(s@),
{
    let n = s.unicode_len();
    if n < 2 {
        return false;
    }
    let mut i: usize = 0;
    while i + 1 < n
        invariant
            n == s@.len(),
            i + 1 <= n,
            forall|j: int| 0 <= j && j + 1 < i + 1 ==> !(#[trigger] s@[j] == '\r' && s@[j + 1]
                == '\n'),
        decreases n - i,
    {
        if s.get_char(i) == '\r' && s.get_char(i + 1) == '\n' {
            return true;
        }
        i += 1;
    }
    false
}

} // verus!
