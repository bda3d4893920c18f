//! Character-level text tools: the split rule of `str::split`, stated as a
//! spec function, and verified loops that compute it.

use vstd::prelude::*;

verus! {

broadcast use vstd::string::group_string_axioms;

/// `sep` occurs in `s` starting at index `i`.
pub open spec fn occurs_at(s: Seq<char>, sep: Seq<char>, i: int) -> bool {
    0 <= i && i + sep.len() <= s.len() && s.subrange(i, i + sep.len()) == sep
}

/// The first index at or after `from` at which the non-empty `sep` occurs in `s`.
pub open spec fn find_from(s: Seq<char>, sep: Seq<char>, from: int) -> Option<int>
    decreases s.len() - from,
{
    if from < 0 || sep.len() == 0 || from + sep.len() > s.len() {
        None
    } else if occurs_at(s, sep, from) {
        Some(from)
    } else {
        find_from(s, sep, from + 1)
    }
}

/// A found index is an occurrence, lies at or after `from`, and no earlier one exists.
pub proof fn lemma_find_from(s: Seq<char>, sep: Seq<char>, from: int)
    requires
        0 <= from,
        sep.len() > 0,
    ensures
        find_from(s, sep, from) matches Some(i) ==> {
            &&& from <= i
            &&& occurs_at(s, sep, i)
            &&& forall|j: int| from <= j < i ==> !occurs_at(s, sep, j)
        },
        find_from(s, sep, from) is None ==> forall|j: int|
            from <= j ==> !occurs_at(s, sep, j),
    decreases s.len() - from,
{
    if from + sep.len() > s.len() {
    } else if occurs_at(s, sep, from) {
    } else {
        lemma_find_from(s, sep, from + 1);
    }
}

/// The pieces that `str::split` yields for a non-empty separator: the text
/// before the first occurrence of `sep`, then the pieces of what follows it.
pub open spec fn split_on(s: Seq<char>, sep: Seq<char>) -> Seq<Seq<char>>
    decreases s.len(),
{
    if sep.len() == 0 {
        seq![s]
    } else {
        match find_from(s, sep, 0) {
            Some(i) => {
                proof {
                    lemma_find_from(s, sep, 0);
                }
                seq![s.take(i)] + split_on(s.skip(i + sep.len()), sep)
            },
            None => seq![s],
        }
    }
}

/// `str::split` yields at least one piece.
pub proof fn lemma_split_nonempty(s: Seq<char>, sep: Seq<char>)
    ensures
        split_on(s, sep).len() >= 1,
{
    if sep.len() > 0 {
        if let Some(i) = find_from(s, sep, 0) {
            lemma_find_from(s, sep, 0);
        }
    }
}

/// `sep` occurs nowhere in `s`.
pub open spec fn free_of(s: Seq<char>, sep: Seq<char>) -> bool {
    forall|i: int| !#[trigger] occurs_at(s, sep, i)
}

/// `t` occurs somewhere in `s`.
pub open spec fn has_text(s: Seq<char>, t: Seq<char>) -> bool {
    exists|i: int| occurs_at(s, t, i)
}

/// The search reaches an occurrence when none lies between its start and it.
pub proof fn lemma_find_reaches(s: Seq<char>, sep: Seq<char>, from: int, p: int)
    requires
        0 <= from <= p,
        sep.len() > 0,
        occurs_at(s, sep, p),
        forall|j: int| from <= j < p ==> !#[trigger] occurs_at(s, sep, j),
    ensures
        find_from(s, sep, from) == Some(p),
    decreases p - from,
{
    if from < p {
        lemma_find_reaches(s, sep, from + 1, p);
    }
}

/// Text without the separator is a single piece.
pub proof fn lemma_split_whole(s: Seq<char>, sep: Seq<char>)
    requires
        sep.len() > 0,
        free_of(s, sep),
    ensures
        split_on(s, sep) == seq![s],
{
    lemma_find_from(s, sep, 0);
}

/// Text that starts with `a` and a separator, where no occurrence of the
/// separator starts inside `a`, splits into `a` and the pieces of the rest.
pub proof fn lemma_split_first(a: Seq<char>, sep: Seq<char>, rest: Seq<char>)
    requires
        sep.len() > 0,
        forall|j: int| 0 <= j < a.len() ==> !#[trigger] occurs_at(a + sep, sep, j),
    ensures
        split_on(a + sep + rest, sep) == seq![a] + split_on(rest, sep),
{
    let t = a + sep + rest;
    let n = a.len() as int;
    let l = sep.len() as int;
    assert(t.subrange(n, n + l) =~= sep);
    assert forall|j: int| 0 <= j < n implies !#[trigger] occurs_at(t, sep, j) by {
        if 0 <= j && j + l <= t.len() {
            assert(t.subrange(j, j + l) =~= (a + sep).subrange(j, j + l));
            assert(!occurs_at(a + sep, sep, j));
        }
    }
    lemma_find_reaches(t, sep, 0, n);
    assert(t.take(n) =~= a);
    assert(t.skip(n + l) =~= rest);
}

/// Appending a one-character separator to text free of it creates no
/// occurrence that starts inside the text.
pub proof fn lemma_single_char_boundary(a: Seq<char>, sep: Seq<char>)
    requires
        sep.len() == 1,
        free_of(a, sep),
    ensures
        forall|j: int| 0 <= j < a.len() ==> !#[trigger] occurs_at(a + sep, sep, j),
{
    assert forall|j: int| 0 <= j < a.len() implies !#[trigger] occurs_at(a + sep, sep, j) by {
        assert((a + sep).subrange(j, j + 1) =~= a.subrange(j, j + 1));
        assert(!occurs_at(a, sep, j));
    }
}

/// Appending a two-character separator with distinct characters to text
/// free of it creates no occurrence that starts inside the text.
pub proof fn lemma_two_char_boundary(a: Seq<char>, sep: Seq<char>)
    requires
        sep.len() == 2,
        sep[0] != sep[1],
        free_of(a, sep),
    ensures
        forall|j: int| 0 <= j < a.len() ==> !#[trigger] occurs_at(a + sep, sep, j),
{
    assert forall|j: int| 0 <= j < a.len() implies !#[trigger] occurs_at(a + sep, sep, j) by {
        if j + 2 <= a.len() {
            assert((a + sep).subrange(j, j + 2) =~= a.subrange(j, j + 2));
            assert(!occurs_at(a, sep, j));
        } else {
            assert((a + sep).subrange(j, j + 2)[1] == sep[0]);
        }
    }
}

/// Appends one character to a string.
/// Specifies `String::push`, which per its documentation appends the given
/// `char` to the end of the string.
#[verifier::external_body]
fn push_char(s: &mut String, c: char)
    ensures
        final(s)@ == old(s)@.push(c),
{
    s.push(c);
}

/// The characters of a string slice, in order.
pub fn chars_of(s: &str) -> (v: Vec<char>)
    ensures
        v@ == s@,
{
    let mut v: Vec<char> = Vec::new();
    for c in it: s.chars()
        invariant
            v@ == it.seq().take(it.index()),
            it.seq() == s@,
    {
        v.push(c);
        assert(it.seq().take(it.index() + 1) =~= it.seq().take(it.index()).push(c));
    }
    v
}

/// Searching a suffix of `s` finds the same occurrences, shifted by the suffix's start.
pub proof fn lemma_find_shift(s: Seq<char>, sep: Seq<char>, p: int, k: int)
    requires
        0 <= p <= s.len(),
        0 <= k,
        sep.len() > 0,
    ensures
        find_from(s.skip(p), sep, k) == match find_from(s, sep, p + k) {
            Some(i) => Some(i - p),
            None => None::<int>,
        },
    decreases s.len() - p - k,
{
    if k + sep.len() > s.len() - p {
    } else {
        assert(s.skip(p).subrange(k, k + sep.len()) =~= s.subrange(p + k, p + k + sep.len()));
        if !occurs_at(s, sep, p + k) {
            lemma_find_shift(s, sep, p, k + 1);
        }
    }
}

/// Whether `sep` occurs in `text` at index `i`.
fn occurs_at_exec(text: &Vec<char>, i: usize, sep: &Vec<char>) -> (b: bool)
    requires
        i + sep.len() <= text.len(),
    ensures
        b == occurs_at(text@, sep@, i as int),
{
    let mut k: usize = 0;
    while k < sep.len()
        invariant
            k <= sep.len(),
            i + sep.len() <= text.len(),
            forall|m: int| 0 <= m < k ==> text@[i + m] == sep@[m],
        decreases sep.len() - k,
    {
        if text[i + k] != sep[k] {
            assert(text@.subrange(i as int, i + sep.len())[k as int] != sep@[k as int]);
            return false;
        }
        k += 1;
    }
    assert(text@.subrange(i as int, i + sep.len()) =~= sep@);
    true
}

/// The first index at or after `from` at which `sep` occurs in `text`.
fn find_from_exec(text: &Vec<char>, from: usize, sep: &Vec<char>) -> (r: Option<usize>)
    requires
        from <= text.len(),
        sep.len() > 0,
    ensures
        match r {
            Some(i) => find_from(text@, sep@, from as int) == Some(i as int),
            None => find_from(text@, sep@, from as int) is None,
        },
{
    let n = text.len();
    let mut i = from;
    while i <= n && sep.len() <= n - i
        invariant
            from <= i <= n + 1,
            n == text.len(),
            sep.len() > 0,
            find_from(text@, sep@, from as int) == find_from(text@, sep@, i as int),
        decreases n + 1 - i,
    {
        if occurs_at_exec(text, i, sep) {
            return Some(i);
        }
        i += 1;
    }
    None
}

/// The characters of `text` from `lo` up to, not including, `hi`.
pub fn copy_range(text: &Vec<char>, lo: usize, hi: usize) -> (v: Vec<char>)
    requires
        lo <= hi <= text.len(),
    ensures
        v@ == text@.subrange(lo as int, hi as int),
{
    let mut v: Vec<char> = Vec::new();
    let mut i = lo;
    while i < hi
        invariant
            lo <= i <= hi <= text.len(),
            v@ == text@.subrange(lo as int, i as int),
        decreases hi - i,
    {
        v.push(text[i]);
        assert(text@.subrange(lo as int, i + 1) =~= text@.subrange(lo as int, i as int).push(
            text@[i as int],
        ));
        i += 1;
    }
    v
}

/// The character sequences held by a list of character vectors.
pub open spec fn rows_of(parts: Seq<Vec<char>>) -> Seq<Seq<char>> {
    parts.map_values(|p: Vec<char>| p@)
}

/// The pieces of `text` between occurrences of the non-empty `sep`, as `str::split` yields them.
pub fn split_chars(text: &Vec<char>, sep: &Vec<char>) -> (parts: Vec<Vec<char>>)
    requires
        sep.len() > 0,
    ensures
        rows_of(parts@) == split_on(text@, sep@),
{
    let n = text.len();
    let mut parts: Vec<Vec<char>> = Vec::new();
    let mut pos: usize = 0;
    assert(text@.skip(0) =~= text@);
    loop
        invariant
            pos <= n,
            n == text.len(),
            sep.len() > 0,
            split_on(text@, sep@) == rows_of(parts@) + split_on(text@.skip(pos as int), sep@),
        decreases n - pos,
    {
        let ghost rest = text@.skip(pos as int);
        let ghost before = rows_of(parts@);
        let found = find_from_exec(text, pos, sep);
        proof {
            lemma_find_shift(text@, sep@, pos as int, 0);
            lemma_find_from(text@, sep@, pos as int);
        }
        match found {
            Some(j) => {
                let piece = copy_range(text, pos, j);
                proof {
                    assert(rest.take(j - pos) =~= text@.subrange(pos as int, j as int));
                    assert(rest.skip(j - pos + sep.len()) =~= text@.skip(j + sep.len()));
                }
                parts.push(piece);
                assert(rows_of(parts@) =~= before.push(piece@));
                assert(seq![rest.take(j - pos)] + split_on(rest.skip(j - pos + sep.len()), sep@)
                    == split_on(rest, sep@));
                assert(before + split_on(rest, sep@) =~= before.push(piece@) + split_on(
                    text@.skip(j + sep.len()),
                    sep@,
                ));
                pos = j + sep.len();
            },
            None => {
                let piece = copy_range(text, pos, n);
                assert(piece@ =~= rest);
                parts.push(piece);
                assert(rows_of(parts@) =~= before.push(piece@));
                assert(before + split_on(rest, sep@) =~= before.push(piece@));
                return parts;
            },
        }
    }
}

/// A string holding exactly the given characters.
pub fn string_of(chars: &Vec<char>) -> (s: String)
    ensures
        s@ == chars@,
{
    let mut s = String::new();
    let mut i: usize = 0;
    while i < chars.len()
        invariant
            i <= chars.len(),
            s@ == chars@.take(i as int),
        decreases chars.len() - i,
    {
        push_char(&mut s, chars[i]);
        assert(chars@.take(i + 1) =~= chars@.take(i as int).push(chars@[i as int]));
        i += 1;
    }
    assert(chars@.take(chars.len() as int) =~= chars@);
    s
}

} // verus!
