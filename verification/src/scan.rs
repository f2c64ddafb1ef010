//! Character-level scanning primitives shared by the tag matchers: substring
//! search, case-insensitive matching and splitting.

use vstd::prelude::*;
use vstd::string::StrSliceExecFns;

verus! {

/// ASCII lower-casing of one character; anything but `'A'..='Z'` is unchanged.
pub open spec fn lower_char(c: char) -> char {
    if c == 'A' {
        'a'
    } else if c == 'B' {
        'b'
    } else if c == 'C' {
        'c'
    } else if c == 'D' {
        'd'
    } else if c == 'E' {
        'e'
    } else if c == 'F' {
        'f'
    } else if c == 'G' {
        'g'
    } else if c == 'H' {
        'h'
    } else if c == 'I' {
        'i'
    } else if c == 'J' {
        'j'
    } else if c == 'K' {
        'k'
    } else if c == 'L' {
        'l'
    } else if c == 'M' {
        'm'
    } else if c == 'N' {
        'n'
    } else if c == 'O' {
        'o'
    } else if c == 'P' {
        'p'
    } else if c == 'Q' {
        'q'
    } else if c == 'R' {
        'r'
    } else if c == 'S' {
        's'
    } else if c == 'T' {
        't'
    } else if c == 'U' {
        'u'
    } else if c == 'V' {
        'v'
    } else if c == 'W' {
        'w'
    } else if c == 'X' {
        'x'
    } else if c == 'Y' {
        'y'
    } else if c == 'Z' {
        'z'
    } else {
        c
    }
}

/// Executable twin of `lower_char`.
pub fn lower_char_exec(c: char) -> (r: char)
    ensures
        r == lower_char(c),
{
    match c {
        'A' => 'a',
        'B' => 'b',
        'C' => 'c',
        'D' => 'd',
        'E' => 'e',
        'F' => 'f',
        'G' => 'g',
        'H' => 'h',
        'I' => 'i',
        'J' => 'j',
        'K' => 'k',
        'L' => 'l',
        'M' => 'm',
        'N' => 'n',
        'O' => 'o',
        'P' => 'p',
        'Q' => 'q',
        'R' => 'r',
        'S' => 's',
        'T' => 't',
        'U' => 'u',
        'V' => 'v',
        'W' => 'w',
        'X' => 'x',
        'Y' => 'y',
        'Z' => 'z',
        _ => c,
    }
}

/// `pat` occurs in `s` starting at position `i`, compared exactly.
pub open spec fn matches_at(s: Seq<char>, i: int, pat: Seq<char>) -> bool {
    &&& 0 <= i
    &&& i + pat.len() <= s.len()
    &&& forall|j: int| 0 <= j < pat.len() ==> s[i + j] == pat[j]
}

/// `pat` (given in lower case) occurs in `s` starting at position `i`,
/// compared ASCII-case-insensitively.
pub open spec fn matches_ci_at(s: Seq<char>, i: int, pat: Seq<char>) -> bool {
    &&& 0 <= i
    &&& i + pat.len() <= s.len()
    &&& forall|j: int| 0 <= j < pat.len() ==> lower_char(s[i + j]) == pat[j]
}

/// Position of the first occurrence of `c` at or after `from`, or `s.len()`
/// if there is none.
pub open spec fn char_index(s: Seq<char>, from: int, c: char) -> int
    decreases s.len() - from,
{
    if from < 0 || from >= s.len() {
        s.len() as int
    } else if s[from] == c {
        from
    } else {
        char_index(s, from + 1, c)
    }
}

pub proof fn lemma_char_index(s: Seq<char>, from: int, c: char)
    requires
        0 <= from <= s.len(),
    ensures
        from <= char_index(s, from, c) <= s.len(),
        char_index(s, from, c) < s.len() ==> s[char_index(s, from, c)] == c,
        forall|k: int| from <= k < char_index(s, from, c) ==> s[k] != c,
    decreases s.len() - from,
{
    if from < s.len() && s[from] != c {
        lemma_char_index(s, from + 1, c);
    }
}

/// Position of the first exact occurrence of `pat` at or after `from`.
pub open spec fn find_at(s: Seq<char>, from: int, pat: Seq<char>) -> Option<int>
    decreases s.len() - from,
{
    if from < 0 || from + pat.len() > s.len() {
        None
    } else if matches_at(s, from, pat) {
        Some(from)
    } else {
        find_at(s, from + 1, pat)
    }
}

pub proof fn lemma_find_at(s: Seq<char>, from: int, pat: Seq<char>)
    requires
        0 <= from,
    ensures
        match find_at(s, from, pat) {
            Some(r) => from <= r && r + pat.len() <= s.len() && matches_at(s, r, pat) && forall|
                k: int,
            |
                from <= k < r ==> !matches_at(s, k, pat),
            None => forall|k: int| from <= k ==> !matches_at(s, k, pat),
        },
    decreases s.len() - from,
{
    if from + pat.len() <= s.len() && !matches_at(s, from, pat) {
        lemma_find_at(s, from + 1, pat);
    }
}

/// Position of the first case-insensitive occurrence of `pat` at or after
/// `from`; `pat` is given in lower case.
pub open spec fn find_ci_at(s: Seq<char>, from: int, pat: Seq<char>) -> Option<int>
    decreases s.len() - from,
{
    if from < 0 || from + pat.len() > s.len() {
        None
    } else if matches_ci_at(s, from, pat) {
        Some(from)
    } else {
        find_ci_at(s, from + 1, pat)
    }
}

pub proof fn lemma_find_ci_at(s: Seq<char>, from: int, pat: Seq<char>)
    requires
        0 <= from,
    ensures
        match find_ci_at(s, from, pat) {
            Some(r) => from <= r && r + pat.len() <= s.len() && matches_ci_at(s, r, pat),
            None => forall|k: int| from <= k ==> !matches_ci_at(s, k, pat),
        },
    decreases s.len() - from,
{
    if from + pat.len() <= s.len() && !matches_ci_at(s, from, pat) {
        lemma_find_ci_at(s, from + 1, pat);
    }
}

/// Exact-comparison twin of `matches_at`.
pub fn eq_at(s: &str, i: usize, pat: &str) -> (r: bool)
    requires
        s@.len() <= usize::MAX,
        i + pat@.len() <= s@.len(),
    ensures
        r == matches_at(s@, i as int, pat@),
{
    let m = pat.unicode_len();
    let mut j: usize = 0;
    while j < m
        invariant
            s@.len() <= usize::MAX,
            m == pat@.len(),
            i + m <= s@.len(),
            j <= m,
            forall|k: int| 0 <= k < j ==> s@[i + k] == pat@[k],
        decreases m - j,
    {
        if s.get_char(i + j) != pat.get_char(j) {
            proof {
                assert(s@[i + j as int] != pat@[j as int]);
            }
            return false;
        }
        j = j + 1;
    }
    true
}

/// Case-insensitive twin of `matches_ci_at`; `pat` is given in lower case.
pub fn ci_at(s: &str, i: usize, pat: &str) -> (r: bool)
    requires
        s@.len() <= usize::MAX,
        i + pat@.len() <= s@.len(),
    ensures
        r == matches_ci_at(s@, i as int, pat@),
{
    let m = pat.unicode_len();
    let mut j: usize = 0;
    while j < m
        invariant
            s@.len() <= usize::MAX,
            m == pat@.len(),
            i + m <= s@.len(),
            j <= m,
            forall|k: int| 0 <= k < j ==> lower_char(s@[i + k]) == pat@[k],
        decreases m - j,
    {
        if lower_char_exec(s.get_char(i + j)) != pat.get_char(j) {
            proof {
                assert(lower_char(s@[i + j as int]) != pat@[j as int]);
            }
            return false;
        }
        j = j + 1;
    }
    true
}

/// Executable twin of `char_index`.
pub fn char_index_exec(s: &str, from: usize, c: char) -> (r: usize)
    requires
        from <= s@.len(),
    ensures
        r as int == char_index(s@, from as int, c),
{
    let n = s.unicode_len();
    let mut i: usize = from;
    while i < n
        invariant
            n == s@.len(),
            from <= i <= n,
            char_index(s@, from as int, c) == char_index(s@, i as int, c),
        decreases n - i,
    {
        if s.get_char(i) == c {
            proof {
                assert(char_index(s@, i as int, c) == i as int);
            }
            return i;
        }
        i = i + 1;
    }
    proof {
        assert(char_index(s@, n as int, c) == n as int);
    }
    n
}

/// Executable twin of `find_at`.
pub fn find_at_exec(s: &str, from: usize, pat: &str) -> (r: Option<usize>)
    ensures
        match r {
            Some(u) => find_at(s@, from as int, pat@) == Some(u as int),
            None => find_at(s@, from as int, pat@) is None,
        },
{
    let n = s.unicode_len();
    let m = pat.unicode_len();
    if m > n || from > n - m {
        return None;
    }
    let mut i: usize = from;
    while i <= n - m
        invariant
            n == s@.len(),
            m == pat@.len(),
            m <= n,
            from <= i <= n - m + 1,
            find_at(s@, from as int, pat@) == find_at(s@, i as int, pat@),
        decreases n - i,
    {
        if eq_at(s, i, pat) {
            proof {
                assert(find_at(s@, i as int, pat@) == Some(i as int));
            }
            return Some(i);
        }
        i = i + 1;
    }
    proof {
        assert(find_at(s@, i as int, pat@) is None);
    }
    None
}

/// Executable twin of `find_ci_at`; `pat` is given in lower case.
pub fn find_ci_at_exec(s: &str, from: usize, pat: &str) -> (r: Option<usize>)
    ensures
        match r {
            Some(u) => find_ci_at(s@, from as int, pat@) == Some(u as int),
            None => find_ci_at(s@, from as int, pat@) is None,
        },
{
    let n = s.unicode_len();
    let m = pat.unicode_len();
    if m > n || from > n - m {
        return None;
    }
    let mut i: usize = from;
    while i <= n - m
        invariant
            n == s@.len(),
            m == pat@.len(),
            m <= n,
            from <= i <= n - m + 1,
            find_ci_at(s@, from as int, pat@) == find_ci_at(s@, i as int, pat@),
        decreases n - i,
    {
        if ci_at(s, i, pat) {
            proof {
                assert(find_ci_at(s@, i as int, pat@) == Some(i as int));
            }
            return Some(i);
        }
        i = i + 1;
    }
    proof {
        assert(find_ci_at(s@, i as int, pat@) is None);
    }
    None
}

} // verus!
