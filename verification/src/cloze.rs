//! Cloze-deletion markers `{{cN::...}}` and the set of numbers they carry.

use vstd::prelude::*;
use vstd::string::StrSliceExecFns;

use crate::scan::{eq_at, find_at, find_at_exec, lemma_find_at, matches_at};

use std::collections::HashSet;

verus! {

broadcast use vstd::std_specs::hash::group_hash_axioms;

pub open spec fn is_digit(c: char) -> bool {
    c == '0' || c == '1' || c == '2' || c == '3' || c == '4' || c == '5' || c == '6' || c == '7'
        || c == '8' || c == '9'
}

pub open spec fn digit_val(c: char) -> int {
    if c == '0' {
        0
    } else if c == '1' {
        1
    } else if c == '2' {
        2
    } else if c == '3' {
        3
    } else if c == '4' {
        4
    } else if c == '5' {
        5
    } else if c == '6' {
        6
    } else if c == '7' {
        7
    } else if c == '8' {
        8
    } else {
        9
    }
}

fn is_digit_exec(c: char) -> (r: bool)
    ensures
        r == is_digit(c),
{
    c == '0' || c == '1' || c == '2' || c == '3' || c == '4' || c == '5' || c == '6' || c == '7'
        || c == '8' || c == '9'
}

fn digit_val_exec(c: char) -> (r: u32)
    requires
        is_digit(c),
    ensures
        r as int == digit_val(c),
        r < 10,
{
    match c {
        '0' => 0,
        '1' => 1,
        '2' => 2,
        '3' => 3,
        '4' => 4,
        '5' => 5,
        '6' => 6,
        '7' => 7,
        '8' => 8,
        _ => 9,
    }
}

/// Position of the first non-digit at or after `from`, or `s.len()`.
pub open spec fn digit_run_end(s: Seq<char>, from: int) -> int
    decreases s.len() - from,
{
    if from < 0 || from >= s.len() {
        s.len() as int
    } else if !is_digit(s[from]) {
        from
    } else {
        digit_run_end(s, from + 1)
    }
}

pub proof fn lemma_digit_run_end(s: Seq<char>, from: int)
    requires
        0 <= from <= s.len(),
    ensures
        from <= digit_run_end(s, from) <= s.len(),
        digit_run_end(s, from) < s.len() ==> !is_digit(s[digit_run_end(s, from)]),
        forall|k: int| from <= k < digit_run_end(s, from) ==> is_digit(s[k]),
    decreases s.len() - from,
{
    if from < s.len() && is_digit(s[from]) {
        lemma_digit_run_end(s, from + 1);
    }
}

fn digit_run_end_exec(s: &str, from: usize, n: usize) -> (r: usize)
    requires
        n == s@.len(),
        from <= n,
    ensures
        r as int == digit_run_end(s@, from as int),
{
    let mut i: usize = from;
    while i < n
        invariant
            n == s@.len(),
            from <= i <= n,
            digit_run_end(s@, from as int) == digit_run_end(s@, i as int),
        decreases n - i,
    {
        if !is_digit_exec(s.get_char(i)) {
            proof {
                assert(digit_run_end(s@, i as int) == i as int);
            }
            return i;
        }
        i = i + 1;
    }
    proof {
        assert(digit_run_end(s@, n as int) == n as int);
    }
    n
}

/// The value of a digit string, most significant digit first.
pub open spec fn digits_val(s: Seq<char>) -> int
    decreases s.len(),
{
    if s.len() == 0 {
        0
    } else {
        digits_val(s.drop_last()) * 10 + digit_val(s.last())
    }
}

pub proof fn lemma_digits_val_nonneg(s: Seq<char>)
    ensures
        digits_val(s) >= 0,
    decreases s.len(),
{
    if s.len() > 0 {
        lemma_digits_val_nonneg(s.drop_last());
    }
}

/// The cloze marker starting at `i`: `Some((ds, de, j))` gives the digit
/// span `[ds, de)` of its number and the match end `j`. The marker is
/// `{{c`, at least one digit, `::`, at least one content character, and
/// the earliest `}}` after that.
pub open spec fn cloze_match(s: Seq<char>, i: int) -> Option<(int, int, int)> {
    if matches_at(s, i, "{{c"@) {
        let ds = i + 3;
        let de = digit_run_end(s, ds);
        if de > ds && matches_at(s, de, "::"@) {
            match find_at(s, de + 3, "}}"@) {
                Some(r) => Some((ds, de, r + 2)),
                None => None,
            }
        } else {
            None
        }
    } else {
        None
    }
}

pub proof fn lemma_cloze_match_bounds(s: Seq<char>, i: int)
    ensures
        match cloze_match(s, i) {
            Some((ds, de, j)) => 0 <= i < ds < de < j <= s.len(),
            None => true,
        },
{
    reveal_strlit("{{c");
    reveal_strlit("::");
    reveal_strlit("}}");
    if matches_at(s, i, "{{c"@) {
        lemma_digit_run_end(s, i + 3);
        let de = digit_run_end(s, i + 3);
        if de > i + 3 && matches_at(s, de, "::"@) {
            lemma_find_at(s, de + 3, "}}"@);
        }
    }
}

fn cloze_match_exec(s: &str, i: usize, n: usize) -> (r: Option<(usize, usize, usize)>)
    requires
        n == s@.len(),
        i < n,
    ensures
        match r {
            Some((ds, de, j)) => cloze_match(s@, i as int) == Some(
                (ds as int, de as int, j as int),
            ) && i < ds < de < j <= n,
            None => cloze_match(s@, i as int) is None,
        },
{
    proof {
        reveal_strlit("{{c");
        reveal_strlit("::");
        reveal_strlit("}}");
    }
    if !(n - i >= 3 && eq_at(s, i, "{{c")) {
        return None;
    }
    let ds = i + 3;
    let de = digit_run_end_exec(s, ds, n);
    proof {
        lemma_digit_run_end(s@, ds as int);
    }
    if !(de > ds && n - de >= 2 && eq_at(s, de, "::")) {
        return None;
    }
    if n - de < 3 {
        proof {
            assert(find_at(s@, de + 3, "}}"@) is None);
        }
        return None;
    }
    match find_at_exec(s, de + 3, "}}") {
        Some(r) => {
            proof {
                lemma_find_at(s@, de + 3, "}}"@);
            }
            Some((ds, de, r + 2))
        },
        None => None,
    }
}

/// The set of in-range cloze numbers in `s[i..]`: the value of each
/// matched marker's digit string, kept only when it fits 16 bits.
pub open spec fn cloze_set_from(s: Seq<char>, i: int) -> Set<u16>
    decreases s.len() - i,
    via cloze_set_from_dec
{
    if i < 0 || i >= s.len() {
        Set::empty()
    } else {
        match cloze_match(s, i) {
            Some((ds, de, j)) => {
                let v = digits_val(s.subrange(ds, de));
                if v <= 65535 {
                    cloze_set_from(s, j).insert(v as u16)
                } else {
                    cloze_set_from(s, j)
                }
            },
            None => cloze_set_from(s, i + 1),
        }
    }
}

#[via_fn]
proof fn cloze_set_from_dec(s: Seq<char>, i: int) {
    lemma_cloze_match_bounds(s, i);
}

/// What `cloze_numbers_in_string` returns.
pub open spec fn cloze_numbers_spec(s: Seq<char>) -> Set<u16> {
    cloze_set_from(s, 0)
}

/// Parses the digit run `[ds, de)` as a 16-bit number; `None` when the
/// value is out of range.
fn parse_u16(s: &str, ds: usize, de: usize) -> (r: Option<u16>)
    requires
        ds <= de <= s@.len(),
        forall|k: int| ds <= k < de ==> is_digit(s@[k]),
    ensures
        match r {
            Some(v) => digits_val(s@.subrange(ds as int, de as int)) == v as int,
            None => digits_val(s@.subrange(ds as int, de as int)) > 65535,
        },
{
    let ghost whole = s@.subrange(ds as int, de as int);
    let mut acc: u32 = 0;
    let mut big: bool = false;
    let mut j: usize = ds;
    proof {
        assert(s@.subrange(ds as int, ds as int) =~= Seq::<char>::empty());
    }
    while j < de
        invariant
            ds <= j <= de <= s@.len(),
            forall|k: int| ds <= k < de ==> is_digit(s@[k]),
            whole == s@.subrange(ds as int, de as int),
            !big ==> acc as int == digits_val(s@.subrange(ds as int, j as int)) && acc <= 65535,
            big ==> digits_val(s@.subrange(ds as int, j as int)) > 65535,
        decreases de - j,
    {
        let c = s.get_char(j);
        let d = digit_val_exec(c);
        let ghost prefix = s@.subrange(ds as int, j as int);
        let ghost next_prefix = s@.subrange(ds as int, j + 1);
        proof {
            assert(next_prefix.drop_last() =~= prefix);
            assert(next_prefix.last() == s@[j as int]);
            assert(digits_val(next_prefix) == digits_val(prefix) * 10 + digit_val(s@[j as int]));
            lemma_digits_val_nonneg(prefix);
        }
        if big {
            proof {
                assert(digits_val(next_prefix) > 65535);
            }
        } else {
            let wide: u32 = acc * 10 + d;
            if wide > 65535 {
                big = true;
            } else {
                acc = wide;
            }
        }
        j = j + 1;
    }
    proof {
        assert(s@.subrange(ds as int, de as int) =~= whole);
    }
    if big {
        None
    } else {
        Some(acc as u16)
    }
}

/// Collects the numbers of every `{{cN::...}}` marker in `html`. A marker
/// whose number does not fit 16 bits contributes nothing; duplicates
/// collapse, the result being a set.
pub fn cloze_numbers_in_string(html: &str) -> (r: HashSet<u16>)
    ensures
        r@ == cloze_numbers_spec(html@),
{
    let n = html.unicode_len();
    let mut found: HashSet<u16> = HashSet::with_capacity(4);
    let mut i: usize = 0;
    while i < n
        invariant
            n == html@.len(),
            i <= n,
            cloze_set_from(html@, 0) == found@.union(cloze_set_from(html@, i as int)),
        decreases n - i,
    {
        let ghost pre = found@;
        match cloze_match_exec(html, i, n) {
            Some((ds, de, j)) => {
                proof {
                    lemma_cloze_match_bounds(html@, i as int);
                    lemma_digit_run_end(html@, i + 3);
                }
                match parse_u16(html, ds, de) {
                    Some(v) => {
                        found.insert(v);
                        proof {
                            assert(found@ == pre.insert(v));
                            assert(cloze_set_from(html@, i as int) == cloze_set_from(
                                html@,
                                j as int,
                            ).insert(v));
                            assert(pre.union(cloze_set_from(html@, j as int).insert(v))
                                =~= pre.insert(v).union(cloze_set_from(html@, j as int)));
                        }
                    },
                    None => {
                        proof {
                            assert(cloze_set_from(html@, i as int) == cloze_set_from(
                                html@,
                                j as int,
                            ));
                        }
                    },
                }
                i = j;
            },
            None => {
                proof {
                    assert(cloze_set_from(html@, i as int) == cloze_set_from(html@, i + 1));
                }
                i = i + 1;
            },
        }
    }
    proof {
        assert(cloze_set_from(html@, n as int) =~= Set::<u16>::empty());
        assert(found@.union(Set::<u16>::empty()) =~= found@);
    }
    found
}

} // verus!
