//! Wildcard pattern matching. `*` stands for zero or more characters.
//!
//! A pattern without `*` demands exact equality. A pattern with exactly one
//! `*` matches a name that starts with the part before the star, ends with
//! the part after it, and is long enough that prefix and suffix do not
//! overlap. A pattern with several stars is split on the stars into
//! fragments; the name is scanned left to right, each fragment being sought
//! at its first occurrence after the end of the previous one. The first
//! fragment must sit at the very start unless the pattern begins with a
//! star, and the last fragment must end exactly at the end of the name
//! unless the pattern ends with a star. This greedy scan, not general glob
//! semantics, is the contract.

use vstd::prelude::*;

use crate::text::str_to_chars;

verus! {

/// Whether character `c` occurs in `s`.
pub open spec fn char_contains(s: Seq<char>, c: char) -> bool {
    exists|i: int| 0 <= i < s.len() && s[i] == c
}

/// The pattern split on `*`, keeping empty fragments, as `str::split` does.
pub open spec fn split_on_star(p: Seq<char>) -> Seq<Seq<char>>
    decreases p.len(),
{
    if p.len() == 0 {
        seq![Seq::<char>::empty()]
    } else {
        let rest = split_on_star(p.drop_first());
        if p[0] == '*' {
            seq![Seq::<char>::empty()].add(rest)
        } else {
            seq![seq![p[0]].add(rest[0])].add(rest.drop_first())
        }
    }
}

/// The position of the first occurrence of `part` in `name` at or after
/// `from`, or -1 when there is none.
pub open spec fn find_from(name: Seq<char>, part: Seq<char>, from: int) -> int
    decreases name.len() - from,
{
    if from < 0 || from + part.len() > name.len() {
        -1
    } else if part.len() == 0 {
        from
    } else if name.subrange(from, from + part.len() as int) == part {
        from
    } else {
        find_from(name, part, from + 1)
    }
}

/// The greedy left-to-right fragment scan: seeks fragment `i` and the ones
/// after it, starting at `pos`. Empty fragments are skipped. Yields the end
/// position of the last fragment found, or nothing when a fragment is
/// missing or the first fragment does not sit at the start.
pub open spec fn scan_parts(name: Seq<char>, parts: Seq<Seq<char>>, i: int, pos: int) -> Option<int>
    decreases parts.len() - i,
{
    if i < 0 || i >= parts.len() {
        Some(pos)
    } else if parts[i].len() == 0 {
        scan_parts(name, parts, i + 1, pos)
    } else {
        let f = find_from(name, parts[i], pos);
        if f < 0 {
            None
        } else if i == 0 && f != 0 {
            None
        } else {
            scan_parts(name, parts, i + 1, f + parts[i].len() as int)
        }
    }
}

/// What it means for `name` to match `pattern`.
pub open spec fn spec_matches(name: Seq<char>, pattern: Seq<char>) -> bool {
    if !char_contains(pattern, '*') {
        name == pattern
    } else {
        let parts = split_on_star(pattern);
        if parts.len() == 2 {
            name.len() >= parts[0].len() + parts[1].len()
                && name.subrange(0, parts[0].len() as int) == parts[0]
                && name.subrange(name.len() - parts[1].len(), name.len() as int) == parts[1]
        } else {
            match scan_parts(name, parts, 0, 0) {
                None => false,
                Some(pos) => pattern.last() == '*' || pos == name.len(),
            }
        }
    }
}

/// Whether `name` matches at least one of `patterns`.
pub open spec fn spec_matches_any(name: Seq<char>, patterns: Seq<Seq<char>>) -> bool {
    exists|i: int| 0 <= i < patterns.len() && spec_matches(name, patterns[i])
}

/// The views of a sequence of strings.
pub open spec fn seq_views(ss: Seq<String>) -> Seq<Seq<char>> {
    ss.map_values(|s: String| s@)
}

/// The views of a sequence of character vectors.
pub open spec fn seq_char_views(ss: Seq<Vec<char>>) -> Seq<Seq<char>> {
    ss.map_values(|v: Vec<char>| v@)
}

proof fn lemma_split_nonempty(p: Seq<char>)
    ensures
        split_on_star(p).len() >= 1,
    decreases p.len(),
{
    if p.len() > 0 {
        lemma_split_nonempty(p.drop_first());
    }
}

proof fn lemma_find_from_bounds(name: Seq<char>, part: Seq<char>, from: int)
    requires
        from >= 0,
    ensures
        find_from(name, part, from) >= 0 ==> from <= find_from(name, part, from)
            && find_from(name, part, from) + part.len() <= name.len(),
    decreases name.len() - from,
{
    if from + part.len() <= name.len() && part.len() > 0
        && name.subrange(from, from + part.len() as int) != part {
        lemma_find_from_bounds(name, part, from + 1);
    }
}

fn chars_contain(s: &Vec<char>, c: char) -> (r: bool)
    ensures
        r == char_contains(s@, c),
{
    let mut i: usize = 0;
    while i < s.len()
        invariant
            i <= s@.len(),
            forall|j: int| 0 <= j < i ==> s@[j] != c,
        decreases s@.len() - i,
    {
        if s[i] == c {
            proof {
                assert(s@[i as int] == c);
            }
            return true;
        }
        i = i + 1;
    }
    false
}

fn chars_eq(a: &Vec<char>, b: &Vec<char>) -> (r: bool)
    ensures
        r == (a@ == b@),
{
    if a.len() != b.len() {
        proof {
            assert(a@ != b@);
        }
        return false;
    }
    let mut i: usize = 0;
    while i < a.len()
        invariant
            i <= a@.len(),
            a@.len() == b@.len(),
            forall|j: int| 0 <= j < i ==> a@[j] == b@[j],
        decreases a@.len() - i,
    {
        if a[i] != b[i] {
            proof {
                assert(a@ != b@);
            }
            return false;
        }
        i = i + 1;
    }
    proof {
        assert(a@ =~= b@);
    }
    true
}

/// Whether `part` occurs in `name` exactly at position `at`.
fn part_at(name: &Vec<char>, part: &Vec<char>, at: usize) -> (r: bool)
    requires
        at + part@.len() <= name@.len(),
    ensures
        r == (name@.subrange(at as int, at + part@.len()) == part@),
{
    let m = part.len();
    let nl = name.len();
    let mut j: usize = 0;
    while j < m
        invariant
            j <= m,
            m == part@.len(),
            nl == name@.len(),
            at + m <= nl,
            forall|k: int| 0 <= k < j ==> name@[at + k] == part@[k],
        decreases m - j,
    {
        if name[at + j] != part[j] {
            proof {
                let sub = name@.subrange(at as int, at + part@.len());
                assert(sub[j as int] == name@[at + j]);
                assert(sub != part@);
            }
            return false;
        }
        j = j + 1;
    }
    proof {
        assert(name@.subrange(at as int, at + part@.len()) =~= part@);
    }
    true
}

fn find_from_exec(name: &Vec<char>, part: &Vec<char>, from: usize) -> (r: Option<usize>)
    ensures
        (match r {
            Some(k) => find_from(name@, part@, from as int) == k,
            None => find_from(name@, part@, from as int) == -1,
        }),
    decreases name@.len() - from,
{
    if part.len() > name.len() || from > name.len() - part.len() {
        return None;
    }
    if part.len() == 0 {
        return Some(from);
    }
    if part_at(name, part, from) {
        return Some(from);
    }
    find_from_exec(name, part, from + 1)
}

/// The pattern's characters from position `i` on, split on `*`.
fn split_star(p: &Vec<char>, i: usize) -> (parts: Vec<Vec<char>>)
    requires
        i <= p@.len(),
    ensures
        seq_char_views(parts@) == split_on_star(p@.subrange(i as int, p@.len() as int)),
        parts@.len() >= 1,
    decreases p@.len() - i,
{
    if i == p.len() {
        let mut parts: Vec<Vec<char>> = Vec::new();
        parts.push(Vec::new());
        proof {
            assert(p@.subrange(i as int, p@.len() as int) =~= Seq::<char>::empty());
            assert(seq_char_views(parts@) =~~= split_on_star(Seq::<char>::empty()));
        }
        parts
    } else {
        let ghost sub = p@.subrange(i as int, p@.len() as int);
        let mut rest = split_star(p, i + 1);
        proof {
            assert(sub.drop_first() =~= p@.subrange(i + 1, p@.len() as int));
            assert(sub[0] == p@[i as int]);
            lemma_split_nonempty(sub.drop_first());
        }
        let c = p[i];
        if c == '*' {
            rest.insert(0, Vec::new());
            proof {
                assert(seq_char_views(rest@) =~~= split_on_star(sub));
            }
            rest
        } else {
            let mut first = rest.remove(0);
            first.insert(0, c);
            rest.insert(0, first);
            proof {
                assert(seq_char_views(rest@) =~~= split_on_star(sub));
            }
            rest
        }
    }
}

fn scan_parts_exec(name: &Vec<char>, parts: &Vec<Vec<char>>, i: usize, pos: usize) -> (r: Option<usize>)
    requires
        i <= parts@.len(),
    ensures
        (match r {
            Some(k) => scan_parts(name@, seq_char_views(parts@), i as int, pos as int)
                == Some(k as int),
            None => scan_parts(name@, seq_char_views(parts@), i as int, pos as int) is None,
        }),
    decreases parts@.len() - i,
{
    if i == parts.len() {
        return Some(pos);
    }
    proof {
        assert(seq_char_views(parts@)[i as int] == parts@[i as int]@);
    }
    if parts[i].len() == 0 {
        return scan_parts_exec(name, parts, i + 1, pos);
    }
    let f = find_from_exec(name, &parts[i], pos);
    match f {
        None => None,
        Some(k) => {
            if i == 0 && k != 0 {
                None
            } else {
                let nl = name.len();
                proof {
                    lemma_find_from_bounds(name@, parts@[i as int]@, pos as int);
                    assert(k as int + parts@[i as int]@.len() <= nl as int);
                }
                scan_parts_exec(name, parts, i + 1, k + parts[i].len())
            }
        },
    }
}

/// Whether `name` matches the wildcard `pattern`.
pub fn matches_pattern(name: &str, pattern: &str) -> (r: bool)
    ensures
        r == spec_matches(name@, pattern@),
{
    let nchars = str_to_chars(name);
    let pchars = str_to_chars(pattern);
    if !chars_contain(&pchars, '*') {
        return chars_eq(&nchars, &pchars);
    }
    let parts = split_star(&pchars, 0);
    proof {
        assert(pchars@.subrange(0, pchars@.len() as int) =~= pattern@);
        assert(seq_char_views(parts@)[0] == parts@[0]@);
    }
    if parts.len() == 2 {
        proof {
            assert(seq_char_views(parts@)[1] == parts@[1]@);
        }
        let p0_len = parts[0].len();
        let p1_len = parts[1].len();
        if p0_len > nchars.len() || p1_len > nchars.len() - p0_len {
            return false;
        }
        if !part_at(&nchars, &parts[0], 0) {
            return false;
        }
        return part_at(&nchars, &parts[1], nchars.len() - p1_len);
    }
    let sc = scan_parts_exec(&nchars, &parts, 0, 0);
    match sc {
        None => false,
        Some(pos) => {
            proof {
                assert(char_contains(pattern@, '*'));
                assert(pattern@.len() > 0);
            }
            if pchars[pchars.len() - 1] == '*' {
                true
            } else {
                pos == nchars.len()
            }
        },
    }
}

/// Whether `name` matches at least one pattern in `patterns`.
pub fn matches_any_pattern(name: &str, patterns: &Vec<String>) -> (r: bool)
    ensures
        r == spec_matches_any(name@, seq_views(patterns@)),
{
    let mut i: usize = 0;
    while i < patterns.len()
        invariant
            i <= patterns@.len(),
            forall|j: int| 0 <= j < i ==> !spec_matches(name@, seq_views(patterns@)[j]),
        decreases patterns@.len() - i,
    {
        if matches_pattern(name, patterns[i].as_str()) {
            proof {
                assert(seq_views(patterns@)[i as int] == patterns@[i as int]@);
            }
            return true;
        }
        i = i + 1;
    }
    false
}

} // verus!
