//! File names as sequences of characters: stem and extension, case folding, prefixes.

use vstd::prelude::*;

verus! {

/// The code of a character after ASCII lower-casing; other characters keep their code.
pub open spec fn lower_char(c: char) -> u32 {
    if 'A' <= c && c <= 'Z' {
        ((c as u32) + 32) as u32
    } else {
        c as u32
    }
}

/// Two names are equal up to ASCII case.
pub open spec fn eq_fold(a: Seq<char>, b: Seq<char>) -> bool {
    a.len() == b.len() && forall|i: int| 0 <= i < a.len() ==> lower_char(#[trigger] a[i]) == lower_char(b[i])
}

/// The position of the dot that separates stem and extension, if any: the last dot,
/// unless that dot opens the name.
#[verifier::opaque]
pub open spec fn dot_pos(s: Seq<char>) -> Option<int> {
    if exists|i: int| 0 < i < s.len() && s[i] == '.' {
        let i = choose|i: int|
            0 < i < s.len() && s[i] == '.' && forall|j: int| i < j < s.len() ==> s[j] != '.';
        Some(i)
    } else {
        None
    }
}

/// A name without its extension.
pub open spec fn stem_of(s: Seq<char>) -> Seq<char> {
    match dot_pos(s) {
        Some(i) => s.subrange(0, i),
        None => s,
    }
}

/// The extension of a name, after its separating dot.
pub open spec fn ext_of(s: Seq<char>) -> Option<Seq<char>> {
    match dot_pos(s) {
        Some(i) => Some(s.subrange(i + 1, s.len() as int)),
        None => None,
    }
}

pub open spec fn has_prefix(s: Seq<char>, p: Seq<char>) -> bool {
    p.len() <= s.len() && s.subrange(0, p.len() as int) == p
}

/// The characters of a string, in order.
pub fn chars_of(s: &str) -> (r: Vec<char>)
    ensures
        r@ == s@,
{
    let n = s.unicode_len();
    let mut r: Vec<char> = Vec::new();
    let mut i: usize = 0;
    while i < n
        invariant
            n == s@.len(),
            i <= n,
            r@ == s@.subrange(0, i as int),
        decreases n - i,
    {
        r.push(s.get_char(i));
        i = i + 1;
    }
    r
}

pub fn lower(c: char) -> (r: u32)
    ensures
        r == lower_char(c),
{
    if 'A' <= c && c <= 'Z' {
        (c as u32) + 32
    } else {
        c as u32
    }
}

/// Exact equality of two names.
pub fn same(a: &Vec<char>, b: &Vec<char>) -> (r: bool)
    ensures
        r == (a@ == b@),
{
    if a.len() != b.len() {
        return false;
    }
    let mut i: usize = 0;
    while i < a.len()
        invariant
            a@.len() == b@.len(),
            i <= a@.len(),
            forall|j: int| 0 <= j < i ==> a@[j] == b@[j],
        decreases a@.len() - i,
    {
        if a[i] != b[i] {
            return false;
        }
        i = i + 1;
    }
    assert(a@ =~= b@);
    true
}

/// Equality of two names up to ASCII case.
pub fn same_fold(a: &Vec<char>, b: &Vec<char>) -> (r: bool)
    ensures
        r == eq_fold(a@, b@),
{
    if a.len() != b.len() {
        return false;
    }
    let mut i: usize = 0;
    while i < a.len()
        invariant
            a@.len() == b@.len(),
            i <= a@.len(),
            forall|j: int| 0 <= j < i ==> lower_char(a@[j]) == lower_char(b@[j]),
        decreases a@.len() - i,
    {
        if lower(a[i]) != lower(b[i]) {
            return false;
        }
        i = i + 1;
    }
    true
}

pub fn starts_with(s: &Vec<char>, p: &Vec<char>) -> (r: bool)
    ensures
        r == has_prefix(s@, p@),
{
    if p.len() > s.len() {
        return false;
    }
    let mut i: usize = 0;
    while i < p.len()
        invariant
            p@.len() <= s@.len(),
            i <= p@.len(),
            forall|j: int| 0 <= j < i ==> s@[j] == p@[j],
        decreases p@.len() - i,
    {
        if s[i] != p[i] {
            return false;
        }
        i = i + 1;
    }
    assert(s@.subrange(0, p@.len() as int) =~= p@);
    true
}

/// The characters of `s` from `from` up to `to`.
pub fn slice(s: &Vec<char>, from: usize, to: usize) -> (r: Vec<char>)
    requires
        from <= to <= s@.len(),
    ensures
        r@ == s@.subrange(from as int, to as int),
{
    let mut r: Vec<char> = Vec::new();
    let mut i: usize = from;
    while i < to
        invariant
            from <= i <= to <= s@.len(),
            r@ == s@.subrange(from as int, i as int),
        decreases to - i,
    {
        r.push(s[i]);
        i = i + 1;
    }
    r
}

/// `a`, then `b`.
pub fn concat(a: &Vec<char>, b: &Vec<char>) -> (r: Vec<char>)
    ensures
        r@ == a@ + b@,
{
    let mut r: Vec<char> = Vec::new();
    let mut i: usize = 0;
    while i < a.len()
        invariant
            i <= a@.len(),
            r@ == a@.subrange(0, i as int),
        decreases a@.len() - i,
    {
        r.push(a[i]);
        i = i + 1;
    }
    let mut j: usize = 0;
    while j < b.len()
        invariant
            j <= b@.len(),
            r@ == a@ + b@.subrange(0, j as int),
        decreases b@.len() - j,
    {
        r.push(b[j]);
        j = j + 1;
    }
    assert(b@.subrange(0, b@.len() as int) =~= b@);
    r
}

/// Where stem and extension part: `None` when the name has no extension.
pub fn find_dot(s: &Vec<char>) -> (r: Option<usize>)
    ensures
        r matches Some(i) ==> dot_pos(s@) == Some(i as int) && 0 < i < s@.len(),
        r is None ==> dot_pos(s@) is None,
{
    proof {
        reveal(dot_pos);
    }
    let mut i: usize = s.len();
    while i > 1
        invariant
            i <= s@.len(),
            forall|j: int| i <= j < s@.len() ==> s@[j] != '.',
        decreases i,
    {
        if s[i - 1] == '.' {
            proof {
                reveal(dot_pos);
                let k: int = (i - 1) as int;
                assert(0 < k < s@.len() && s@[k] == '.');
                let c = choose|c: int|
                    0 < c < s@.len() && s@[c] == '.' && forall|j: int|
                        c < j < s@.len() ==> s@[j] != '.';
                assert(forall|j: int| k < j < s@.len() ==> s@[j] != '.');
                assert(c == k) by {
                    if c < k {
                    } else if c > k {
                    }
                };
            }
            return Some(i - 1);
        }
        i = i - 1;
    }
    proof {
        reveal(dot_pos);
    }
    None
}

/// The stem and, if present, the extension of a name.
pub fn split_name(s: &Vec<char>) -> (r: (Vec<char>, Option<Vec<char>>))
    ensures
        r.0@ == stem_of(s@),
        r.1 is None <==> ext_of(s@) is None,
        r.1 matches Some(e) ==> ext_of(s@) == Some(e@),
{
    match find_dot(s) {
        Some(i) => {
            let n = s.len();
            (slice(s, 0, i), Some(slice(s, i + 1, n)))
        },
        None => {
            let c = slice(s, 0, s.len());
            assert(c@ =~= s@);
            (c, None)
        },
    }
}

} // verus!
