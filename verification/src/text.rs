//! Small operations on text: finding a character and splitting at it.
use vstd::prelude::*;
use vstd::string::*;

verus! {

/// `k` is the position of the first `c` in `s`.
pub open spec fn is_first_index(s: Seq<char>, c: char, k: int) -> bool {
    &&& 0 <= k < s.len()
    &&& s[k] == c
    &&& forall|j: int| 0 <= j < k ==> s[j] != c
}

/// The text before and after the first `c` in `s`, or `None` when `s` holds no `c`.
pub open spec fn split_once_spec(s: Seq<char>, c: char) -> Option<(Seq<char>, Seq<char>)> {
    if s.contains(c) {
        let k = choose|k: int| is_first_index(s, c, k);
        Some((s.take(k), s.skip(k + 1)))
    } else {
        None
    }
}

pub proof fn lemma_first_index_unique(s: Seq<char>, c: char, k1: int, k2: int)
    requires
        is_first_index(s, c, k1),
        is_first_index(s, c, k2),
    ensures
        k1 == k2,
{
}

pub proof fn lemma_split_at_first(s: Seq<char>, c: char, k: int)
    requires
        is_first_index(s, c, k),
    ensures
        split_once_spec(s, c) == Some((s.take(k), s.skip(k + 1))),
{
    assert(s.contains(c));
    let k2 = choose|k: int| is_first_index(s, c, k);
    lemma_first_index_unique(s, c, k, k2);
}

/// The position (in characters) of the first `c` in `s`.
pub fn find_char(s: &str, c: char) -> (r: Option<usize>)
    ensures
        match r {
            Some(k) => is_first_index(s@, c, k as int),
            None => !s@.contains(c),
        },
{
    let n = s.unicode_len();
    let mut i: usize = 0;
    while i < n
        invariant
            n == s@.len(),
            i <= n,
            forall|j: int| 0 <= j < i ==> s@[j] != c,
        decreases n - i,
    {
        if s.get_char(i) == c {
            return Some(i);
        }
        i = i + 1;
    }
    None
}

/// Splits `s` at its first `c`: the text before it and the text after it.
pub fn split_once_char<'a>(s: &'a str, c: char) -> (r: Option<(&'a str, &'a str)>)
    ensures
        r is Some <==> s@.contains(c),
        r matches Some((a, b)) ==> split_once_spec(s@, c) == Some((a@, b@)),
{
    match find_char(s, c) {
        Some(k) => {
            let n = s.unicode_len();
            let a = s.substring_char(0, k);
            let b = s.substring_char(k + 1, n);
            proof {
                lemma_split_at_first(s@, c, k as int);
                assert(a@ =~= s@.take(k as int));
                assert(b@ =~= s@.skip(k + 1));
                assert(s@.contains(c)) by {
                    assert(s@[k as int] == c);
                }
            }
            Some((a, b))
        },
        None => None,
    }
}

/// `s` begins with `prefix`.
pub fn starts_with_text(s: &str, prefix: &str) -> (r: bool)
    ensures
        r == (prefix@.len() <= s@.len() && s@.take(prefix@.len() as int) == prefix@),
{
    let n = s.unicode_len();
    let m = prefix.unicode_len();
    if m > n {
        return false;
    }
    let mut i: usize = 0;
    while i < m
        invariant
            n == s@.len(),
            m == prefix@.len(),
            m <= n,
            i <= m,
            forall|j: int| 0 <= j < i ==> s@[j] == prefix@[j],
        decreases m - i,
    {
        if s.get_char(i) != prefix.get_char(i) {
            assert(s@.take(m as int)[i as int] != prefix@[i as int]);
            return false;
        }
        i = i + 1;
    }
    assert(s@.take(m as int) =~= prefix@);
    true
}

/// `a` and `b` hold the same text.
pub fn text_eq(a: &str, b: &str) -> (r: bool)
    ensures
        r == (a@ == b@),
{
    let n = a.unicode_len();
    let m = b.unicode_len();
    if n != m {
        return false;
    }
    let mut i: usize = 0;
    while i < n
        invariant
            n == a@.len(),
            m == b@.len(),
            n == m,
            i <= n,
            forall|j: int| 0 <= j < i ==> a@[j] == b@[j],
        decreases n - i,
    {
        if a.get_char(i) != b.get_char(i) {
            return false;
        }
        i = i + 1;
    }
    assert(a@ =~= b@);
    true
}

/// The text of `s` as an owned string.
pub fn owned(s: &str) -> (r: String)
    ensures
        r@ == s@,
{
    s.to_owned()
}

} // verus!
