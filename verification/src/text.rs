//! Small verified text utilities shared by the cache: whitespace trimming,
//! character-wise string equality, substring search and decimal rendering.

use vstd::prelude::*;

verus! {

/// ASCII whitespace: the characters stripped from the edges of key and
/// timestamp records.
pub open spec fn is_space(c: char) -> bool {
    c == ' ' || c == '\t' || c == '\n' || c == '\r' || c == '\u{b}' || c == '\u{c}'
}

/// `s` with leading whitespace removed.
pub open spec fn trim_front(s: Seq<char>) -> Seq<char>
    decreases s.len(),
{
    if s.len() > 0 && is_space(s[0]) {
        trim_front(s.drop_first())
    } else {
        s
    }
}

/// `s` with trailing whitespace removed.
pub open spec fn trim_back(s: Seq<char>) -> Seq<char>
    decreases s.len(),
{
    if s.len() > 0 && is_space(s[s.len() - 1]) {
        trim_back(s.drop_last())
    } else {
        s
    }
}

/// `s` with whitespace removed from both edges.
pub open spec fn trim(s: Seq<char>) -> Seq<char> {
    trim_back(trim_front(s))
}

/// A trimmed piece of text is left unchanged by trimming.
pub open spec fn is_trimmed(s: Seq<char>) -> bool {
    trim(s) == s
}

fn is_space_char(c: char) -> (r: bool)
    ensures
        r == is_space(c),
{
    c == ' ' || c == '\t' || c == '\n' || c == '\r' || c == '\u{b}' || c == '\u{c}'
}

proof fn lemma_trim_front_is_suffix(s: Seq<char>, i: int)
    requires
        0 <= i <= s.len(),
        forall|k: int| 0 <= k < i ==> is_space(s[k]),
        i == s.len() || !is_space(s[i]),
    ensures
        trim_front(s) == s.subrange(i, s.len() as int),
    decreases i,
{
    if i == 0 {
        assert(s.subrange(0, s.len() as int) =~= s);
    } else {
        assert(is_space(s[0]));
        let t = s.drop_first();
        assert(forall|k: int| 0 <= k < i - 1 ==> is_space(t[k]));
        lemma_trim_front_is_suffix(t, i - 1);
        assert(t.subrange(i - 1, t.len() as int) =~= s.subrange(i, s.len() as int));
    }
}

proof fn lemma_trim_back_is_prefix(s: Seq<char>, j: int)
    requires
        0 <= j <= s.len(),
        forall|k: int| j <= k < s.len() ==> is_space(s[k]),
        j == 0 || !is_space(s[j - 1]),
    ensures
        trim_back(s) == s.subrange(0, j),
    decreases s.len(),
{
    if j == s.len() {
        if s.len() == 0 {
            assert(s.subrange(0, 0) =~= s);
        } else {
            assert(!is_space(s[s.len() - 1]));
            assert(s.subrange(0, s.len() as int) =~= s);
        }
    } else {
        assert(is_space(s[s.len() - 1]));
        let t = s.drop_last();
        assert(forall|k: int| j <= k < t.len() ==> t[k] == s[k] && is_space(t[k]));
        lemma_trim_back_is_prefix(t, j);
        assert(t.subrange(0, j) =~= s.subrange(0, j));
    }
}

/// The trimmed view of `s`, as a slice of it.
pub fn trim_str(s: &str) -> (r: &str)
    ensures
        r@ == trim(s@),
        is_trimmed(r@),
{
    let len = s.unicode_len();
    let mut i: usize = 0;
    loop
        invariant
            i <= len,
            len == s@.len(),
            forall|k: int| 0 <= k < i ==> is_space(s@[k]),
        ensures
            i <= len,
            forall|k: int| 0 <= k < i ==> is_space(s@[k]),
            i == len || !is_space(s@[i as int]),
        decreases len - i,
    {
        if i == len {
            break;
        }
        if !is_space_char(s.get_char(i)) {
            break;
        }
        i = i + 1;
    }
    let mut j: usize = len;
    loop
        invariant
            i <= j <= len,
            len == s@.len(),
            forall|k: int| j <= k < len ==> is_space(s@[k]),
            forall|k: int| 0 <= k < i ==> is_space(s@[k]),
            i == len || !is_space(s@[i as int]),
        ensures
            i <= j <= len,
            forall|k: int| j <= k < len ==> is_space(s@[k]),
            j == i || !is_space(s@[j - 1]),
        decreases j,
    {
        if j == i {
            break;
        }
        if !is_space_char(s.get_char(j - 1)) {
            break;
        }
        j = j - 1;
    }
    let r = s.substring_char(i, j);
    proof {
        lemma_trim_front_is_suffix(s@, i as int);
        let t = s@.subrange(i as int, len as int);
        if i == len {
            lemma_trim_back_is_prefix(t, 0);
            assert(r@ =~= trim(s@));
        } else {
            assert(j > i) by {
                if j == i {
                    assert(is_space(s@[i as int]));
                }
            }
            assert(forall|k: int| j - i <= k < t.len() ==> t[k] == s@[k + i] && is_space(t[k]));
            assert(!is_space(t[j - i - 1]));
            lemma_trim_back_is_prefix(t, j - i);
            assert(t.subrange(0, j - i) =~= s@.subrange(i as int, j as int));
        }
        // trimming is idempotent on the result
        lemma_trim_front_is_suffix(r@, 0);
        if r@.len() > 0 {
            lemma_trim_back_is_prefix(r@, r@.len() as int);
        } else {
            lemma_trim_back_is_prefix(r@, 0);
        }
    }
    r
}

/// Character-wise equality of two pieces of text.
pub fn str_eq(a: &str, b: &str) -> (r: bool)
    ensures
        r == (a@ == b@),
{
    let la = a.unicode_len();
    let lb = b.unicode_len();
    if la != lb {
        return false;
    }
    let mut i: usize = 0;
    while i < la
        invariant
            i <= la,
            la == a@.len(),
            la == b@.len(),
            forall|k: int| 0 <= k < i ==> a@[k] == b@[k],
        decreases la - i,
    {
        if a.get_char(i) != b.get_char(i) {
            return false;
        }
        i = i + 1;
    }
    proof {
        assert(a@ =~= b@);
    }
    true
}

/// `n` written in decimal digits.
pub open spec fn dec_str(n: nat) -> Seq<char>
    decreases n,
{
    if n < 10 {
        seq![crate::timestamp::dec_digit(n as int)]
    } else {
        dec_str(n / 10) + seq![crate::timestamp::dec_digit((n % 10) as int)]
    }
}

fn digit_str(d: u64) -> (r: &'static str)
    requires
        d <= 9,
    ensures
        r@ == seq![crate::timestamp::dec_digit(d as int)],
{
    proof {
        reveal_strlit("0");
        reveal_strlit("1");
        reveal_strlit("2");
        reveal_strlit("3");
        reveal_strlit("4");
        reveal_strlit("5");
        reveal_strlit("6");
        reveal_strlit("7");
        reveal_strlit("8");
        reveal_strlit("9");
    }
    let r: &'static str = if d == 0 {
        "0"
    } else if d == 1 {
        "1"
    } else if d == 2 {
        "2"
    } else if d == 3 {
        "3"
    } else if d == 4 {
        "4"
    } else if d == 5 {
        "5"
    } else if d == 6 {
        "6"
    } else if d == 7 {
        "7"
    } else if d == 8 {
        "8"
    } else {
        "9"
    };
    proof {
        assert(r@ =~= seq![crate::timestamp::dec_digit(d as int)]);
    }
    r
}

/// Writes `n` in decimal digits.
pub fn u64_to_string(n: u64) -> (r: String)
    ensures
        r@ == dec_str(n as nat),
    decreases n,
{
    if n < 10 {
        digit_str(n).to_owned()
    } else {
        let hi = u64_to_string(n / 10);
        hi.concat(digit_str(n % 10))
    }
}

/// Whether the three-character record separator stands at position `i` of `s`.
pub open spec fn sep_at(s: Seq<char>, i: int) -> bool {
    0 <= i && i + 3 <= s.len() && s[i] == '%' && s[i + 1] == '%' && s[i + 2] == '%'
}

/// The first position at or after `i` where the record separator stands.
pub open spec fn find_sep_from(s: Seq<char>, i: int) -> Option<int>
    decreases s.len() + 3 - i,
{
    if i < 0 || i + 3 > s.len() {
        None
    } else if sep_at(s, i) {
        Some(i)
    } else {
        find_sep_from(s, i + 1)
    }
}

/// The first position of the record separator in `s`.
pub fn find_sep(s: &str) -> (r: Option<usize>)
    ensures
        match r {
            Some(i) => find_sep_from(s@, 0) == Some(i as int),
            None => find_sep_from(s@, 0) is None,
        },
{
    let len = s.unicode_len();
    let mut i: usize = 0;
    loop
        invariant
            i <= len,
            len == s@.len(),
            find_sep_from(s@, 0) == find_sep_from(s@, i as int),
        ensures
            (i + 3 > len && find_sep_from(s@, 0) is None) || (i + 3 <= len && sep_at(s@, i as int)
                && find_sep_from(s@, 0) == Some(i as int)),
        decreases len - i,
    {
        if len < 3 || i > len - 3 {
            break;
        }
        if s.get_char(i) == '%' && s.get_char(i + 1) == '%' && s.get_char(i + 2) == '%' {
            break;
        }
        i = i + 1;
    }
    if len < 3 || i > len - 3 {
        None
    } else {
        Some(i)
    }
}

pub proof fn lemma_find_sep_from(s: Seq<char>, i: int)
    requires
        0 <= i,
    ensures
        match find_sep_from(s, i) {
            Some(j) => i <= j && j + 3 <= s.len() && sep_at(s, j) && (forall|k: int|
                i <= k < j ==> !sep_at(s, k)),
            None => forall|k: int| i <= k ==> !sep_at(s, k),
        },
    decreases s.len() + 3 - i,
{
    if i + 3 <= s.len() && !sep_at(s, i) {
        lemma_find_sep_from(s, i + 1);
    }
}

/// Whether the two characters `c0`, `c1` stand at position `i` of `s`.
pub open spec fn pair_at(s: Seq<char>, c0: char, c1: char, i: int) -> bool {
    0 <= i && i + 2 <= s.len() && s[i] == c0 && s[i + 1] == c1
}

/// The first position at or after `i` where the pair `c0`, `c1` stands.
pub open spec fn find_pair_from(s: Seq<char>, c0: char, c1: char, i: int) -> Option<int>
    decreases s.len() + 2 - i,
{
    if i < 0 || i + 2 > s.len() {
        None
    } else if pair_at(s, c0, c1, i) {
        Some(i)
    } else {
        find_pair_from(s, c0, c1, i + 1)
    }
}

pub proof fn lemma_find_pair_from(s: Seq<char>, c0: char, c1: char, i: int)
    requires
        0 <= i,
    ensures
        match find_pair_from(s, c0, c1, i) {
            Some(j) => i <= j && j + 2 <= s.len() && pair_at(s, c0, c1, j) && (forall|k: int|
                i <= k < j ==> !pair_at(s, c0, c1, k)),
            None => forall|k: int| i <= k ==> !pair_at(s, c0, c1, k),
        },
    decreases s.len() + 2 - i,
{
    if i + 2 <= s.len() && !pair_at(s, c0, c1, i) {
        lemma_find_pair_from(s, c0, c1, i + 1);
    }
}

/// The first position of the pair `c0`, `c1` in `s`.
pub fn find_pair(s: &str, c0: char, c1: char) -> (r: Option<usize>)
    ensures
        match r {
            Some(i) => find_pair_from(s@, c0, c1, 0) == Some(i as int),
            None => find_pair_from(s@, c0, c1, 0) is None,
        },
{
    let len = s.unicode_len();
    let mut i: usize = 0;
    loop
        invariant
            i <= len,
            len == s@.len(),
            find_pair_from(s@, c0, c1, 0) == find_pair_from(s@, c0, c1, i as int),
        ensures
            (i + 2 > len && find_pair_from(s@, c0, c1, 0) is None) || (i + 2 <= len && pair_at(
                s@,
                c0,
                c1,
                i as int,
            ) && find_pair_from(s@, c0, c1, 0) == Some(i as int)),
        decreases len - i,
    {
        if len < 2 || i > len - 2 {
            break;
        }
        if s.get_char(i) == c0 && s.get_char(i + 1) == c1 {
            break;
        }
        i = i + 1;
    }
    if len < 2 || i > len - 2 {
        None
    } else {
        Some(i)
    }
}

/// The first position at or after `i` where character `c` stands.
pub open spec fn find_char_from(s: Seq<char>, c: char, i: int) -> Option<int>
    decreases s.len() + 1 - i,
{
    if i < 0 || i >= s.len() {
        None
    } else if s[i] == c {
        Some(i)
    } else {
        find_char_from(s, c, i + 1)
    }
}

pub proof fn lemma_find_char_from(s: Seq<char>, c: char, i: int)
    requires
        0 <= i,
    ensures
        match find_char_from(s, c, i) {
            Some(j) => i <= j < s.len() && s[j] == c && (forall|k: int| i <= k < j ==> s[k] != c),
            None => forall|k: int| i <= k < s.len() ==> s[k] != c,
        },
    decreases s.len() + 1 - i,
{
    if i < s.len() && s[i] != c {
        lemma_find_char_from(s, c, i + 1);
    }
}

/// The first position of character `c` in `s`.
pub fn find_char(s: &str, c: char) -> (r: Option<usize>)
    ensures
        match r {
            Some(i) => find_char_from(s@, c, 0) == Some(i as int),
            None => find_char_from(s@, c, 0) is None,
        },
{
    let len = s.unicode_len();
    let mut i: usize = 0;
    loop
        invariant
            i <= len,
            len == s@.len(),
            find_char_from(s@, c, 0) == find_char_from(s@, c, i as int),
        ensures
            (i == len && find_char_from(s@, c, 0) is None) || (i < len && s@[i as int] == c
                && find_char_from(s@, c, 0) == Some(i as int)),
        decreases len - i,
    {
        if i == len {
            break;
        }
        if s.get_char(i) == c {
            break;
        }
        i = i + 1;
    }
    if i == len {
        None
    } else {
        Some(i)
    }
}

} // verus!
