//! Byte-level text utilities. All captured content and queries are handled as
//! UTF-8 byte sequences; case folding is ASCII-only, which leaves multi-byte
//! UTF-8 sequences untouched.
use vstd::prelude::*;

verus! {

/// The UTF-8 bytes of a character sequence; `"lit"@` under this function is
/// what `"lit".as_bytes()` returns, so contracts can speak of string
/// literals at the byte level.
pub open spec fn str_bytes(s: Seq<char>) -> Seq<u8> {
    vstd::utf8::encode_utf8(s)
}

/// ASCII lower-casing of a single byte: `A`..`Z` map to `a`..`z`.
pub open spec fn lower_byte(b: u8) -> u8 {
    if 65 <= b <= 90 {
        (b + 32) as u8
    } else {
        b
    }
}

/// ASCII lower-casing of a byte sequence.
pub open spec fn lower_bytes_spec(s: Seq<u8>) -> Seq<u8> {
    s.map_values(|b: u8| lower_byte(b))
}

/// Lower-case a byte string (ASCII letters only).
pub fn lower_bytes(s: &[u8]) -> (r: Vec<u8>)
    ensures
        r@ == lower_bytes_spec(s@),
{
    let mut r: Vec<u8> = Vec::new();
    let mut i: usize = 0;
    while i < s.len()
        invariant
            i <= s.len(),
            r@ == lower_bytes_spec(s@.take(i as int)),
        decreases s.len() - i,
    {
        let b = s[i];
        if 65 <= b && b <= 90 {
            r.push(b + 32);
        } else {
            r.push(b);
        }
        proof {
            assert(r@ =~= lower_bytes_spec(s@.take(i + 1 as int)));
        }
        i = i + 1;
    }
    proof {
        assert(s@.take(s@.len() as int) =~= s@);
    }
    r
}

/// `p` occurs in `s` starting at position `i`.
pub open spec fn matches_at(s: Seq<u8>, p: Seq<u8>, i: int) -> bool {
    0 <= i && i + p.len() <= s.len() && s.subrange(i, i + p.len()) == p
}

/// `p` is a prefix of `s`.
pub open spec fn is_prefix_of(p: Seq<u8>, s: Seq<u8>) -> bool {
    p.len() <= s.len() && s.subrange(0, p.len() as int) == p
}

/// `p` is a suffix of `s`.
pub open spec fn is_suffix_of(p: Seq<u8>, s: Seq<u8>) -> bool {
    p.len() <= s.len() && s.subrange(s.len() - p.len(), s.len() as int) == p
}

/// `p` occurs somewhere in `s`.
pub open spec fn contains_seq(s: Seq<u8>, p: Seq<u8>) -> bool {
    exists|i: int| matches_at(s, p, i)
}

/// Whether two byte strings are equal.
pub fn eq_bytes(a: &[u8], b: &[u8]) -> (r: bool)
    ensures
        r == (a@ == b@),
{
    if a.len() != b.len() {
        proof {
            assert(a@ != b@);
        }
        return false;
    }
    let mut i: usize = 0;
    while i < a.len()
        invariant
            i <= a.len(),
            a@.len() == b@.len(),
            forall|j: int| 0 <= j < i ==> a@[j] == b@[j],
        decreases a.len() - i,
    {
        if a[i] != b[i] {
            return false;
        }
        i = i + 1;
    }
    proof {
        assert(a@ =~= b@);
    }
    true
}

/// Whether `p` occurs in `s` at position `i` (callers check bounds).
pub fn check_match_at(s: &[u8], p: &[u8], i: usize) -> (r: bool)
    requires
        i + p@.len() <= s@.len(),
    ensures
        r == matches_at(s@, p@, i as int),
{
    let n = s.len();
    let mut j: usize = 0;
    while j < p.len()
        invariant
            j <= p.len(),
            i + p@.len() <= s@.len(),
            n == s@.len(),
            forall|k: int| 0 <= k < j ==> s@[i + k] == p@[k],
        decreases p.len() - j,
    {
        if s[i + j] != p[j] {
            proof {
                assert(s@.subrange(i as int, i + p@.len())[j as int] == s@[i + j]);
            }
            return false;
        }
        j = j + 1;
    }
    proof {
        assert(s@.subrange(i as int, i + p@.len()) =~= p@);
    }
    true
}

/// Position of the first occurrence of `p` in `s`, if any.
pub fn find_bytes(s: &[u8], p: &[u8]) -> (r: Option<usize>)
    ensures
        match r {
            Some(i) => matches_at(s@, p@, i as int) && forall|j: int|
                0 <= j < i ==> !matches_at(s@, p@, j),
            None => !contains_seq(s@, p@),
        },
{
    let n = s.len();
    let m = p.len();
    if m > n {
        return None;
    }
    if m == 0 {
        proof {
            assert(s@.subrange(0, 0) =~= p@);
        }
        return Some(0);
    }
    let mut i: usize = 0;
    while i <= n - m
        invariant
            1 <= m <= n,
            n == s@.len(),
            m == p@.len(),
            i <= n - m + 1,
            forall|j: int| 0 <= j < i ==> !matches_at(s@, p@, j),
        decreases n - i,
    {
        if check_match_at(s, p, i) {
            return Some(i);
        }
        i = i + 1;
    }
    proof {
        assert forall|j: int| !matches_at(s@, p@, j) by {
            if 0 <= j && j + p@.len() <= s@.len() {
                assert(j < i);
            }
        }
    }
    None
}

/// Whether `p` occurs somewhere in `s`.
pub fn contains_bytes(s: &[u8], p: &[u8]) -> (r: bool)
    ensures
        r == contains_seq(s@, p@),
{
    find_bytes(s, p).is_some()
}

/// Whether `p` is a prefix of `s`.
pub fn starts_with_bytes(s: &[u8], p: &[u8]) -> (r: bool)
    ensures
        r == is_prefix_of(p@, s@),
{
    if p.len() > s.len() {
        return false;
    }
    check_match_at(s, p, 0)
}

/// Whether `p` is a suffix of `s`.
pub fn ends_with_bytes(s: &[u8], p: &[u8]) -> (r: bool)
    ensures
        r == is_suffix_of(p@, s@),
{
    if p.len() > s.len() {
        return false;
    }
    let r = check_match_at(s, p, s.len() - p.len());
    proof {
        assert(matches_at(s@, p@, s@.len() - p@.len()) == is_suffix_of(p@, s@));
    }
    r
}

/// ASCII whitespace, as used to split queries and commands into words.
pub open spec fn is_space(b: u8) -> bool {
    b == 32 || b == 9 || b == 10 || b == 13 || b == 11 || b == 12
}

/// Length of the leading run of non-space bytes.
pub open spec fn token_len(s: Seq<u8>) -> int
    decreases s.len(),
{
    if s.len() == 0 {
        0
    } else if is_space(s[0]) {
        0
    } else {
        1 + token_len(s.skip(1))
    }
}

pub proof fn lemma_token_len_bounds(s: Seq<u8>)
    ensures
        0 <= token_len(s) <= s.len(),
        forall|k: int| 0 <= k < token_len(s) ==> !is_space(s[k]),
        token_len(s) < s.len() ==> is_space(s[token_len(s)]),
    decreases s.len(),
{
    if s.len() != 0 && !is_space(s[0]) {
        lemma_token_len_bounds(s.skip(1));
        assert forall|k: int| 0 <= k < token_len(s) implies !is_space(s[k]) by {
            if k > 0 {
                assert(s.skip(1)[k - 1] == s[k]);
            }
        }
        if token_len(s) < s.len() {
            assert(s.skip(1)[token_len(s) - 1] == s[token_len(s)]);
        }
    }
}

/// The whitespace-separated words of `s`, in order.
pub open spec fn split_ws(s: Seq<u8>) -> Seq<Seq<u8>>
    decreases s.len(),
        via split_ws_decreases
{
    if s.len() == 0 {
        Seq::empty()
    } else if is_space(s[0]) {
        split_ws(s.skip(1))
    } else {
        seq![s.take(token_len(s))] + split_ws(s.skip(token_len(s)))
    }
}

#[via_fn]
proof fn split_ws_decreases(s: Seq<u8>) {
    if s.len() != 0 && !is_space(s[0]) {
        lemma_token_len_bounds(s);
        assert(token_len(s) >= 1);
    }
}

/// Split a byte string into its whitespace-separated words.
pub fn split_ws_bytes(s: &[u8]) -> (r: Vec<Vec<u8>>)
    ensures
        r.deep_view() == split_ws(s@),
    decreases s@.len(),
{
    if s.len() == 0 {
        let r: Vec<Vec<u8>> = Vec::new();
        proof {
            assert(r.deep_view() =~~= split_ws(s@));
        }
        return r;
    }
    if is_space_byte(s[0]) {
        let rest = slice_tail(s, 1);
        let r = split_ws_bytes(rest);
        return r;
    }
    proof {
        lemma_token_len_bounds(s@);
        assert(token_len(s@) >= 1);
    }
    let k = token_run_len(s);
    let tok = slice_head_vec(s, k);
    let rest = slice_tail(s, k);
    let mut tail_vec = split_ws_bytes(rest);
    let ghost tail_words = tail_vec.deep_view();
    let mut r: Vec<Vec<u8>> = Vec::new();
    r.push(tok);
    r.append(&mut tail_vec);
    proof {
        assert(r.deep_view() =~~= seq![s@.take(token_len(s@))] + tail_words);
    }
    r
}

/// Whether a byte is ASCII whitespace.
pub fn is_space_byte(b: u8) -> (r: bool)
    ensures
        r == is_space(b),
{
    b == 32 || b == 9 || b == 10 || b == 13 || b == 11 || b == 12
}

/// Length of the leading run of non-space bytes.
fn token_run_len(s: &[u8]) -> (r: usize)
    ensures
        r as int == token_len(s@),
{
    proof {
        lemma_token_len_bounds(s@);
    }
    let mut i: usize = 0;
    while i < s.len() && !is_space_byte(s[i])
        invariant
            i <= s@.len(),
            forall|k: int| 0 <= k < i ==> !is_space(s@[k]),
            i <= token_len(s@),
        decreases s.len() - i,
    {
        proof {
            lemma_token_len_prefix(s@, i + 1);
        }
        i = i + 1;
    }
    proof {
        lemma_token_len_bounds(s@);
    }
    i
}

/// If the first `n` bytes of `s` are not spaces, the leading token has length
/// at least `n`.
proof fn lemma_token_len_prefix(s: Seq<u8>, n: int)
    requires
        0 <= n <= s.len(),
        forall|k: int| 0 <= k < n ==> !is_space(s[k]),
    ensures
        token_len(s) >= n,
    decreases n,
{
    lemma_token_len_bounds(s);
    if n > 0 {
        assert(!is_space(s[0]));
        assert forall|k: int| 0 <= k < n - 1 implies !is_space(s.skip(1)[k]) by {
            assert(s.skip(1)[k] == s[k + 1]);
        }
        lemma_token_len_prefix(s.skip(1), n - 1);
    }
}

/// Copy of the first `k` bytes of `s`.
fn slice_head_vec(s: &[u8], k: usize) -> (r: Vec<u8>)
    requires
        k <= s@.len(),
    ensures
        r@ == s@.take(k as int),
{
    let mut r: Vec<u8> = Vec::new();
    let mut i: usize = 0;
    while i < k
        invariant
            i <= k <= s@.len(),
            r@ == s@.take(i as int),
        decreases k - i,
    {
        r.push(s[i]);
        proof {
            assert(r@ =~= s@.take(i + 1 as int));
        }
        i = i + 1;
    }
    r
}

/// The subslice of `s` from `k` to the end.
fn slice_tail(s: &[u8], k: usize) -> (r: &[u8])
    requires
        k <= s@.len(),
    ensures
        r@ == s@.skip(k as int),
{
    let r = vstd::slice::slice_subrange(s, k, s.len());
    proof {
        assert(r@ =~= s@.skip(k as int));
    }
    r
}

/// The language-independent stop-words dropped from query keywords.
pub open spec fn is_stop_word(w: Seq<u8>) -> bool {
    ||| w == str_bytes("the"@)
    ||| w == str_bytes("a"@)
    ||| w == str_bytes("an"@)
    ||| w == str_bytes("i"@)
    ||| w == str_bytes("me"@)
    ||| w == str_bytes("my"@)
    ||| w == str_bytes("from"@)
    ||| w == str_bytes("in"@)
    ||| w == str_bytes("on"@)
    ||| w == str_bytes("at"@)
    ||| w == str_bytes("show"@)
    ||| w == str_bytes("find"@)
    ||| w == str_bytes("get"@)
    ||| w == str_bytes("list"@)
    ||| w == str_bytes("give"@)
    ||| w == str_bytes("used"@)
    ||| w == str_bytes("ran"@)
    ||| w == str_bytes("did"@)
}

/// Whether `w` is one of the stop-words.
pub fn is_stop_word_exec(w: &[u8]) -> (r: bool)
    ensures
        r == is_stop_word(w@),
{
    eq_bytes(w, "the".as_bytes()) || eq_bytes(w, "a".as_bytes()) || eq_bytes(w, "an".as_bytes())
        || eq_bytes(w, "i".as_bytes()) || eq_bytes(w, "me".as_bytes()) || eq_bytes(
        w,
        "my".as_bytes(),
    ) || eq_bytes(w, "from".as_bytes()) || eq_bytes(w, "in".as_bytes()) || eq_bytes(
        w,
        "on".as_bytes(),
    ) || eq_bytes(w, "at".as_bytes()) || eq_bytes(w, "show".as_bytes()) || eq_bytes(
        w,
        "find".as_bytes(),
    ) || eq_bytes(w, "get".as_bytes()) || eq_bytes(w, "list".as_bytes()) || eq_bytes(
        w,
        "give".as_bytes(),
    ) || eq_bytes(w, "used".as_bytes()) || eq_bytes(w, "ran".as_bytes()) || eq_bytes(
        w,
        "did".as_bytes(),
    )
}

/// Copy of the bytes of `s` from `a` (inclusive) to `b` (exclusive).
pub fn slice_range_vec(s: &[u8], a: usize, b: usize) -> (r: Vec<u8>)
    requires
        a <= b <= s@.len(),
    ensures
        r@ == s@.subrange(a as int, b as int),
{
    let mut r: Vec<u8> = Vec::new();
    let mut i: usize = a;
    while i < b
        invariant
            a <= i <= b <= s@.len(),
            r@ == s@.subrange(a as int, i as int),
        decreases b - i,
    {
        r.push(s[i]);
        proof {
            assert(r@ =~= s@.subrange(a as int, i + 1 as int));
        }
        i = i + 1;
    }
    r
}

/// Number of whitespace-separated words in `s`.
pub fn word_count(s: &[u8]) -> (r: usize)
    ensures
        r as int == split_ws(s@).len(),
{
    let words = split_ws_bytes(s);
    proof {
        assert(words.deep_view().len() == words@.len());
    }
    words.len()
}

} // verus!
