//! Character-level text operations used by the subtitle and probe parsers.
//!
//! Strings are handled as sequences of `char`. Each operation here states, as
//! a spec function over `Seq<char>`, the behaviour of the `str` method of the
//! same name, and its executable counterpart works on a `&[char]`.
use vstd::prelude::*;
use vstd::utf8::{decode_utf8, valid_utf8};

verus! {

/// `String::push`: `ch` is appended to `s`, as its documentation states.
pub assume_specification[ String::push ](s: &mut String, ch: char)
    ensures
        final(s)@ == old(s)@.push(ch),
;

// ---------------------------------------------------------------------------
// Character classes
// ---------------------------------------------------------------------------
/// `char::is_whitespace`: the Unicode `White_Space` property.
pub open spec fn is_whitespace(c: char) -> bool {
    let u = c as u32;
    ||| 0x09 <= u <= 0x0D
    ||| u == 0x20
    ||| u == 0x85
    ||| u == 0xA0
    ||| u == 0x1680
    ||| 0x2000 <= u <= 0x200A
    ||| u == 0x2028
    ||| u == 0x2029
    ||| u == 0x202F
    ||| u == 0x205F
    ||| u == 0x3000
}

/// `char::is_ascii_whitespace`: space, tab, line feed, form feed, carriage return.
pub open spec fn is_ascii_whitespace(c: char) -> bool {
    c == ' ' || c == '\t' || c == '\n' || c == '\x0C' || c == '\r'
}

pub open spec fn is_ascii_digit(c: char) -> bool {
    '0' <= c <= '9'
}

pub open spec fn is_ascii_alphanumeric(c: char) -> bool {
    ||| '0' <= c <= '9'
    ||| 'a' <= c <= 'z'
    ||| 'A' <= c <= 'Z'
}

pub fn whitespace(c: char) -> (r: bool)
    ensures
        r == is_whitespace(c),
{
    let u = c as u32;
    (0x09 <= u && u <= 0x0D) || u == 0x20 || u == 0x85 || u == 0xA0 || u == 0x1680 || (0x2000
        <= u && u <= 0x200A) || u == 0x2028 || u == 0x2029 || u == 0x202F || u == 0x205F || u
        == 0x3000
}

pub fn ascii_whitespace(c: char) -> (r: bool)
    ensures
        r == is_ascii_whitespace(c),
{
    c == ' ' || c == '\t' || c == '\n' || c == '\x0C' || c == '\r'
}

pub fn ascii_digit(c: char) -> (r: bool)
    ensures
        r == is_ascii_digit(c),
{
    '0' <= c && c <= '9'
}

pub fn ascii_alphanumeric(c: char) -> (r: bool)
    ensures
        r == is_ascii_alphanumeric(c),
{
    ('0' <= c && c <= '9') || ('a' <= c && c <= 'z') || ('A' <= c && c <= 'Z')
}

// ---------------------------------------------------------------------------
// Conversions between `str`/`String` and `Vec<char>`
// ---------------------------------------------------------------------------
/// The characters of `s`, in order.
pub fn chars_of(s: &str) -> (v: Vec<char>)
    ensures
        v@ == s@,
{
    let mut v: Vec<char> = Vec::new();
    for c in it: s.chars()
        invariant
            v@ == it.seq().take(it.index() as int),
    {
        v.push(c);
    }
    v
}

/// A `String` holding exactly the characters of `v`.
pub fn string_of(v: &[char]) -> (s: String)
    ensures
        s@ == v@,
{
    let mut s = String::new();
    let mut i: usize = 0;
    while i < v.len()
        invariant
            i <= v.len(),
            s@ == v@.take(i as int),
        decreases v.len() - i,
    {
        s.push(v[i]);
        assert(v@.take(i + 1) == v@.take(i as int).push(v@[i as int]));
        i = i + 1;
    }
    assert(v@.take(v.len() as int) == v@);
    s
}

/// A `String` holding the characters `v[lo..hi]`.
pub fn string_of_range(v: &[char], lo: usize, hi: usize) -> (s: String)
    requires
        lo <= hi <= v.len(),
    ensures
        s@ == v@.subrange(lo as int, hi as int),
{
    let mut s = String::new();
    let mut i: usize = lo;
    while i < hi
        invariant
            lo <= i <= hi <= v.len(),
            s@ == v@.subrange(lo as int, i as int),
        decreases hi - i,
    {
        s.push(v[i]);
        assert(v@.subrange(lo as int, i + 1) == v@.subrange(lo as int, i as int).push(
            v@[i as int],
        ));
        i = i + 1;
    }
    s
}

/// Appends `v[lo..hi]` to `out`.
pub fn push_range(out: &mut Vec<char>, v: &[char], lo: usize, hi: usize)
    requires
        lo <= hi <= v.len(),
    ensures
        final(out)@ == old(out)@ + v@.subrange(lo as int, hi as int),
{
    let mut i: usize = lo;
    while i < hi
        invariant
            lo <= i <= hi <= v.len(),
            out@ == old(out)@ + v@.subrange(lo as int, i as int),
        decreases hi - i,
    {
        out.push(v[i]);
        assert(v@.subrange(lo as int, i + 1) == v@.subrange(lo as int, i as int).push(
            v@[i as int],
        ));
        i = i + 1;
    }
}

/// Appends all of `v` to `out`.
pub fn push_all(out: &mut Vec<char>, v: &[char])
    ensures
        final(out)@ == old(out)@ + v@,
{
    push_range(out, v, 0, v.len());
    assert(v@.subrange(0, v@.len() as int) == v@);
}

/// Appends the characters of `s` to `out`.
pub fn push_str(out: &mut Vec<char>, s: &str)
    ensures
        final(out)@ == old(out)@ + s@,
{
    let v = chars_of(s);
    push_all(out, &v);
}

/// Whether two character sequences are equal.
pub fn chars_eq(a: &[char], b: &[char]) -> (r: bool)
    ensures
        r == (a@ == b@),
{
    if a.len() != b.len() {
        return false;
    }
    let mut i: usize = 0;
    while i < a.len()
        invariant
            a.len() == b.len(),
            i <= a.len(),
            forall|j: int| 0 <= j < i ==> a@[j] == b@[j],
        decreases a.len() - i,
    {
        if a[i] != b[i] {
            return false;
        }
        i = i + 1;
    }
    assert(a@ =~= b@);
    true
}

/// Whether `a` equals the text of `b`.
pub fn chars_eq_str(a: &[char], b: &str) -> (r: bool)
    ensures
        r == (a@ == b@),
{
    let bv = chars_of(b);
    chars_eq(a, &bv)
}

/// Whether two strings are equal.
pub fn str_eq(a: &str, b: &str) -> (r: bool)
    ensures
        r == (a@ == b@),
{
    let av = chars_of(a);
    chars_eq_str(&av, b)
}

// ---------------------------------------------------------------------------
// Searching
// ---------------------------------------------------------------------------
/// Whether `pat` occurs in `s` starting at position `i`.
pub open spec fn occurs_at(s: Seq<char>, pat: Seq<char>, i: int) -> bool {
    0 <= i && i + pat.len() <= s.len() && s.subrange(i, i + pat.len()) == pat
}

/// `str::starts_with` with a string pattern.
pub open spec fn starts_with(s: Seq<char>, pat: Seq<char>) -> bool {
    occurs_at(s, pat, 0)
}

/// `str::ends_with` with a string pattern.
pub open spec fn ends_with(s: Seq<char>, pat: Seq<char>) -> bool {
    occurs_at(s, pat, s.len() - pat.len())
}

/// Whether `s` holds no `c`.
pub open spec fn free_of(s: Seq<char>, c: char) -> bool {
    forall|j: int| 0 <= j < s.len() ==> s[j] != c
}

/// The first position at or after `i` where `pat` occurs, or `s.len() + 1`
/// (a position no occurrence can have) when there is none.
pub open spec fn first_occurrence_from(s: Seq<char>, pat: Seq<char>, i: int) -> int
    decreases s.len() + 1 - i,
{
    if i < 0 || i > s.len() {
        s.len() + 1int
    } else if occurs_at(s, pat, i) {
        i
    } else {
        first_occurrence_from(s, pat, i + 1)
    }
}

/// `str::find` with a string pattern: the first position where `pat` occurs.
pub open spec fn find(s: Seq<char>, pat: Seq<char>) -> Option<int> {
    let i = first_occurrence_from(s, pat, 0);
    if i <= s.len() {
        Some(i)
    } else {
        None
    }
}

/// `str::contains` with a string pattern.
pub open spec fn contains(s: Seq<char>, pat: Seq<char>) -> bool {
    find(s, pat) is Some
}

pub proof fn lemma_first_occurrence_from(s: Seq<char>, pat: Seq<char>, i: int)
    requires
        0 <= i <= s.len() + 1,
    ensures
        ({
            let r = first_occurrence_from(s, pat, i);
            &&& i <= r <= s.len() + 1
            &&& r <= s.len() ==> occurs_at(s, pat, r)
            &&& forall|j: int| i <= j < r && j <= s.len() ==> !occurs_at(s, pat, j)
        }),
    decreases s.len() + 1 - i,
{
    if !occurs_at(s, pat, i) && i <= s.len() {
        lemma_first_occurrence_from(s, pat, i + 1);
    }
}

/// `pat` occurs at `j` and nowhere in `i..j`: the first occurrence from
/// `i` is at `j`.
pub proof fn lemma_first_occurrence_at(s: Seq<char>, pat: Seq<char>, i: int, j: int)
    requires
        0 <= i <= j,
        occurs_at(s, pat, j),
        forall|p: int| i <= p < j ==> !occurs_at(s, pat, p),
    ensures
        first_occurrence_from(s, pat, i) == j,
    decreases j - i,
{
    if i < j {
        lemma_first_occurrence_at(s, pat, i + 1, j);
    }
}

/// What `find` means: the first occurrence, or none at all.
pub proof fn lemma_find(s: Seq<char>, pat: Seq<char>)
    ensures
        find(s, pat) matches Some(i) ==> occurs_at(s, pat, i) && forall|j: int|
            0 <= j < i ==> !occurs_at(s, pat, j),
        find(s, pat) is None ==> forall|j: int| !occurs_at(s, pat, j),
{
    lemma_first_occurrence_from(s, pat, 0);
}

/// Whether `pat` occurs in `s` at position `i`.
pub fn chars_occur_at(s: &[char], pat: &[char], i: usize) -> (r: bool)
    ensures
        r == occurs_at(s@, pat@, i as int),
{
    if i > s.len() || pat.len() > s.len() - i {
        return false;
    }
    let mut k: usize = 0;
    while k < pat.len()
        invariant
            i + pat.len() <= s.len(),
            k <= pat.len(),
            forall|j: int| 0 <= j < k ==> s@[i + j] == pat@[j],
        decreases pat.len() - k,
    {
        if s[i + k] != pat[k] {
            assert(s@.subrange(i as int, i + pat.len())[k as int] != pat@[k as int]);
            return false;
        }
        k = k + 1;
    }
    assert(s@.subrange(i as int, i + pat.len()) =~= pat@);
    true
}

/// `str::find` with a string pattern, as a position in `s`.
pub fn find_chars(s: &[char], pat: &[char]) -> (r: Option<usize>)
    ensures
        r matches Some(i) ==> find(s@, pat@) == Some(i as int),
        r is None ==> find(s@, pat@) is None,
{
    let mut i: usize = 0;
    while i < s.len()
        invariant
            i <= s.len(),
            first_occurrence_from(s@, pat@, 0) == first_occurrence_from(s@, pat@, i as int),
        decreases s.len() - i,
    {
        if chars_occur_at(s, pat, i) {
            return Some(i);
        }
        i = i + 1;
    }
    if chars_occur_at(s, pat, i) {
        return Some(i);
    }
    assert(first_occurrence_from(s@, pat@, s.len() + 1) == s.len() + 1);
    None
}

/// `str::find` with a string pattern.
pub fn find_str(s: &[char], pat: &str) -> (r: Option<usize>)
    ensures
        r matches Some(i) ==> find(s@, pat@) == Some(i as int),
        r is None ==> find(s@, pat@) is None,
{
    let p = chars_of(pat);
    find_chars(s, &p)
}

/// `str::contains` with a string pattern.
pub fn contains_str(s: &[char], pat: &str) -> (r: bool)
    ensures
        r == contains(s@, pat@),
{
    find_str(s, pat).is_some()
}

/// `str::starts_with` with a string pattern.
pub fn starts_with_str(s: &[char], pat: &str) -> (r: bool)
    ensures
        r == starts_with(s@, pat@),
{
    let p = chars_of(pat);
    chars_occur_at(s, &p, 0)
}


// ---------------------------------------------------------------------------
// Character classes as patterns
// ---------------------------------------------------------------------------
/// A set of characters, used as the pattern of the splitting and trimming
/// operations below.
#[derive(Clone, Copy, Debug, PartialEq, Eq)]
pub enum CharClass {
    /// Exactly this character.
    Is(char),
    /// One of these two characters.
    Either(char, char),
    /// One of these three characters.
    OneOf(char, char, char),
    /// `char::is_whitespace`.
    Whitespace,
    /// Anything but an ASCII digit.
    NotAsciiDigit,
    /// A comma or `char::is_ascii_whitespace`.
    CommaOrAsciiWhitespace,
}

impl CharClass {
    pub open spec fn spec_has(self, c: char) -> bool {
        match self {
            CharClass::Is(a) => c == a,
            CharClass::Either(a, b) => c == a || c == b,
            CharClass::OneOf(a, b, d) => c == a || c == b || c == d,
            CharClass::Whitespace => is_whitespace(c),
            CharClass::NotAsciiDigit => !is_ascii_digit(c),
            CharClass::CommaOrAsciiWhitespace => c == ',' || is_ascii_whitespace(c),
        }
    }

    pub fn has(self, c: char) -> (r: bool)
        ensures
            r == self.spec_has(c),
    {
        match self {
            CharClass::Is(a) => c == a,
            CharClass::Either(a, b) => c == a || c == b,
            CharClass::OneOf(a, b, d) => c == a || c == b || c == d,
            CharClass::Whitespace => whitespace(c),
            CharClass::NotAsciiDigit => !ascii_digit(c),
            CharClass::CommaOrAsciiWhitespace => c == ',' || ascii_whitespace(c),
        }
    }
}

/// The first position at or after `i` holding a character of `k`, or `s.len()`.
pub open spec fn first_in_from(s: Seq<char>, k: CharClass, i: int) -> int
    decreases s.len() - i,
{
    if i < 0 || i >= s.len() {
        s.len() as int
    } else if k.spec_has(s[i]) {
        i
    } else {
        first_in_from(s, k, i + 1)
    }
}

/// `str::find` with a character pattern.
pub open spec fn find_in(s: Seq<char>, k: CharClass) -> Option<int> {
    let i = first_in_from(s, k, 0);
    if i < s.len() {
        Some(i)
    } else {
        None
    }
}

/// The last position before `i` holding a character of `k`, or `-1`.
pub open spec fn last_in_before(s: Seq<char>, k: CharClass, i: int) -> int
    decreases i,
{
    if i <= 0 || i > s.len() {
        -1
    } else if k.spec_has(s[i - 1]) {
        i - 1
    } else {
        last_in_before(s, k, i - 1)
    }
}

pub proof fn lemma_first_in_from(s: Seq<char>, k: CharClass, i: int)
    requires
        0 <= i <= s.len(),
    ensures
        ({
            let r = first_in_from(s, k, i);
            &&& i <= r <= s.len()
            &&& r < s.len() ==> k.spec_has(s[r])
            &&& forall|j: int| i <= j < r ==> !k.spec_has(#[trigger] s[j])
        }),
    decreases s.len() - i,
{
    if i < s.len() && !k.spec_has(s[i]) {
        lemma_first_in_from(s, k, i + 1);
    }
}

pub proof fn lemma_last_in_before(s: Seq<char>, k: CharClass, i: int)
    requires
        0 <= i <= s.len(),
    ensures
        ({
            let r = last_in_before(s, k, i);
            &&& -1 <= r < i
            &&& r >= 0 ==> k.spec_has(s[r])
            &&& forall|j: int| r < j < i ==> !k.spec_has(#[trigger] s[j])
        }),
    decreases i,
{
    if i > 0 && !k.spec_has(s[i - 1]) {
        lemma_last_in_before(s, k, i - 1);
    }
}

/// The first position in `lo..hi` holding a character of `k`, or `hi`.
pub fn first_in(s: &[char], k: CharClass, lo: usize, hi: usize) -> (r: usize)
    requires
        lo <= hi <= s.len(),
    ensures
        first_in_from(s@.subrange(lo as int, hi as int), k, 0) == r - lo,
        lo <= r <= hi,
{
    let ghost t = s@.subrange(lo as int, hi as int);
    let mut i: usize = lo;
    while i < hi
        invariant
            lo <= i <= hi <= s.len(),
            t == s@.subrange(lo as int, hi as int),
            first_in_from(t, k, 0) == first_in_from(t, k, i - lo),
        decreases hi - i,
    {
        if k.has(s[i]) {
            return i;
        }
        i = i + 1;
    }
    i
}

/// The last position in `lo..hi` holding a character of `k`, or `None`.
pub fn last_in(s: &[char], k: CharClass, lo: usize, hi: usize) -> (r: Option<usize>)
    requires
        lo <= hi <= s.len(),
    ensures
        r matches Some(i) ==> lo <= i < hi && last_in_before(
            s@.subrange(lo as int, hi as int),
            k,
            hi - lo,
        ) == i - lo,
        r is None ==> last_in_before(s@.subrange(lo as int, hi as int), k, hi - lo) == -1,
{
    let ghost t = s@.subrange(lo as int, hi as int);
    let mut i: usize = hi;
    while i > lo
        invariant
            lo <= i <= hi <= s.len(),
            t == s@.subrange(lo as int, hi as int),
            last_in_before(t, k, hi - lo) == last_in_before(t, k, i - lo),
        decreases i,
    {
        if k.has(s[i - 1]) {
            return Some(i - 1);
        }
        i = i - 1;
    }
    None
}

// ---------------------------------------------------------------------------
// Trimming
// ---------------------------------------------------------------------------
/// `str::trim_start_matches` with a character-class pattern.
pub open spec fn trim_start_in(s: Seq<char>, k: CharClass) -> Seq<char>
    decreases s.len(),
{
    if s.len() > 0 && k.spec_has(s[0]) {
        trim_start_in(s.drop_first(), k)
    } else {
        s
    }
}

/// `str::trim_end_matches` with a character-class pattern.
pub open spec fn trim_end_in(s: Seq<char>, k: CharClass) -> Seq<char>
    decreases s.len(),
{
    if s.len() > 0 && k.spec_has(s.last()) {
        trim_end_in(s.drop_last(), k)
    } else {
        s
    }
}

/// What `trim_end_in` leaves: a prefix of `s`, after which every character
/// is in the class.
pub proof fn lemma_trim_end_in(s: Seq<char>, k: CharClass) -> (n: int)
    ensures
        0 <= n <= s.len(),
        trim_end_in(s, k) == s.take(n),
        forall|j: int| n <= j < s.len() ==> k.spec_has(#[trigger] s[j]),
    decreases s.len(),
{
    if s.len() > 0 && k.spec_has(s.last()) {
        let n = lemma_trim_end_in(s.drop_last(), k);
        assert(s.drop_last().take(n) =~= s.take(n));
        assert forall|j: int| n <= j < s.len() implies k.spec_has(#[trigger] s[j]) by {
            if j < s.len() - 1 {
                assert(s.drop_last()[j] == s[j]);
            }
        }
        n
    } else {
        assert(s.take(s.len() as int) =~= s);
        s.len() as int
    }
}

/// `str::trim`: whitespace removed at both ends.
pub open spec fn trim(s: Seq<char>) -> Seq<char> {
    trim_start_in(trim_end_in(s, CharClass::Whitespace), CharClass::Whitespace)
}

/// The start of `s[lo..hi]` once leading characters of `k` are removed.
pub fn trim_start_pos(s: &[char], k: CharClass, lo: usize, hi: usize) -> (r: usize)
    requires
        lo <= hi <= s.len(),
    ensures
        lo <= r <= hi,
        trim_start_in(s@.subrange(lo as int, hi as int), k) == s@.subrange(r as int, hi as int),
{
    let mut i: usize = lo;
    while i < hi && k.has(s[i])
        invariant
            lo <= i <= hi <= s.len(),
            trim_start_in(s@.subrange(lo as int, hi as int), k) == trim_start_in(
                s@.subrange(i as int, hi as int),
                k,
            ),
        decreases hi - i,
    {
        assert(s@.subrange(i as int, hi as int).drop_first() =~= s@.subrange(i + 1, hi as int));
        i = i + 1;
    }
    i
}

/// The end of `s[lo..hi]` once trailing characters of `k` are removed.
pub fn trim_end_pos(s: &[char], k: CharClass, lo: usize, hi: usize) -> (r: usize)
    requires
        lo <= hi <= s.len(),
    ensures
        lo <= r <= hi,
        trim_end_in(s@.subrange(lo as int, hi as int), k) == s@.subrange(lo as int, r as int),
{
    let mut i: usize = hi;
    while i > lo && k.has(s[i - 1])
        invariant
            lo <= i <= hi <= s.len(),
            trim_end_in(s@.subrange(lo as int, hi as int), k) == trim_end_in(
                s@.subrange(lo as int, i as int),
                k,
            ),
        decreases i,
    {
        assert(s@.subrange(lo as int, i as int).drop_last() =~= s@.subrange(lo as int, i - 1));
        i = i - 1;
    }
    i
}

/// The bounds of `str::trim` applied to `s[lo..hi]`.
pub fn trim_pos(s: &[char], lo: usize, hi: usize) -> (r: (usize, usize))
    requires
        lo <= hi <= s.len(),
    ensures
        lo <= r.0 <= r.1 <= hi,
        trim(s@.subrange(lo as int, hi as int)) == s@.subrange(r.0 as int, r.1 as int),
{
    let e = trim_end_pos(s, CharClass::Whitespace, lo, hi);
    let b = trim_start_pos(s, CharClass::Whitespace, lo, e);
    (b, e)
}

// ---------------------------------------------------------------------------
// Splitting
// ---------------------------------------------------------------------------
/// `str::split` with a character-class pattern.
pub open spec fn split_in(s: Seq<char>, k: CharClass) -> Seq<Seq<char>>
    decreases s.len(),
{
    let i = first_in_from(s, k, 0);
    if i >= s.len() {
        seq![s]
    } else {
        proof {
            lemma_first_in_from(s, k, 0);
        }
        seq![s.take(i)] + split_in(s.skip(i + 1), k)
    }
}

/// `str::splitn` with a character-class pattern: at most `n` pieces, the last
/// one holding the rest of `s`.
pub open spec fn splitn_in(s: Seq<char>, n: nat, k: CharClass) -> Seq<Seq<char>>
    decreases s.len(),
{
    if n == 0 {
        seq![]
    } else if n == 1 {
        seq![s]
    } else {
        let i = first_in_from(s, k, 0);
        if i >= s.len() {
            seq![s]
        } else {
            proof {
                lemma_first_in_from(s, k, 0);
            }
            seq![s.take(i)] + splitn_in(s.skip(i + 1), (n - 1) as nat, k)
        }
    }
}

/// `str::split_once` with a character-class pattern.
pub open spec fn split_once_in(s: Seq<char>, k: CharClass) -> Option<(Seq<char>, Seq<char>)> {
    let i = first_in_from(s, k, 0);
    if i < s.len() {
        Some((s.take(i), s.skip(i + 1)))
    } else {
        None
    }
}

/// Text that neither starts nor ends with whitespace is its own `trim`.
pub proof fn lemma_trim_unchanged(s: Seq<char>)
    requires
        s.len() > 0,
        !is_whitespace(s[0]),
        !is_whitespace(s.last()),
    ensures
        trim(s) == s,
{
}

/// No character of `k` in `s[i..j]`, one at `j`: the first from `i` is at `j`.
pub proof fn lemma_first_in_from_at(s: Seq<char>, k: CharClass, i: int, j: int)
    requires
        0 <= i <= j < s.len(),
        k.spec_has(s[j]),
        forall|p: int| i <= p < j ==> !k.spec_has(#[trigger] s[p]),
    ensures
        first_in_from(s, k, i) == j,
    decreases j - i,
{
    if i < j {
        lemma_first_in_from_at(s, k, i + 1, j);
    }
}

/// `a`, a character of `k`, then `b`, where `a` holds none of `k`: it
/// splits once into `a` and `b`.
pub proof fn lemma_split_once_at(a: Seq<char>, c: char, b: Seq<char>, k: CharClass)
    requires
        k.spec_has(c),
        forall|p: int| 0 <= p < a.len() ==> !k.spec_has(#[trigger] a[p]),
    ensures
        split_once_in(a + seq![c] + b, k) == Some((a, b)),
{
    let s = a + seq![c] + b;
    assert forall|p: int| 0 <= p < a.len() implies !k.spec_has(#[trigger] s[p]) by {
        assert(s[p] == a[p]);
    }
    assert(s[a.len() as int] == c);
    lemma_first_in_from_at(s, k, 0, a.len() as int);
    assert(s.take(a.len() as int) =~= a);
    assert(s.skip(a.len() as int + 1) =~= b);
}

/// Text without a character of `k` splits into itself alone.
pub proof fn lemma_split_in_none(s: Seq<char>, k: CharClass)
    requires
        forall|p: int| 0 <= p < s.len() ==> !k.spec_has(#[trigger] s[p]),
    ensures
        split_in(s, k) == seq![s],
{
    lemma_first_in_from(s, k, 0);
}

/// `a`, a character of `k`, then `b`, where `a` holds none of `k`: it
/// splits into `a` and the pieces of `b`.
pub proof fn lemma_split_in_at(a: Seq<char>, c: char, b: Seq<char>, k: CharClass)
    requires
        k.spec_has(c),
        forall|p: int| 0 <= p < a.len() ==> !k.spec_has(#[trigger] a[p]),
    ensures
        split_in(a + seq![c] + b, k) == seq![a] + split_in(b, k),
{
    let s = a + seq![c] + b;
    assert forall|p: int| 0 <= p < a.len() implies !k.spec_has(#[trigger] s[p]) by {
        assert(s[p] == a[p]);
    }
    assert(s[a.len() as int] == c);
    lemma_first_in_from_at(s, k, 0, a.len() as int);
    assert(s.take(a.len() as int) =~= a);
    assert(s.skip(a.len() as int + 1) =~= b);
}

/// `str::rsplit_once` with a character-class pattern.
pub open spec fn rsplit_once_in(s: Seq<char>, k: CharClass) -> Option<(Seq<char>, Seq<char>)> {
    let i = last_in_before(s, k, s.len() as int);
    if i >= 0 {
        Some((s.take(i), s.skip(i + 1)))
    } else {
        None
    }
}

/// A piece of a character vector, by its bounds.
pub struct Span {
    pub lo: usize,
    pub hi: usize,
}

/// The text of the spans `v` within `s`.
pub open spec fn spans_view(s: Seq<char>, v: Seq<Span>) -> Seq<Seq<char>> {
    Seq::new(v.len(), |j: int| s.subrange(v[j].lo as int, v[j].hi as int))
}

pub open spec fn spans_in(s: Seq<char>, v: Seq<Span>, lo: int, hi: int) -> bool {
    forall|j: int| 0 <= j < v.len() ==> lo <= #[trigger] v[j].lo <= v[j].hi <= hi
}

/// `str::splitn` applied to `s[lo..hi]`, as spans of `s`.
pub fn splitn_spans(s: &[char], n: usize, k: CharClass, lo: usize, hi: usize) -> (r: Vec<Span>)
    requires
        lo <= hi <= s.len(),
    ensures
        spans_in(s@, r@, lo as int, hi as int),
        spans_view(s@, r@) == splitn_in(s@.subrange(lo as int, hi as int), n as nat, k),
{
    let mut r: Vec<Span> = Vec::new();
    if n == 0 {
        assert(spans_view(s@, r@) =~= Seq::<Seq<char>>::empty());
        return r;
    }
    let mut start: usize = lo;
    let mut left: usize = n;
    loop
        invariant
            lo <= start <= hi <= s.len(),
            1 <= left <= n,
            spans_in(s@, r@, lo as int, start as int),
            spans_view(s@, r@) + splitn_in(s@.subrange(start as int, hi as int), left as nat, k)
                == splitn_in(s@.subrange(lo as int, hi as int), n as nat, k),
        decreases left,
    {
        let ghost t = s@.subrange(start as int, hi as int);
        let ghost old_r = r@;
        let i = if left > 1 {
            first_in(s, k, start, hi)
        } else {
            hi
        };
        if i >= hi {
            r.push(Span { lo: start, hi });
            assert(spans_view(s@, r@) =~= spans_view(s@, old_r).push(t));
            return r;
        }
        proof {
            assert(t.take(i - start) =~= s@.subrange(start as int, i as int));
            assert(t.skip(i - start + 1) =~= s@.subrange(i + 1, hi as int));
        }
        r.push(Span { lo: start, hi: i });
        assert(spans_view(s@, r@) =~= spans_view(s@, old_r).push(
            s@.subrange(start as int, i as int),
        ));
        start = i + 1;
        left = left - 1;
    }
}

/// `str::split` applied to `s[lo..hi]`, as spans of `s`.
pub fn split_spans(s: &[char], k: CharClass, lo: usize, hi: usize) -> (r: Vec<Span>)
    requires
        lo <= hi <= s.len(),
    ensures
        spans_in(s@, r@, lo as int, hi as int),
        spans_view(s@, r@) == split_in(s@.subrange(lo as int, hi as int), k),
{
    let mut r: Vec<Span> = Vec::new();
    let mut start: usize = lo;
    loop
        invariant
            lo <= start <= hi <= s.len(),
            spans_in(s@, r@, lo as int, start as int),
            spans_view(s@, r@) + split_in(s@.subrange(start as int, hi as int), k) == split_in(
                s@.subrange(lo as int, hi as int),
                k,
            ),
        decreases hi - start,
    {
        let i = first_in(s, k, start, hi);
        let ghost t = s@.subrange(start as int, hi as int);
        let ghost old_r = r@;
        if i >= hi {
            r.push(Span { lo: start, hi });
            assert(spans_view(s@, r@) =~= spans_view(s@, old_r).push(t));
            return r;
        }
        proof {
            assert(t.take(i - start) =~= s@.subrange(start as int, i as int));
            assert(t.skip(i - start + 1) =~= s@.subrange(i + 1, hi as int));
        }
        r.push(Span { lo: start, hi: i });
        assert(spans_view(s@, r@) =~= spans_view(s@, old_r).push(
            s@.subrange(start as int, i as int),
        ));
        start = i + 1;
    }
}

/// A line without the carriage return that ends it, if any.
pub open spec fn strip_cr(l: Seq<char>) -> Seq<char> {
    if l.len() > 0 && l.last() == '\r' {
        l.drop_last()
    } else {
        l
    }
}

/// `str::lines`: the pieces between line feeds, each without a carriage
/// return just before its line feed; a final empty piece is no line.
pub open spec fn lines(s: Seq<char>) -> Seq<Seq<char>>
    decreases s.len(),
{
    if s.len() == 0 {
        seq![]
    } else {
        let i = first_in_from(s, CharClass::Is('\n'), 0);
        if i >= s.len() {
            seq![s]
        } else {
            proof {
                lemma_first_in_from(s, CharClass::Is('\n'), 0);
            }
            seq![strip_cr(s.take(i))] + lines(s.skip(i + 1))
        }
    }
}

/// The lines of text that ends with a line feed, then more text, are the
/// lines of each.
pub proof fn lemma_lines_append(a: Seq<char>, b: Seq<char>)
    requires
        a.len() == 0 || a.last() == '\n',
    ensures
        lines(a + b) == lines(a) + lines(b),
    decreases a.len(),
{
    if a.len() == 0 {
        assert(a + b =~= b);
        assert(lines(a) =~= Seq::<Seq<char>>::empty());
        assert(lines(a) + lines(b) =~= lines(b));
    } else {
        let nl = CharClass::Is('\n');
        let s = a + b;
        lemma_first_in_from(a, nl, 0);
        let i = first_in_from(a, nl, 0);
        if i >= a.len() {
            assert(nl.spec_has(a[a.len() - 1]));
            assert(false);
        }
        assert forall|p: int| 0 <= p < i implies !nl.spec_has(#[trigger] s[p]) by {
            assert(s[p] == a[p]);
        }
        assert(s[i] == a[i]);
        lemma_first_in_from_at(s, nl, 0, i);
        assert(s.take(i) =~= a.take(i));
        let rest = a.skip(i + 1);
        assert(s.skip(i + 1) =~= rest + b);
        assert(rest.len() == 0 || rest.last() == '\n') by {
            if rest.len() > 0 {
                assert(rest.last() == a.last());
            }
        }
        lemma_lines_append(rest, b);
        assert(lines(a + b) =~= lines(a) + lines(b));
    }
}

/// A line without line breaks, ended by a line feed or a carriage return
/// and line feed, is that one line.
pub proof fn lemma_lines_single(l: Seq<char>, ending: Seq<char>)
    requires
        free_of(l, '\n'),
        free_of(l, '\r'),
        ending == seq!['\n'] || ending == seq!['\r', '\n'],
    ensures
        lines(l + ending) == seq![l],
{
    let nl = CharClass::Is('\n');
    let s = l + ending;
    let i = s.len() - 1;
    assert forall|p: int| 0 <= p < i implies !nl.spec_has(#[trigger] s[p]) by {
        if p < l.len() {
            assert(s[p] == l[p]);
        }
    }
    lemma_first_in_from_at(s, nl, 0, i);
    assert(s.skip(i + 1) =~= Seq::<char>::empty());
    if ending == seq!['\n'] {
        assert(s.take(i) =~= l);
        if l.len() > 0 {
            assert(l.last() != '\r');
        }
    } else {
        assert(s.take(i) =~= l.push('\r'));
        assert(l.push('\r').drop_last() =~= l);
    }
    assert(strip_cr(s.take(i)) == l);
    assert(lines(s.skip(i + 1)) =~= Seq::<Seq<char>>::empty());
    assert(lines(s) == seq![strip_cr(s.take(i))] + lines(s.skip(i + 1)));
    assert(lines(s) =~= seq![l]);
}

/// `str::lines` applied to `s`, as spans of `s`.
pub fn line_spans(s: &[char]) -> (r: Vec<Span>)
    ensures
        spans_in(s@, r@, 0, s@.len() as int),
        spans_view(s@, r@) == lines(s@),
{
    let mut r: Vec<Span> = Vec::new();
    let mut start: usize = 0;
    assert(s@.subrange(0, s@.len() as int) =~= s@);
    while start < s.len()
        invariant
            start <= s.len(),
            spans_in(s@, r@, 0, start as int),
            spans_view(s@, r@) + lines(s@.subrange(start as int, s@.len() as int)) == lines(s@),
        decreases s.len() - start,
    {
        let ghost t = s@.subrange(start as int, s@.len() as int);
        let ghost old_r = r@;
        let i = first_in(s, CharClass::Is('\n'), start, s.len());
        if i >= s.len() {
            r.push(Span { lo: start, hi: s.len() });
            assert(spans_view(s@, r@) =~= spans_view(s@, old_r).push(t));
            assert(s@.subrange(s@.len() as int, s@.len() as int) =~= Seq::<char>::empty());
            start = s.len();
        } else {
            let end = if i > start && s[i - 1] == '\r' {
                i - 1
            } else {
                i
            };
            proof {
                assert(t.take(i - start) =~= s@.subrange(start as int, i as int));
                assert(strip_cr(t.take(i - start)) =~= s@.subrange(start as int, end as int));
                assert(t.skip(i - start + 1) =~= s@.subrange(i + 1, s@.len() as int));
            }
            r.push(Span { lo: start, hi: end });
            assert(spans_view(s@, r@) =~= spans_view(s@, old_r).push(
                s@.subrange(start as int, end as int),
            ));
            start = i + 1;
        }
    }
    assert(lines(s@.subrange(start as int, s@.len() as int)) =~= Seq::<Seq<char>>::empty());
    assert(spans_view(s@, r@) + Seq::<Seq<char>>::empty() =~= spans_view(s@, r@));
    r
}

/// `str::replace`: every occurrence of `pat`, left to right and without
/// overlap, replaced by `rep`.
pub open spec fn replace(s: Seq<char>, pat: Seq<char>, rep: Seq<char>) -> Seq<char>
    decreases s.len(),
{
    if s.len() == 0 {
        seq![]
    } else if pat.len() > 0 && starts_with(s, pat) {
        rep + replace(s.skip(pat.len() as int), pat, rep)
    } else {
        seq![s[0]] + replace(s.drop_first(), pat, rep)
    }
}

/// `str::replace` on a character vector.
pub fn replace_chars(s: &[char], pat: &[char], rep: &[char]) -> (r: Vec<char>)
    requires
        pat.len() > 0,
    ensures
        r@ == replace(s@, pat@, rep@),
{
    let mut out: Vec<char> = Vec::new();
    let mut i: usize = 0;
    assert(s@.skip(0) =~= s@);
    while i < s.len()
        invariant
            i <= s.len(),
            pat.len() > 0,
            out@ + replace(s@.skip(i as int), pat@, rep@) == replace(s@, pat@, rep@),
        decreases s.len() - i,
    {
        let ghost t = s@.skip(i as int);
        let ghost old_out = out@;
        if chars_occur_at(s, pat, i) {
            assert(t.subrange(0, pat@.len() as int) =~= s@.subrange(i as int, i + pat@.len()));
            assert(t.skip(pat@.len() as int) =~= s@.skip(i + pat@.len()));
            push_all(&mut out, rep);
            assert(out@ + replace(s@.skip(i + pat@.len()), pat@, rep@) =~= old_out + (rep@
                + replace(t.skip(pat@.len() as int), pat@, rep@)));
            i = i + pat.len();
        } else {
            assert(!starts_with(t, pat@)) by {
                if t.len() >= pat@.len() {
                    assert(t.subrange(0, pat@.len() as int) =~= s@.subrange(
                        i as int,
                        i + pat@.len(),
                    ));
                }
            }
            assert(t.drop_first() =~= s@.skip(i + 1));
            out.push(s[i]);
            assert(out@ + replace(s@.skip(i + 1), pat@, rep@) =~= old_out + (seq![t[0]]
                + replace(t.drop_first(), pat@, rep@)));
            i = i + 1;
        }
    }
    assert(s@.skip(i as int) =~= Seq::<char>::empty());
    assert(out@ + Seq::<char>::empty() =~= out@);
    out
}

/// `str::strip_prefix` with a string pattern.
pub open spec fn strip_prefix(s: Seq<char>, pat: Seq<char>) -> Option<Seq<char>> {
    if starts_with(s, pat) {
        Some(s.skip(pat.len() as int))
    } else {
        None
    }
}

/// `str::strip_suffix` with a string pattern.
pub open spec fn strip_suffix(s: Seq<char>, pat: Seq<char>) -> Option<Seq<char>> {
    if ends_with(s, pat) {
        Some(s.take(s.len() - pat.len()))
    } else {
        None
    }
}

/// Whether `s[lo..hi]` starts with the text `pat`.
pub fn range_starts_with(s: &[char], lo: usize, hi: usize, pat: &str) -> (r: bool)
    requires
        lo <= hi <= s.len(),
    ensures
        r == starts_with(s@.subrange(lo as int, hi as int), pat@),
{
    let p = chars_of(pat);
    if p.len() > hi - lo {
        return false;
    }
    let r = chars_occur_at(s, &p, lo);
    assert(s@.subrange(lo as int, hi as int).subrange(0, p@.len() as int) =~= s@.subrange(
        lo as int,
        lo + p@.len(),
    ));
    r
}

/// Whether `s[lo..hi]` contains the text `pat`.
pub fn range_contains(s: &[char], lo: usize, hi: usize, pat: &str) -> (r: bool)
    requires
        lo <= hi <= s.len(),
    ensures
        r == contains(s@.subrange(lo as int, hi as int), pat@),
{
    let v = copy_range(s, lo, hi);
    contains_str(&v, pat)
}

/// A copy of `s[lo..hi]`.
pub fn copy_range(s: &[char], lo: usize, hi: usize) -> (r: Vec<char>)
    requires
        lo <= hi <= s.len(),
    ensures
        r@ == s@.subrange(lo as int, hi as int),
{
    let mut r: Vec<char> = Vec::new();
    push_range(&mut r, s, lo, hi);
    r
}

/// Whether the text of `s[lo..hi]` equals `pat`.
pub fn range_eq(s: &[char], lo: usize, hi: usize, pat: &str) -> (r: bool)
    requires
        lo <= hi <= s.len(),
    ensures
        r == (s@.subrange(lo as int, hi as int) == pat@),
{
    let p = chars_of(pat);
    if p.len() != hi - lo {
        return false;
    }
    let r = chars_occur_at(s, &p, lo);
    r
}

// ---------------------------------------------------------------------------
// Bytes as text
// ---------------------------------------------------------------------------
/// `std::str::from_utf8`: the text of `bytes` exactly when they are valid
/// UTF-8, as that function's documentation states.
#[verifier::external_body]
pub(crate) fn utf8_text(bytes: &[u8]) -> (r: Option<String>)
    ensures
        r is Some <==> valid_utf8(bytes@),
        r matches Some(s) ==> s@ == decode_utf8(bytes@),
{
    std::str::from_utf8(bytes).ok().map(|s| s.to_string())
}

/// What `String::from_utf8_lossy` makes of `bytes`: the decoded text, with
/// each invalid sequence replaced by U+FFFD.
pub uninterp spec fn spec_utf8_lossy(bytes: Seq<u8>) -> Seq<char>;

/// `String::from_utf8_lossy`. Its contract names the result, and states what
/// the documentation gives plainly: valid UTF-8 is decoded as it is. Where
/// the replacement characters go is left to the name.
#[verifier::external_body]
pub(crate) fn utf8_lossy(bytes: &[u8]) -> (r: String)
    ensures
        r@ == spec_utf8_lossy(bytes@),
        valid_utf8(bytes@) ==> r@ == decode_utf8(bytes@),
{
    String::from_utf8_lossy(bytes).into_owned()
}

} // verus!
