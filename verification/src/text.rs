//! Character-level text operations on sequences of `char`, with the meaning
//! that the standard library gives them on `str`.
use vstd::prelude::*;

verus! {

/// The characters of `s`, in order.
pub fn chars_of(s: &str) -> (v: Vec<char>)
    ensures
        v@ == s@,
{
    let mut v: Vec<char> = Vec::new();
    for c in it: s.chars()
        invariant
            v@ == it.seq().take(it.index() as int),
            it.seq() == s@,
    {
        v.push(c);
    }
    v
}

/// `String::from_iter` over characters.
#[verifier::external_body]
pub(crate) fn string_of(v: &[char]) -> (s: String)
    ensures
        s@ == v@,
{
    v.iter().collect()
}

/// `char::to_ascii_lowercase`: `'A'..='Z'` to `'a'..='z'`, every other
/// character unchanged.
pub open spec fn ascii_lower(c: char) -> char {
    if 'A' <= c <= 'Z' {
        ((c as u32) + 32) as char
    } else {
        c
    }
}

pub fn to_ascii_lower(c: char) -> (r: char)
    ensures
        r == ascii_lower(c),
{
    if 'A' <= c && c <= 'Z' {
        ((c as u8) + 32) as char
    } else {
        c
    }
}

/// `str::eq_ignore_ascii_case`: equal once ASCII letters are folded to
/// lower case.
pub open spec fn eq_ignore_case(a: Seq<char>, b: Seq<char>) -> bool {
    &&& a.len() == b.len()
    &&& forall|i: int| 0 <= i < a.len() ==> ascii_lower(#[trigger] a[i]) == ascii_lower(b[i])
}

pub fn eq_ignore_ascii_case(a: &[char], b: &[char]) -> (r: bool)
    ensures
        r == eq_ignore_case(a@, b@),
{
    if a.len() != b.len() {
        return false;
    }
    let mut i: usize = 0;
    while i < a.len()
        invariant
            a@.len() == b@.len(),
            i <= a@.len(),
            forall|k: int| 0 <= k < i ==> ascii_lower(#[trigger] a@[k]) == ascii_lower(b@[k]),
        decreases a@.len() - i,
    {
        if to_ascii_lower(a[i]) != to_ascii_lower(b[i]) {
            return false;
        }
        i = i + 1;
    }
    true
}

/// `char::is_whitespace`: the characters with the Unicode `White_Space`
/// property.
pub open spec fn is_white(c: char) -> bool {
    ||| c == ' '
    ||| '\x09' <= c <= '\x0d'
    ||| c == '\u{85}'
    ||| c == '\u{a0}'
    ||| c == '\u{1680}'
    ||| '\u{2000}' <= c <= '\u{200a}'
    ||| c == '\u{2028}'
    ||| c == '\u{2029}'
    ||| c == '\u{202f}'
    ||| c == '\u{205f}'
    ||| c == '\u{3000}'
}

/// A set of characters that a trim removes.
#[derive(Clone, Copy, Debug)]
pub enum Trimmed {
    /// `char::is_whitespace`, as `str::trim` uses it.
    Whitespace,
    /// One given character, as `str::trim_matches(c)` uses it.
    Only(char),
}

pub open spec fn trimmed_by(set: Trimmed, c: char) -> bool {
    match set {
        Trimmed::Whitespace => is_white(c),
        Trimmed::Only(d) => c == d,
    }
}

pub fn is_trimmed_by(set: Trimmed, c: char) -> (r: bool)
    ensures
        r == trimmed_by(set, c),
{
    match set {
        Trimmed::Whitespace => {
            c == ' ' || ('\x09' <= c && c <= '\x0d') || c == '\u{85}' || c == '\u{a0}' || c
                == '\u{1680}' || ('\u{2000}' <= c && c <= '\u{200a}') || c == '\u{2028}' || c
                == '\u{2029}' || c == '\u{202f}' || c == '\u{205f}' || c == '\u{3000}'
        },
        Trimmed::Only(d) => c == d,
    }
}

/// `s` without its leading characters of `set`.
pub open spec fn strip_front(s: Seq<char>, set: Trimmed) -> Seq<char>
    decreases s.len(),
{
    if s.len() > 0 && trimmed_by(set, s[0]) {
        strip_front(s.drop_first(), set)
    } else {
        s
    }
}

/// `s` without its trailing characters of `set`.
pub open spec fn strip_back(s: Seq<char>, set: Trimmed) -> Seq<char>
    decreases s.len(),
{
    if s.len() > 0 && trimmed_by(set, s.last()) {
        strip_back(s.drop_last(), set)
    } else {
        s
    }
}

/// Proof that trimming stops at a first and last character outside the set.
pub proof fn lemma_strip_keeps(s: Seq<char>, set: Trimmed)
    requires
        s.len() > 0,
        !trimmed_by(set, s[0]),
        !trimmed_by(set, s.last()),
    ensures
        strip(s, set) == s,
{
}

/// Proof that trimming leaves a text without characters of the set as it is.
pub proof fn lemma_strip_none(x: Seq<char>, set: Trimmed)
    requires
        forall|i: int| 0 <= i < x.len() ==> !trimmed_by(set, #[trigger] x[i]),
    ensures
        strip(x, set) == x,
{
    if x.len() > 0 {
        assert(!trimmed_by(set, x[0]));
        assert(!trimmed_by(set, x[x.len() - 1]));
    }
}

/// Proof that trimming `c` from a text wrapped in one `c` on each side, and
/// holding no `c` itself, gives the text.
pub proof fn lemma_strip_wrapped(x: Seq<char>, c: char)
    requires
        forall|i: int| 0 <= i < x.len() ==> #[trigger] x[i] != c,
    ensures
        strip(seq![c] + x + seq![c], Trimmed::Only(c)) == x,
{
    let set = Trimmed::Only(c);
    let w = seq![c] + x + seq![c];
    assert(w[0] == c);
    assert(w.drop_first() =~= x + seq![c]);
    let y = x + seq![c];
    if x.len() > 0 {
        assert(y[0] == x[0]);
        assert(strip_front(y, set) == y);
        assert(y.last() == c);
        assert(y.drop_last() =~= x);
        assert(x.last() == x[x.len() - 1]);
        assert(strip_back(x, set) == x);
    } else {
        assert(y =~= seq![c]);
        assert(y.drop_first() =~= Seq::<char>::empty());
        assert(strip_front(Seq::<char>::empty(), set) == Seq::<char>::empty());
        assert(strip_front(y, set) =~= Seq::<char>::empty());
        assert(strip_back(Seq::<char>::empty(), set) == Seq::<char>::empty());
        assert(x =~= Seq::<char>::empty());
    }
}

/// Proof that leading characters of the set in front of `x` are trimmed
/// away.
pub proof fn lemma_strip_front_skips(w: Seq<char>, x: Seq<char>, set: Trimmed)
    requires
        forall|i: int| 0 <= i < w.len() ==> trimmed_by(set, #[trigger] w[i]),
    ensures
        strip_front(w + x, set) == strip_front(x, set),
    decreases w.len(),
{
    if w.len() > 0 {
        assert((w + x).drop_first() =~= w.drop_first() + x);
        assert((w + x)[0] == w[0]);
        lemma_strip_front_skips(w.drop_first(), x, set);
    } else {
        assert(w + x =~= x);
    }
}

/// `n` copies of `c`.
pub open spec fn repeated(c: char, n: nat) -> Seq<char> {
    Seq::new(n, |i: int| c)
}

/// Proof that trimming `c` from the back removes padding made of `c` and
/// stops at the last character of `s`, which is not `c`.
pub proof fn lemma_strip_back_padding(s: Seq<char>, c: char, n: nat)
    requires
        s.len() > 0,
        s.last() != c,
    ensures
        strip_back(s + repeated(c, n), Trimmed::Only(c)) == s,
    decreases n,
{
    let t = s + repeated(c, n);
    if n == 0 {
        assert(t =~= s);
    } else {
        assert(t.last() == c);
        assert(t.drop_last() =~= s + repeated(c, (n - 1) as nat));
        lemma_strip_back_padding(s, c, (n - 1) as nat);
    }
}

/// Proof that `match_from` from `i` finds `h` when `needle` occurs at `h` and
/// nowhere in between.
pub proof fn lemma_match_from_is(hay: Seq<char>, needle: Seq<char>, i: int, h: int)
    requires
        0 <= i <= h,
        occurs_at(hay, needle, h),
        forall|k: int| i <= k < h ==> !#[trigger] occurs_at(hay, needle, k),
    ensures
        match_from(hay, needle, i) == Some(h),
    decreases h - i,
{
    if i < h {
        lemma_match_from_is(hay, needle, i + 1, h);
    }
}

/// `str::trim` (for `Whitespace`) and `str::trim_matches(c)` (for `Only(c)`):
/// `s` without its leading and trailing characters of `set`.
pub open spec fn strip(s: Seq<char>, set: Trimmed) -> Seq<char> {
    strip_back(strip_front(s, set), set)
}

pub fn trim(s: &[char], set: Trimmed) -> (r: Vec<char>)
    ensures
        r@ == strip(s@, set),
{
    let n = s.len();
    let mut i: usize = 0;
    assert(s@.subrange(0, n as int) =~= s@);
    while i < n && is_trimmed_by(set, s[i])
        invariant
            n == s@.len(),
            i <= n,
            strip_front(s@, set) == strip_front(s@.subrange(i as int, n as int), set),
        decreases n - i,
    {
        assert(s@.subrange(i as int, n as int).drop_first() =~= s@.subrange(i + 1, n as int));
        i = i + 1;
    }
    assert(strip_front(s@, set) == s@.subrange(i as int, n as int));
    let mut j: usize = n;
    while j > i && is_trimmed_by(set, s[j - 1])
        invariant
            n == s@.len(),
            i <= j <= n,
            strip(s@, set) == strip_back(s@.subrange(i as int, j as int), set),
        decreases j,
    {
        assert(s@.subrange(i as int, j as int).drop_last() =~= s@.subrange(i as int, j - 1));
        j = j - 1;
    }
    let mut r: Vec<char> = Vec::new();
    let mut k: usize = i;
    while k < j
        invariant
            n == s@.len(),
            i <= k <= j <= n,
            r@ == s@.subrange(i as int, k as int),
        decreases j - k,
    {
        r.push(s[k]);
        assert(s@.subrange(i as int, k + 1) =~= s@.subrange(i as int, k as int).push(s@[k as int]));
        k = k + 1;
    }
    r
}

/// `needle` occurs in `hay` at index `i`.
pub open spec fn occurs_at(hay: Seq<char>, needle: Seq<char>, i: int) -> bool {
    0 <= i && i + needle.len() <= hay.len() && hay.subrange(i, i + needle.len()) == needle
}

/// The first index from `i` on at which `needle` occurs in `hay`.
pub open spec fn match_from(hay: Seq<char>, needle: Seq<char>, i: int) -> Option<int>
    decreases hay.len() + 1 - i,
{
    if i < 0 || i > hay.len() {
        None
    } else if occurs_at(hay, needle, i) {
        Some(i)
    } else {
        match_from(hay, needle, i + 1)
    }
}

/// The index of the first occurrence of `needle` in `hay`, as `str::find`
/// gives it.
pub open spec fn first_match(hay: Seq<char>, needle: Seq<char>) -> Option<int> {
    match_from(hay, needle, 0)
}

/// Proof that `match_from` finds an occurrence with none before it, or none.
pub proof fn lemma_match_from(hay: Seq<char>, needle: Seq<char>, i: int)
    requires
        0 <= i,
    ensures
        match match_from(hay, needle, i) {
            Some(j) => i <= j && occurs_at(hay, needle, j) && forall|k: int|
                i <= k < j ==> !#[trigger] occurs_at(hay, needle, k),
            None => forall|k: int| i <= k ==> !#[trigger] occurs_at(hay, needle, k),
        },
    decreases hay.len() + 1 - i,
{
    if i <= hay.len() && !occurs_at(hay, needle, i) {
        lemma_match_from(hay, needle, i + 1);
    }
}

pub fn matches_at(hay: &[char], needle: &[char], i: usize) -> (r: bool)
    requires
        i <= hay@.len(),
    ensures
        r == occurs_at(hay@, needle@, i as int),
{
    if needle.len() > hay.len() - i {
        return false;
    }
    let mut k: usize = 0;
    while k < needle.len()
        invariant
            i + needle@.len() <= hay@.len(),
            hay@.len() == hay.len(),
            k <= needle@.len(),
            forall|m: int| 0 <= m < k ==> hay@[i + m] == needle@[m],
        decreases needle@.len() - k,
    {
        if hay[i + k] != needle[k] {
            assert(hay@.subrange(i as int, i + needle@.len())[k as int] != needle@[k as int]);
            return false;
        }
        k = k + 1;
    }
    assert(hay@.subrange(i as int, i + needle@.len()) =~= needle@);
    true
}

/// `str::find` with a string pattern: the first index at which `needle` occurs.
pub fn find(hay: &[char], needle: &[char]) -> (r: Option<usize>)
    ensures
        r matches Some(i) ==> first_match(hay@, needle@) == Some(i as int),
        r is None ==> first_match(hay@, needle@) is None,
{
    let mut i: usize = 0;
    while i <= hay.len()
        invariant
            first_match(hay@, needle@) == match_from(hay@, needle@, i as int),
        decreases hay@.len() + 1 - i,
    {
        if matches_at(hay, needle, i) {
            return Some(i);
        }
        if i == hay.len() {
            assert(match_from(hay@, needle@, i + 1) is None);
            return None;
        }
        i = i + 1;
    }
    None
}

/// `str::starts_with` with a string pattern.
pub fn starts_with(s: &[char], prefix: &[char]) -> (r: bool)
    ensures
        r == occurs_at(s@, prefix@, 0),
{
    matches_at(s, prefix, 0)
}

/// `str::to_ascii_lowercase`.
pub open spec fn lower_all(s: Seq<char>) -> Seq<char> {
    s.map_values(|c: char| ascii_lower(c))
}

pub fn to_ascii_lowercase(s: &[char]) -> (r: Vec<char>)
    ensures
        r@ == lower_all(s@),
{
    let mut r: Vec<char> = Vec::new();
    let mut i: usize = 0;
    while i < s.len()
        invariant
            i <= s@.len(),
            r@ == lower_all(s@.take(i as int)),
        decreases s@.len() - i,
    {
        r.push(to_ascii_lower(s[i]));
        assert(lower_all(s@.take(i + 1)) =~= lower_all(s@.take(i as int)).push(ascii_lower(s@[i as int])));
        i = i + 1;
    }
    assert(s@.take(i as int) =~= s@);
    r
}

/// Whether `a` and `b` hold the same characters.
pub fn same_chars(a: &[char], b: &[char]) -> (r: bool)
    ensures
        r == (a@ == b@),
{
    if a.len() != b.len() {
        return false;
    }
    let mut i: usize = 0;
    while i < a.len()
        invariant
            a@.len() == b@.len(),
            i <= a@.len(),
            forall|k: int| 0 <= k < i ==> a@[k] == b@[k],
        decreases a@.len() - i,
    {
        if a[i] != b[i] {
            return false;
        }
        i = i + 1;
    }
    assert(a@ =~= b@);
    true
}

/// The characters of `s` from `lo` up to (not including) `hi`.
pub fn sub_chars(s: &[char], lo: usize, hi: usize) -> (r: Vec<char>)
    requires
        lo <= hi <= s@.len(),
    ensures
        r@ == s@.subrange(lo as int, hi as int),
{
    let mut r: Vec<char> = Vec::new();
    let mut k: usize = lo;
    while k < hi
        invariant
            lo <= k <= hi <= s@.len(),
            r@ == s@.subrange(lo as int, k as int),
        decreases hi - k,
    {
        r.push(s[k]);
        assert(s@.subrange(lo as int, k + 1) =~= s@.subrange(lo as int, k as int).push(s@[k as int]));
        k = k + 1;
    }
    r
}

/// Proof that a first match is an occurrence that fits in `hay`.
pub proof fn lemma_first_match_fits(hay: Seq<char>, needle: Seq<char>)
    ensures
        first_match(hay, needle) matches Some(i) ==> occurs_at(hay, needle, i) && 0 <= i && i
            + needle.len() <= hay.len(),
{
    lemma_match_from(hay, needle, 0);
}

} // verus!
