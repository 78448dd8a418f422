//! Text as sequences of characters: trimming, splitting, searching, decimal
//! numbers, ordering.
use vstd::prelude::*;

verus! {

broadcast use vstd::string::group_string_axioms;

// ---------------------------------------------------------------------------
// Searching
// ---------------------------------------------------------------------------

/// Where `c` first occurs in `s` at or after position `k`.
pub open spec fn position_from(s: Seq<char>, c: char, k: int) -> Option<int>
    decreases s.len() - k,
{
    if k < 0 || k >= s.len() {
        None
    } else if s[k] == c {
        Some(k)
    } else {
        position_from(s, c, k + 1)
    }
}

/// Where `c` first occurs in `s`.
pub open spec fn position(s: Seq<char>, c: char) -> Option<int> {
    position_from(s, c, 0)
}

/// Where `c` last occurs in the first `k` characters of `s`.
pub open spec fn last_position_in(s: Seq<char>, c: char, k: int) -> Option<int>
    decreases k,
{
    if k <= 0 || k > s.len() {
        None
    } else if s[k - 1] == c {
        Some(k - 1)
    } else {
        last_position_in(s, c, k - 1)
    }
}

/// Where `c` last occurs in `s`.
pub open spec fn last_position(s: Seq<char>, c: char) -> Option<int> {
    last_position_in(s, c, s.len() as int)
}

pub open spec fn starts_with(s: Seq<char>, p: Seq<char>) -> bool {
    &&& p.len() <= s.len()
    &&& s.subrange(0, p.len() as int) == p
}

pub open spec fn ends_with(s: Seq<char>, p: Seq<char>) -> bool {
    &&& p.len() <= s.len()
    &&& s.subrange(s.len() - p.len(), s.len() as int) == p
}

/// `p` occurs in `s` at position `i`.
pub open spec fn occurs_at(s: Seq<char>, p: Seq<char>, i: int) -> bool {
    &&& 0 <= i
    &&& i + p.len() <= s.len()
    &&& s.subrange(i, i + p.len()) == p
}

pub open spec fn contains(s: Seq<char>, p: Seq<char>) -> bool {
    exists|i: int| occurs_at(s, p, i)
}

pub proof fn lemma_position_from_bounds(s: Seq<char>, c: char, k: int)
    ensures
        match position_from(s, c, k) {
            Some(n) => k <= n < s.len() && s[n] == c && (forall|j: int| k <= j < n ==> s[j] != c),
            None => forall|j: int| 0 <= k <= j < s.len() ==> s[j] != c,
        },
    decreases s.len() - k,
{
    if 0 <= k < s.len() && s[k] != c {
        lemma_position_from_bounds(s, c, k + 1);
    }
}

pub proof fn lemma_last_position_in_bounds(s: Seq<char>, c: char, k: int)
    ensures
        match last_position_in(s, c, k) {
            Some(n) => 0 <= n < k <= s.len() && s[n] == c && (forall|j: int|
                n < j < k ==> s[j] != c),
            None => forall|j: int| 0 <= j < k <= s.len() ==> s[j] != c,
        },
    decreases k,
{
    if 0 < k <= s.len() && s[k - 1] != c {
        lemma_last_position_in_bounds(s, c, k - 1);
    }
}

/// The characters of a string, one by one.
pub fn chars_of(s: &str) -> (r: Vec<char>)
    ensures
        r@ == s@,
{
    let mut r: Vec<char> = Vec::new();
    for c in it: s.chars()
        invariant
            it.seq() == s@,
            r@ == s@.take(it.index()),
    {
        r.push(c);
        assert(r@ == s@.take(it.index() + 1));
    }
    assert(s@.take(s@.len() as int) == s@);
    r
}

/// First position of `c` in `cs`, looking from `from` on.
pub fn find_from(cs: &Vec<char>, c: char, from: usize) -> (r: Option<usize>)
    requires
        from <= cs@.len(),
    ensures
        match r {
            Some(n) => position_from(cs@, c, from as int) == Some(n as int),
            None => position_from(cs@, c, from as int) is None,
        },
{
    let mut k: usize = from;
    while k < cs.len()
        invariant
            from <= k <= cs@.len(),
            position_from(cs@, c, from as int) == position_from(cs@, c, k as int),
        decreases cs@.len() - k,
    {
        if cs[k] == c {
            return Some(k);
        }
        k = k + 1;
    }
    None
}

/// Last position of `c` in `cs`.
pub fn find_last(cs: &Vec<char>, c: char) -> (r: Option<usize>)
    ensures
        match r {
            Some(n) => last_position(cs@, c) == Some(n as int),
            None => last_position(cs@, c) is None,
        },
{
    let mut k: usize = cs.len();
    while k > 0
        invariant
            k <= cs@.len(),
            last_position(cs@, c) == last_position_in(cs@, c, k as int),
        decreases k,
    {
        if cs[k - 1] == c {
            return Some(k - 1);
        }
        k = k - 1;
    }
    None
}

/// Whether `p` occurs in `cs` at position `at`.
pub fn matches_at(cs: &Vec<char>, p: &Vec<char>, at: usize) -> (r: bool)
    ensures
        r == occurs_at(cs@, p@, at as int),
{
    if at > cs.len() || p.len() > cs.len() - at {
        return false;
    }
    let n: usize = cs.len();
    let mut k: usize = 0;
    while k < p.len()
        invariant
            n == cs@.len(),
            at + p@.len() <= n,
            k <= p@.len(),
            forall|j: int| 0 <= j < k ==> cs@[at + j] == p@[j],
        decreases p@.len() - k,
    {
        if cs[at + k] != p[k] {
            assert(cs@.subrange(at as int, at + p@.len())[k as int] == cs@[at + k]);
            return false;
        }
        k = k + 1;
    }
    assert(cs@.subrange(at as int, at + p@.len()) =~= p@);
    true
}

/// `str::starts_with` for a string pattern.
pub fn has_prefix(s: &str, p: &str) -> (r: bool)
    ensures
        r == starts_with(s@, p@),
{
    let cs = chars_of(s);
    let ps = chars_of(p);
    matches_at(&cs, &ps, 0)
}

/// `str::ends_with` for a string pattern.
pub fn has_suffix(s: &str, p: &str) -> (r: bool)
    ensures
        r == ends_with(s@, p@),
{
    let cs = chars_of(s);
    let ps = chars_of(p);
    if ps.len() > cs.len() {
        return false;
    }
    matches_at(&cs, &ps, cs.len() - ps.len())
}

/// `str::contains` for a string pattern.
pub fn has_text(s: &str, p: &str) -> (r: bool)
    ensures
        r == contains(s@, p@),
{
    let cs = chars_of(s);
    let ps = chars_of(p);
    let mut i: usize = 0;
    while i < cs.len()
        invariant
            cs@ == s@,
            ps@ == p@,
            i <= cs@.len(),
            forall|j: int| 0 <= j < i ==> !occurs_at(s@, p@, j),
        decreases cs@.len() - i,
    {
        if matches_at(&cs, &ps, i) {
            return true;
        }
        i = i + 1;
    }
    let r = matches_at(&cs, &ps, i);
    if !r {
        assert forall|j: int| !occurs_at(s@, p@, j) by {
            if j == i {
            }
        }
    }
    r
}

/// Whether two strings hold the same characters.
pub fn same_text(a: &str, b: &str) -> (r: bool)
    ensures
        r == (a@ == b@),
{
    let xs = chars_of(a);
    let ys = chars_of(b);
    if xs.len() != ys.len() {
        return false;
    }
    let r = matches_at(&xs, &ys, 0);
    assert(xs@.subrange(0, xs@.len() as int) == xs@);
    r
}

// ---------------------------------------------------------------------------
// Trimming
// ---------------------------------------------------------------------------

/// The characters with the Unicode property White_Space.
pub open spec fn is_space(c: char) -> bool {
    ||| '\u{9}' <= c <= '\u{d}'
    ||| c == ' '
    ||| c == '\u{85}'
    ||| c == '\u{a0}'
    ||| c == '\u{1680}'
    ||| '\u{2000}' <= c <= '\u{200a}'
    ||| c == '\u{2028}'
    ||| c == '\u{2029}'
    ||| c == '\u{202f}'
    ||| c == '\u{205f}'
    ||| c == '\u{3000}'
}

/// `s` without the longest front all of whose characters satisfy `p`.
pub open spec fn drop_front(s: Seq<char>, p: spec_fn(char) -> bool) -> Seq<char>
    decreases s.len(),
{
    if s.len() > 0 && p(s[0]) {
        drop_front(s.skip(1), p)
    } else {
        s
    }
}

/// `s` without the longest back all of whose characters satisfy `p`.
pub open spec fn drop_back(s: Seq<char>, p: spec_fn(char) -> bool) -> Seq<char>
    decreases s.len(),
{
    if s.len() > 0 && p(s.last()) {
        drop_back(s.drop_last(), p)
    } else {
        s
    }
}

/// `s` without the white space at its two ends.
pub open spec fn trimmed(s: Seq<char>) -> Seq<char> {
    drop_back(drop_front(s, |c: char| is_space(c)), |c: char| is_space(c))
}

/// Being the character `c`.
pub open spec fn is_char(c: char) -> spec_fn(char) -> bool {
    |x: char| x == c
}

/// `s` without the run of `c` at its end.
pub open spec fn trimmed_end_of(s: Seq<char>, c: char) -> Seq<char> {
    drop_back(s, is_char(c))
}

/// `s` without the copies of `p` at its front.
pub open spec fn without_prefixes(s: Seq<char>, p: Seq<char>) -> Seq<char>
    decreases s.len(),
{
    if p.len() > 0 && starts_with(s, p) {
        without_prefixes(s.skip(p.len() as int), p)
    } else {
        s
    }
}

/// `s` without the copies of `p` at its end.
pub open spec fn without_suffixes(s: Seq<char>, p: Seq<char>) -> Seq<char>
    decreases s.len(),
{
    if p.len() > 0 && ends_with(s, p) {
        without_suffixes(s.take(s.len() - p.len()), p)
    } else {
        s
    }
}

pub proof fn lemma_drop_front(s: Seq<char>, p: spec_fn(char) -> bool, n: int)
    requires
        0 <= n <= s.len(),
        forall|j: int| 0 <= j < n ==> p(s[j]),
        n == s.len() || !p(s[n]),
    ensures
        drop_front(s, p) == s.skip(n),
    decreases n,
{
    if n > 0 {
        assert(p(s[0]));
        lemma_drop_front(s.skip(1), p, n - 1);
        assert(s.skip(1).skip(n - 1) =~= s.skip(n));
    } else {
        assert(s.skip(0) =~= s);
    }
}

pub proof fn lemma_drop_back(s: Seq<char>, p: spec_fn(char) -> bool, n: int)
    requires
        0 <= n <= s.len(),
        forall|j: int| n <= j < s.len() ==> p(s[j]),
        n == 0 || !p(s[n - 1]),
    ensures
        drop_back(s, p) == s.take(n),
    decreases s.len() - n,
{
    if n < s.len() {
        assert(p(s.last()));
        lemma_drop_back(s.drop_last(), p, n);
        assert(s.drop_last().take(n) =~= s.take(n));
    } else {
        assert(s.take(n) =~= s);
    }
}

/// `char::is_whitespace`.
pub fn is_white_space(c: char) -> (r: bool)
    ensures
        r == is_space(c),
{
    ('\u{9}' <= c && c <= '\u{d}') || c == ' ' || c == '\u{85}' || c == '\u{a0}' || c == '\u{1680}'
        || ('\u{2000}' <= c && c <= '\u{200a}') || c == '\u{2028}' || c == '\u{2029}' || c
        == '\u{202f}' || c == '\u{205f}' || c == '\u{3000}'
}

/// `str::trim`.
pub fn trim(s: &str) -> (r: &str)
    ensures
        r@ == trimmed(s@),
{
    let cs = chars_of(s);
    let n: usize = cs.len();
    let mut a: usize = 0;
    while a < n && is_white_space(cs[a])
        invariant
            n == cs@.len(),
            a <= n,
            forall|j: int| 0 <= j < a ==> is_space(cs@[j]),
        decreases n - a,
    {
        a = a + 1;
    }
    let mut b: usize = n;
    while b > a && is_white_space(cs[b - 1])
        invariant
            n == cs@.len(),
            a <= b <= n,
            forall|j: int| b <= j < n ==> is_space(cs@[j]),
        decreases b,
    {
        b = b - 1;
    }
    proof {
        let p = |c: char| is_space(c);
        lemma_drop_front(s@, p, a as int);
        lemma_drop_back(s@.skip(a as int), p, b - a);
        assert(s@.skip(a as int).take(b - a) =~= s@.subrange(a as int, b as int));
    }
    s.substring_char(a, b)
}

/// `str::trim_end_matches` for a character pattern.
pub fn trim_end_char(s: &str, c: char) -> (r: &str)
    ensures
        r@ == trimmed_end_of(s@, c),
{
    let cs = chars_of(s);
    let mut b: usize = cs.len();
    while b > 0 && cs[b - 1] == c
        invariant
            b <= cs@.len(),
            forall|j: int| b <= j < cs@.len() ==> cs@[j] == c,
        decreases b,
    {
        b = b - 1;
    }
    proof {
        lemma_drop_back(s@, is_char(c), b as int);
        assert(s@.take(b as int) =~= s@.subrange(0, b as int));
    }
    s.substring_char(0, b)
}

/// `str::trim_start_matches` for a string pattern.
pub fn trim_start_text<'a>(s: &'a str, p: &str) -> (r: &'a str)
    ensures
        r@ == without_prefixes(s@, p@),
{
    let cs = chars_of(s);
    let ps = chars_of(p);
    let n: usize = cs.len();
    let mut a: usize = 0;
    assert(s@.skip(0) =~= s@);
    while ps.len() > 0 && matches_at(&cs, &ps, a)
        invariant
            cs@ == s@,
            ps@ == p@,
            n == cs@.len(),
            a <= n,
            without_prefixes(s@, p@) == without_prefixes(s@.skip(a as int), p@),
        decreases n - a,
    {
        assert(s@.skip(a as int).subrange(0, p@.len() as int) =~= s@.subrange(
            a as int,
            a + p@.len(),
        ));
        assert(s@.skip(a as int).skip(p@.len() as int) =~= s@.skip(a + p@.len()));
        a = a + ps.len();
    }
    proof {
        if p@.len() <= s@.skip(a as int).len() {
            assert(s@.skip(a as int).subrange(0, p@.len() as int) =~= s@.subrange(
                a as int,
                a + p@.len(),
            ));
        }
        assert(s@.skip(a as int) =~= s@.subrange(a as int, n as int));
    }
    s.substring_char(a, n)
}

/// `str::trim_end_matches` for a string pattern.
pub fn trim_end_text<'a>(s: &'a str, p: &str) -> (r: &'a str)
    ensures
        r@ == without_suffixes(s@, p@),
{
    let cs = chars_of(s);
    let ps = chars_of(p);
    let mut b: usize = cs.len();
    assert(s@.take(s@.len() as int) =~= s@);
    while ps.len() > 0 && ps.len() <= b && matches_at(&cs, &ps, b - ps.len())
        invariant
            cs@ == s@,
            ps@ == p@,
            b <= cs@.len(),
            without_suffixes(s@, p@) == without_suffixes(s@.take(b as int), p@),
        decreases b,
    {
        let ghost t = s@.take(b as int);
        assert(t.subrange(t.len() - p@.len(), t.len() as int) =~= s@.subrange(
            b - p@.len(),
            b as int,
        ));
        assert(t.take(t.len() - p@.len()) =~= s@.take(b - p@.len()));
        b = b - ps.len();
    }
    proof {
        let t = s@.take(b as int);
        if p@.len() <= t.len() {
            assert(t.subrange(t.len() - p@.len(), t.len() as int) =~= s@.subrange(
                b - p@.len(),
                b as int,
            ));
        }
        assert(t =~= s@.subrange(0, b as int));
    }
    s.substring_char(0, b)
}

// ---------------------------------------------------------------------------
// Splitting
// ---------------------------------------------------------------------------

/// The two sides of the first `c` in `s`.
pub open spec fn split_once(s: Seq<char>, c: char) -> Option<(Seq<char>, Seq<char>)> {
    match position(s, c) {
        Some(n) => Some((s.take(n), s.skip(n + 1))),
        None => None,
    }
}

/// The pieces of `s` between the characters `c`.
pub open spec fn split_at_each(s: Seq<char>, c: char) -> Seq<Seq<char>>
    decreases s.len(),
    via split_at_each_decreases
{
    match position(s, c) {
        Some(n) => seq![s.take(n)] + split_at_each(s.skip(n + 1), c),
        None => seq![s],
    }
}

#[via_fn]
proof fn split_at_each_decreases(s: Seq<char>, c: char) {
    lemma_position_from_bounds(s, c, 0);
}

/// A line without the carriage return before its line feed.
pub open spec fn without_return(s: Seq<char>) -> Seq<char> {
    if s.len() > 0 && s.last() == '\r' {
        s.drop_last()
    } else {
        s
    }
}

/// The lines of `s`: each ends at a line feed, which is dropped together with a
/// carriage return right before it; the last line needs no line feed.
pub open spec fn lines_of(s: Seq<char>) -> Seq<Seq<char>>
    decreases s.len(),
    via lines_of_decreases
{
    if s.len() == 0 {
        seq![]
    } else {
        match position(s, '\n') {
            Some(n) => seq![without_return(s.take(n))] + lines_of(s.skip(n + 1)),
            None => seq![s],
        }
    }
}

#[via_fn]
proof fn lines_of_decreases(s: Seq<char>) {
    lemma_position_from_bounds(s, '\n', 0);
}

/// The views of a list of strings.
pub open spec fn texts(v: Seq<&str>) -> Seq<Seq<char>> {
    v.map_values(|t: &str| t@)
}

/// Looking for `c` from `k` on in `s` is looking for it in the rest of `s`.
pub proof fn lemma_position_skip(s: Seq<char>, c: char, k: int, j: int)
    requires
        0 <= k <= j <= s.len(),
    ensures
        match position_from(s, c, j) {
            Some(n) => position_from(s.skip(k), c, j - k) == Some(n - k),
            None => position_from(s.skip(k), c, j - k) is None,
        },
    decreases s.len() - j,
{
    if j < s.len() && s[j] != c {
        lemma_position_skip(s, c, k, j + 1);
    }
}

/// `str::split_once` for a character.
pub fn cut_once<'a>(s: &'a str, c: char) -> (r: Option<(&'a str, &'a str)>)
    ensures
        match r {
            Some(p) => split_once(s@, c) == Some((p.0@, p.1@)),
            None => split_once(s@, c) is None,
        },
{
    let cs = chars_of(s);
    let len: usize = cs.len();
    match find_from(&cs, c, 0) {
        Some(n) => {
            proof {
                lemma_position_from_bounds(s@, c, 0);
                assert(s@.take(n as int) =~= s@.subrange(0, n as int));
                assert(s@.skip(n + 1) =~= s@.subrange(n + 1, s@.len() as int));
            }
            Some((s.substring_char(0, n), s.substring_char(n + 1, len)))
        },
        None => None,
    }
}

/// `str::split` for a character.
pub fn split_text<'a>(s: &'a str, c: char) -> (r: Vec<&'a str>)
    ensures
        texts(r@) == split_at_each(s@, c),
{
    let cs = chars_of(s);
    let n: usize = cs.len();
    let mut r: Vec<&'a str> = Vec::new();
    let mut from: usize = 0;
    let mut next: Option<usize> = find_from(&cs, c, 0);
    proof {
        assert(s@.skip(0) =~= s@);
        lemma_position_skip(s@, c, 0, 0);
    }
    assert(texts(r@) + split_at_each(s@.skip(0), c) =~= split_at_each(s@, c));
    while next.is_some()
        invariant
            cs@ == s@,
            n == cs@.len(),
            from <= n,
            match next {
                Some(k) => position_from(s@, c, from as int) == Some(k as int),
                None => position_from(s@, c, from as int) is None,
            },
            split_at_each(s@, c) == texts(r@) + split_at_each(s@.skip(from as int), c),
        decreases n - from,
    {
        let k: usize = next.unwrap();
        proof {
            lemma_position_from_bounds(s@, c, from as int);
            lemma_position_skip(s@, c, from as int, from as int);
            let rest = s@.skip(from as int);
            assert(rest.take(k - from) =~= s@.subrange(from as int, k as int));
            assert(rest.skip(k - from + 1) =~= s@.skip(k + 1));
        }
        let ghost before = r@;
        r.push(s.substring_char(from, k));
        assert(texts(r@) =~= texts(before).push(s@.subrange(from as int, k as int)));
        assert(texts(before) + (seq![s@.subrange(from as int, k as int)] + split_at_each(
            s@.skip(k + 1),
            c,
        )) =~= texts(r@) + split_at_each(s@.skip(k + 1), c));
        from = k + 1;
        next = find_from(&cs, c, from);
    }
    proof {
        lemma_position_skip(s@, c, from as int, from as int);
        assert(s@.skip(from as int) =~= s@.subrange(from as int, n as int));
    }
    let ghost before = r@;
    r.push(s.substring_char(from, n));
    assert(texts(r@) =~= texts(before) + seq![s@.skip(from as int)]);
    r
}

/// `str::lines`.
pub fn split_lines<'a>(s: &'a str) -> (r: Vec<&'a str>)
    ensures
        texts(r@) == lines_of(s@),
{
    let cs = chars_of(s);
    let n: usize = cs.len();
    let mut r: Vec<&'a str> = Vec::new();
    let mut from: usize = 0;
    assert(s@.skip(0) =~= s@);
    assert(texts(r@) + lines_of(s@.skip(0)) =~= lines_of(s@));
    while from < n
        invariant
            cs@ == s@,
            n == cs@.len(),
            from <= n,
            lines_of(s@) == texts(r@) + lines_of(s@.skip(from as int)),
        decreases n - from,
    {
        let ghost rest = s@.skip(from as int);
        let ghost before = r@;
        proof {
            lemma_position_from_bounds(s@, '\n', from as int);
            lemma_position_skip(s@, '\n', from as int, from as int);
        }
        match find_from(&cs, '\n', from) {
            Some(k) => {
                let mut end: usize = k;
                if end > from && cs[end - 1] == '\r' {
                    end = end - 1;
                }
                r.push(s.substring_char(from, end));
                proof {
                    let whole = rest.take(k - from);
                    assert(whole =~= s@.subrange(from as int, k as int));
                    assert(without_return(whole) =~= s@.subrange(from as int, end as int));
                    assert(rest.skip(k - from + 1) =~= s@.skip(k + 1));
                    assert(texts(r@) =~= texts(before).push(without_return(whole)));
                    assert(texts(before) + (seq![without_return(whole)] + lines_of(s@.skip(k + 1)))
                        =~= texts(r@) + lines_of(s@.skip(k + 1)));
                }
                from = k + 1;
            },
            None => {
                r.push(s.substring_char(from, n));
                proof {
                    assert(rest =~= s@.subrange(from as int, n as int));
                    assert(texts(r@) =~= texts(before).push(rest));
                    assert(texts(before) + seq![rest] =~= texts(r@) + lines_of(s@.skip(n as int)));
                }
                from = n;
            },
        }
    }
    assert(texts(r@) + lines_of(s@.skip(n as int)) =~= texts(r@));
    r
}

// ---------------------------------------------------------------------------
// Decimal numbers
// ---------------------------------------------------------------------------

pub open spec fn is_digit(c: char) -> bool {
    '0' <= c <= '9'
}

/// The number that a row of digits writes in base ten.
pub open spec fn digits_value(s: Seq<char>) -> nat
    decreases s.len(),
{
    if s.len() == 0 {
        0
    } else {
        digits_value(s.drop_last()) * 10 + (s.last() as nat - '0' as nat) as nat
    }
}

/// `s` without one plus sign at its front.
pub open spec fn without_plus(s: Seq<char>) -> Seq<char> {
    if s.len() > 0 && s[0] == '+' {
        s.skip(1)
    } else {
        s
    }
}

/// The number that `s` writes: one or more digits, a plus sign before them or not.
pub open spec fn decimal_value(s: Seq<char>) -> Option<nat> {
    let body = without_plus(s);
    if body.len() > 0 && (forall|j: int| 0 <= j < body.len() ==> is_digit(#[trigger] body[j])) {
        Some(digits_value(body))
    } else {
        None
    }
}

/// The value of `s` if it is a number that is at most `max`.
pub open spec fn bounded_decimal(s: Seq<char>, max: nat) -> Option<nat> {
    match decimal_value(s) {
        Some(n) => if n <= max {
            Some(n)
        } else {
            None
        },
        None => None,
    }
}

/// The digits of `n` in base ten, without leading zeros.
pub open spec fn decimal(n: nat) -> Seq<char>
    decreases n,
{
    if n < 10 {
        seq![(n + '0' as nat) as char]
    } else {
        decimal(n / 10).push((n % 10 + '0' as nat) as char)
    }
}

proof fn lemma_digits_value_grows(s: Seq<char>, k: int)
    requires
        0 <= k <= s.len(),
        forall|j: int| 0 <= j < s.len() ==> is_digit(#[trigger] s[j]),
    ensures
        digits_value(s.take(k)) <= digits_value(s),
    decreases s.len() - k,
{
    if k < s.len() {
        lemma_digits_value_grows(s.drop_last(), k);
        assert(s.drop_last().take(k) =~= s.take(k));
    } else {
        assert(s.take(k) =~= s);
    }
}

proof fn lemma_decimal_digits(n: nat)
    ensures
        decimal(n).len() > 0,
        forall|j: int| 0 <= j < decimal(n).len() ==> is_digit(#[trigger] decimal(n)[j]),
        digits_value(decimal(n)) == n,
    decreases n,
{
    reveal_with_fuel(digits_value, 2);
    if n >= 10 {
        lemma_decimal_digits(n / 10);
        assert(decimal(n).drop_last() =~= decimal(n / 10));
    } else {
        assert(decimal(n).drop_last() =~= seq![]);
    }
}

/// Reading a number gives back the number that was written.
pub proof fn law_decimal_round_trip(n: nat)
    ensures
        decimal_value(decimal(n)) == Some(n),
        without_plus(decimal(n)) == decimal(n),
{
    lemma_decimal_digits(n);
    assert(is_digit(decimal(n)[0]));
}

/// Two numbers written the same are the same number.
pub proof fn law_decimal_injective(m: nat, n: nat)
    ensures
        decimal(m) == decimal(n) ==> m == n,
{
    law_decimal_round_trip(m);
    law_decimal_round_trip(n);
}

/// `str::parse::<u64>`.
pub fn parse_u64(s: &str) -> (r: Option<u64>)
    ensures
        match r {
            Some(n) => bounded_decimal(s@, u64::MAX as nat) == Some(n as nat),
            None => bounded_decimal(s@, u64::MAX as nat) is None,
        },
{
    let cs = chars_of(s);
    let len: usize = cs.len();
    let mut start: usize = 0;
    if len > 0 && cs[0] == '+' {
        start = 1;
    }
    let ghost body = without_plus(s@);
    assert(body =~= s@.skip(start as int));
    if start == len {
        return None;
    }
    let mut value: u64 = 0;
    let mut k: usize = start;
    assert(body.take(0) =~= seq![]);
    while k < len
        invariant
            cs@ == s@,
            len == cs@.len(),
            start <= k <= len,
            start < len,
            body == s@.skip(start as int),
            body == without_plus(s@),
            forall|j: int| 0 <= j < k - start ==> is_digit(#[trigger] body[j]),
            value as nat == digits_value(body.take(k - start)),
        decreases len - k,
    {
        let c = cs[k];
        assert(c == body[k - start]);
        if c < '0' || c > '9' {
            assert(!is_digit(body[k - start]));
            return None;
        }
        let d: u64 = (c as u32 - '0' as u32) as u64;
        let ghost longer = body.take(k - start + 1);
        assert(longer.drop_last() =~= body.take(k - start));
        assert(digits_value(longer) == value * 10 + d);
        if value > (u64::MAX - d) / 10 {
            proof {
                assert(value * 10 + d > u64::MAX) by {
                    assert(value >= (u64::MAX - d) / 10 + 1);
                }
                if forall|j: int| 0 <= j < body.len() ==> is_digit(#[trigger] body[j]) {
                    lemma_digits_value_grows(body, k - start + 1);
                }
            }
            return None;
        }
        value = value * 10 + d;
        k = k + 1;
    }
    assert(body.take(len - start) =~= body);
    Some(value)
}

/// `str::parse::<usize>`.
pub fn parse_usize(s: &str) -> (r: Option<usize>)
    ensures
        match r {
            Some(n) => bounded_decimal(s@, usize::MAX as nat) == Some(n as nat),
            None => bounded_decimal(s@, usize::MAX as nat) is None,
        },
{
    match parse_u64(s) {
        Some(n) => if n <= usize::MAX as u64 {
            Some(n as usize)
        } else {
            None
        },
        None => None,
    }
}

/// One digit as text.
fn digit_text(d: u64) -> (r: &'static str)
    requires
        d < 10,
    ensures
        r@ == seq![(d + '0' as nat) as char],
{
    proof {
        reveal_strlit("0");
        reveal_strlit("1");
        reveal_strlit("2");
        reveal_strlit("3");
        reveal_strlit("4");
        reveal_strlit("5");
        reveal_strlit("6");
        reveal_strlit("7");
        reveal_strlit("8");
        reveal_strlit("9");
    }
    let r: &'static str = match d {
        0 => "0",
        1 => "1",
        2 => "2",
        3 => "3",
        4 => "4",
        5 => "5",
        6 => "6",
        7 => "7",
        8 => "8",
        _ => "9",
    };
    assert(r@ =~= seq![(d + '0' as nat) as char]);
    r
}

/// A number as text, as `u64::to_string` writes it.
pub fn decimal_text(n: u64) -> (r: String)
    ensures
        r@ == decimal(n as nat),
    decreases n,
{
    if n < 10 {
        digit_text(n).to_owned()
    } else {
        let mut r = decimal_text(n / 10);
        r.append(digit_text(n % 10));
        assert(r@ =~= decimal(n as nat));
        r
    }
}

// ---------------------------------------------------------------------------
// Order
// ---------------------------------------------------------------------------

/// `a` comes before `b`, character by character. This is the order of `str`.
pub open spec fn before(a: Seq<char>, b: Seq<char>) -> bool
    decreases a.len(),
{
    if b.len() == 0 {
        false
    } else if a.len() == 0 {
        true
    } else if a[0] != b[0] {
        a[0] < b[0]
    } else {
        before(a.skip(1), b.skip(1))
    }
}

/// Every text comes before the next ones.
pub open spec fn increasing(s: Seq<Seq<char>>) -> bool {
    forall|i: int, j: int| 0 <= i < j < s.len() ==> before(#[trigger] s[i], #[trigger] s[j])
}

/// The views of a list of owned strings.
pub open spec fn owned_texts(v: Seq<String>) -> Seq<Seq<char>> {
    v.map_values(|t: String| t@)
}

pub proof fn lemma_before_transitive(a: Seq<char>, b: Seq<char>, c: Seq<char>)
    requires
        before(a, b),
        before(b, c),
    ensures
        before(a, c),
    decreases a.len(),
{
    if a.len() > 0 && a[0] == b[0] && b[0] == c[0] {
        lemma_before_transitive(a.skip(1), b.skip(1), c.skip(1));
    }
}

/// Of two texts one comes before the other, or they are the same.
pub proof fn lemma_before_total(a: Seq<char>, b: Seq<char>)
    ensures
        before(a, b) || before(b, a) || a == b,
        !(before(a, b) && before(b, a)),
        !before(a, a),
    decreases a.len(),
{
    if a.len() > 0 {
        lemma_before_total(a.skip(1), a.skip(1));
    }
    if a.len() > 0 && b.len() > 0 && a[0] == b[0] {
        lemma_before_total(a.skip(1), b.skip(1));
        if a.skip(1) == b.skip(1) {
            assert(a =~= seq![a[0]] + a.skip(1));
            assert(b =~= seq![b[0]] + b.skip(1));
        }
    } else if a.len() == 0 && b.len() == 0 {
        assert(a =~= b);
    }
}

/// The texts in order, each once, are determined by which texts they are.
pub proof fn law_increasing_unique(s: Seq<Seq<char>>, t: Seq<Seq<char>>)
    requires
        increasing(s),
        increasing(t),
        forall|x: Seq<char>| s.contains(x) <==> t.contains(x),
    ensures
        s == t,
    decreases s.len() + t.len(),
{
    if s.len() == 0 {
        if t.len() > 0 {
            assert(t.contains(t[0]));
        }
        assert(s =~= t);
    } else if t.len() == 0 {
        assert(s.contains(s[0]));
    } else {
        let x = s.last();
        let y = t.last();
        assert(s.contains(x) && t.contains(y));
        let i = choose|i: int| 0 <= i < t.len() && t[i] == x;
        let j = choose|j: int| 0 <= j < s.len() && s[j] == y;
        assert(x == y) by {
            lemma_before_total(x, y);
            if i < t.len() - 1 {
                assert(before(t[i], t[t.len() - 1]));
                if j < s.len() - 1 {
                    assert(before(s[j], s[s.len() - 1]));
                }
            }
        }
        let s1 = s.drop_last();
        let t1 = t.drop_last();
        assert forall|z: Seq<char>| s1.contains(z) <==> t1.contains(z) by {
            if s1.contains(z) {
                let k = choose|k: int| 0 <= k < s1.len() && s1[k] == z;
                assert(s[k] == z && before(s[k], s[s.len() - 1]));
                assert(s.contains(z));
                let m = choose|m: int| 0 <= m < t.len() && t[m] == z;
                lemma_before_total(z, x);
                assert(m < t.len() - 1);
                assert(t1[m] == z);
            }
            if t1.contains(z) {
                let k = choose|k: int| 0 <= k < t1.len() && t1[k] == z;
                assert(t[k] == z && before(t[k], t[t.len() - 1]));
                assert(t.contains(z));
                let m = choose|m: int| 0 <= m < s.len() && s[m] == z;
                lemma_before_total(z, x);
                assert(m < s.len() - 1);
                assert(s1[m] == z);
            }
        }
        law_increasing_unique(s1, t1);
        assert(s =~= s1.push(x));
        assert(t =~= t1.push(y));
    }
}

/// Whether `a` comes before `b`.
pub fn is_before(a: &str, b: &str) -> (r: bool)
    ensures
        r == before(a@, b@),
{
    let xs = chars_of(a);
    let ys = chars_of(b);
    let mut k: usize = 0;
    assert(a@.skip(0) =~= a@ && b@.skip(0) =~= b@);
    while k < xs.len() && k < ys.len()
        invariant
            xs@ == a@,
            ys@ == b@,
            k <= xs@.len(),
            k <= ys@.len(),
            before(a@, b@) == before(a@.skip(k as int), b@.skip(k as int)),
        decreases xs@.len() - k,
    {
        if xs[k] != ys[k] {
            return xs[k] < ys[k];
        }
        assert(a@.skip(k as int).skip(1) =~= a@.skip(k + 1));
        assert(b@.skip(k as int).skip(1) =~= b@.skip(k + 1));
        k = k + 1;
    }
    k < ys.len()
}

/// The texts of `v` in order, each once: `sort` and then `dedup`.
pub fn sorted_unique(v: &Vec<String>) -> (r: Vec<String>)
    ensures
        increasing(owned_texts(r@)),
        forall|x: Seq<char>| owned_texts(r@).contains(x) <==> owned_texts(v@).contains(x),
{
    let mut r: Vec<String> = Vec::new();
    let mut i: usize = 0;
    let ghost all = owned_texts(v@);
    assert(all.take(0) =~= seq![]);
    while i < v.len()
        invariant
            all == owned_texts(v@),
            i <= v@.len(),
            increasing(owned_texts(r@)),
            forall|x: Seq<char>| owned_texts(r@).contains(x) <==> all.take(i as int).contains(x),
        decreases v@.len() - i,
    {
        let ghost done = all.take(i as int);
        let ghost more = all.take(i + 1);
        let ghost had = owned_texts(r@);
        assert(forall|y: Seq<char>| had.contains(y) <==> done.contains(y));
        assert(more =~= done.push(v@[i as int]@));
        let mut at: usize = 0;
        while at < r.len() && is_before(r[at].as_str(), v[i].as_str())
            invariant
                at <= r@.len(),
                i < v@.len(),
                had == owned_texts(r@),
                forall|k: int| 0 <= k < at ==> before(#[trigger] had[k], v@[i as int]@),
            decreases r@.len() - at,
        {
            at = at + 1;
        }
        let ghost x = v@[i as int]@;
        if at < r.len() && same_text(r[at].as_str(), v[i].as_str()) {
            proof {
                assert(had[at as int] == x);
                assert forall|y: Seq<char>| had.contains(y) <==> more.contains(y) by {
                    if had.contains(y) {
                        let k = choose|k: int| 0 <= k < done.len() && done[k] == y;
                        assert(more[k] == y);
                    }
                    if more.contains(y) {
                        let k = choose|k: int| 0 <= k < more.len() && more[k] == y;
                        if k < done.len() {
                            assert(done[k] == y);
                        } else {
                            assert(had[at as int] == y);
                        }
                    }
                }
            }
        } else {
            r.insert(at, v[i].clone());
            proof {
                let now = owned_texts(r@);
                assert(now =~= had.insert(at as int, x));
                assert forall|a: int, b: int| 0 <= a < b < now.len() implies before(
                    #[trigger] now[a],
                    #[trigger] now[b],
                ) by {
                    if at < had.len() {
                        lemma_before_total(had[at as int], x);
                        assert(before(x, had[at as int]));
                    }
                    if a == at && b > at {
                        if b - 1 > at {
                            assert(before(had[at as int], had[b - 1]));
                            lemma_before_transitive(x, had[at as int], had[b - 1]);
                        }
                    } else if b == at {
                        assert(before(had[a], x));
                    } else {
                        let a0 = if a < at { a } else { a - 1 };
                        let b0 = if b < at { b } else { b - 1 };
                        assert(before(had[a0], had[b0]));
                    }
                }
                assert forall|y: Seq<char>| now.contains(y) <==> more.contains(y) by {
                    if now.contains(y) {
                        let k = choose|k: int| 0 <= k < now.len() && now[k] == y;
                        if k == at {
                            assert(more[i as int] == y);
                        } else {
                            let k0 = if k < at { k } else { k - 1 };
                            assert(had[k0] == y);
                            assert(had.contains(y));
                            assert(done.contains(y));
                            let m = choose|m: int| 0 <= m < done.len() && done[m] == y;
                            assert(more[m] == y);
                        }
                    }
                    if more.contains(y) {
                        let k = choose|k: int| 0 <= k < more.len() && more[k] == y;
                        if k < done.len() {
                            assert(done[k] == y);
                            assert(done.contains(y) && had.contains(y));
                            let m = choose|m: int| 0 <= m < had.len() && had[m] == y;
                            let m0 = if m < at { m } else { m + 1 };
                            assert(now[m0] == y);
                        } else {
                            assert(now[at as int] == y);
                        }
                    }
                }
            }
        }
        i = i + 1;
    }
    assert(all.take(v@.len() as int) =~= all);
    r
}

// ---------------------------------------------------------------------------
// Replacing and lower case
// ---------------------------------------------------------------------------

/// `s` with each occurrence of `p`, taken from the left, replaced by `q`.
pub open spec fn replaced(s: Seq<char>, p: Seq<char>, q: Seq<char>) -> Seq<char>
    decreases s.len(),
{
    if s.len() == 0 || p.len() == 0 {
        s
    } else if starts_with(s, p) {
        q + replaced(s.skip(p.len() as int), p, q)
    } else {
        seq![s[0]] + replaced(s.skip(1), p, q)
    }
}

/// `str::replace` for a string pattern that is not empty.
pub fn replace_text(s: &str, p: &str, q: &str) -> (r: String)
    requires
        p@.len() > 0,
    ensures
        r@ == replaced(s@, p@, q@),
{
    let cs = chars_of(s);
    let ps = chars_of(p);
    let n: usize = cs.len();
    let mut r = String::new();
    let mut k: usize = 0;
    assert(s@.skip(0) =~= s@);
    assert(r@ + replaced(s@.skip(0), p@, q@) =~= replaced(s@, p@, q@));
    while k < n
        invariant
            cs@ == s@,
            ps@ == p@,
            n == cs@.len(),
            k <= n,
            p@.len() > 0,
            replaced(s@, p@, q@) == r@ + replaced(s@.skip(k as int), p@, q@),
        decreases n - k,
    {
        let ghost rest = s@.skip(k as int);
        let ghost had = r@;
        if matches_at(&cs, &ps, k) {
            proof {
                assert(rest.subrange(0, p@.len() as int) =~= s@.subrange(k as int, k + p@.len()));
                assert(rest.skip(p@.len() as int) =~= s@.skip(k + p@.len()));
            }
            r.append(q);
            assert(had + (q@ + replaced(s@.skip(k + p@.len()), p@, q@)) =~= r@ + replaced(
                s@.skip(k + p@.len()),
                p@,
                q@,
            ));
            k = k + ps.len();
        } else {
            proof {
                if p@.len() <= rest.len() {
                    assert(rest.subrange(0, p@.len() as int) =~= s@.subrange(
                        k as int,
                        k + p@.len(),
                    ));
                }
                assert(rest.skip(1) =~= s@.skip(k + 1));
            }
            r.append(s.substring_char(k, k + 1));
            assert(had + (seq![rest[0]] + replaced(s@.skip(k + 1), p@, q@)) =~= r@ + replaced(
                s@.skip(k + 1),
                p@,
                q@,
            ));
            k = k + 1;
        }
    }
    assert(r@ + replaced(s@.skip(n as int), p@, q@) =~= r@);
    r
}

/// What `str::to_lowercase` makes of a text.
pub uninterp spec fn lowercase(s: Seq<char>) -> Seq<char>;

/// The lower case of an ASCII character.
pub open spec fn ascii_lower(c: char) -> char {
    if 'A' <= c <= 'Z' {
        (c as u32 + 32) as char
    } else {
        c
    }
}

/// `str::to_lowercase`, which follows the Unicode tables and depends on the text
/// alone. Of an ASCII text it lowers each letter and keeps the rest.
#[verifier::external_body]
pub(crate) fn to_lower(s: &str) -> (r: String)
    ensures
        r@ == lowercase(s@),
        s.is_ascii() ==> r@ == s@.map_values(|c: char| ascii_lower(c)),
{
    s.to_lowercase()
}

// ---------------------------------------------------------------------------
// Laws
// ---------------------------------------------------------------------------

/// A character is found where it first or last stands, and nowhere only where it does not occur.
pub proof fn law_found_where_it_stands(s: Seq<char>, c: char)
    ensures
        position(s, c) is None <==> !s.contains(c),
        last_position(s, c) is None <==> !s.contains(c),
        position(s, c) matches Some(n) ==> 0 <= n < s.len() && s[n] == c && !s.take(n).contains(c),
        last_position(s, c) matches Some(n) ==> 0 <= n < s.len() && s[n] == c && !s.skip(
            n + 1,
        ).contains(c),
{
    lemma_position_from_bounds(s, c, 0);
    lemma_last_position_in_bounds(s, c, s.len() as int);
    if let Some(n) = position(s, c) {
        assert(s.contains(s[n]));
    }
    if let Some(n) = last_position(s, c) {
        assert(s.contains(s[n]));
        let t = s.skip(n + 1);
        assert forall|j: int| 0 <= j < t.len() implies #[trigger] t[j] != c by {
            assert(t[j] == s[n + 1 + j]);
        }
    }
}

/// A text starts with what can be completed to it behind, ends with what can be completed to it
/// in front, and holds what can be completed to it on both sides.
pub proof fn law_affixes(a: Seq<char>, p: Seq<char>, b: Seq<char>)
    ensures
        starts_with(p + b, p),
        ends_with(a + p, p),
        contains(a + p + b, p),
        starts_with(a, p) ==> a == p + a.skip(p.len() as int),
        ends_with(a, p) ==> a == a.take(a.len() - p.len()) + p,
{
    assert((p + b).subrange(0, p.len() as int) =~= p);
    assert((a + p).subrange((a + p).len() - p.len(), (a + p).len() as int) =~= p);
    assert((a + p + b).subrange(a.len() as int, a.len() as int + p.len()) =~= p);
    assert(occurs_at(a + p + b, p, a.len() as int));
    if starts_with(a, p) {
        assert forall|j: int| 0 <= j < a.len() implies a[j] == (p + a.skip(p.len() as int))[j] by {
            if j < p.len() {
                assert(a.subrange(0, p.len() as int)[j] == p[j]);
            }
        }
        assert(a =~= p + a.skip(p.len() as int));
    }
    if ends_with(a, p) {
        let k = a.len() - p.len();
        assert forall|j: int| 0 <= j < a.len() implies a[j] == (a.take(k) + p)[j] by {
            if j >= k {
                assert(a.subrange(k, a.len() as int)[j - k] == p[j - k]);
            }
        }
        assert(a =~= a.take(k) + p);
    }
}

/// A text that is held stands somewhere in the other: `r` is what stands before and behind it.
pub proof fn law_held_text(s: Seq<char>, p: Seq<char>) -> (r: (Seq<char>, Seq<char>))
    requires
        contains(s, p),
    ensures
        s == r.0 + p + r.1,
{
    let i = choose|i: int| occurs_at(s, p, i);
    let whole = s.take(i) + p + s.skip(i + p.len());
    let there = s.subrange(i, i + p.len());
    assert forall|j: int| 0 <= j < s.len() implies s[j] == whole[j] by {
        if i <= j < i + p.len() {
            assert(there[j - i] == p[j - i]);
        }
    }
    assert(s =~= whole);
    (s.take(i), s.skip(i + p.len()))
}

proof fn lemma_drop_front_parts(s: Seq<char>, p: spec_fn(char) -> bool) -> (n: int)
    ensures
        0 <= n <= s.len(),
        drop_front(s, p) == s.skip(n),
        forall|j: int| 0 <= j < n ==> p(s[j]),
        n < s.len() ==> !p(s[n]),
    decreases s.len(),
{
    if s.len() > 0 && p(s[0]) {
        let m = lemma_drop_front_parts(s.skip(1), p);
        assert(s.skip(1).skip(m) =~= s.skip(m + 1));
        assert forall|j: int| 0 <= j < m + 1 implies p(s[j]) by {
            if j > 0 {
                assert(s[j] == s.skip(1)[j - 1]);
            }
        }
        m + 1
    } else {
        assert(s.skip(0) =~= s);
        0
    }
}

proof fn lemma_drop_back_parts(s: Seq<char>, p: spec_fn(char) -> bool) -> (n: int)
    ensures
        0 <= n <= s.len(),
        drop_back(s, p) == s.take(n),
        forall|j: int| n <= j < s.len() ==> p(s[j]),
        n > 0 ==> !p(s[n - 1]),
    decreases s.len(),
{
    if s.len() > 0 && p(s.last()) {
        let m = lemma_drop_back_parts(s.drop_last(), p);
        assert(s.drop_last().take(m) =~= s.take(m));
        assert forall|j: int| m <= j < s.len() implies p(s[j]) by {
            if j < s.len() - 1 {
                assert(s[j] == s.drop_last()[j]);
            }
        }
        m
    } else {
        assert(s.take(s.len() as int) =~= s);
        s.len() as int
    }
}

/// Trimming takes white space from both ends, all of it, and nothing else: `r` is what it took.
pub proof fn law_trimmed(s: Seq<char>) -> (r: (Seq<char>, Seq<char>))
    ensures
        s == r.0 + trimmed(s) + r.1,
        forall|j: int| 0 <= j < r.0.len() ==> is_space(#[trigger] r.0[j]),
        forall|j: int| 0 <= j < r.1.len() ==> is_space(#[trigger] r.1[j]),
        trimmed(s).len() > 0 ==> !is_space(trimmed(s)[0]) && !is_space(trimmed(s).last()),
{
    let p = |c: char| is_space(c);
    let n = lemma_drop_front_parts(s, p);
    let t = s.skip(n);
    let m = lemma_drop_back_parts(t, p);
    assert(s =~= s.take(n) + t.take(m) + t.skip(m));
    assert forall|j: int| 0 <= j < t.skip(m).len() implies is_space(#[trigger] t.skip(m)[j]) by {
        assert(p(t[m + j]));
    }
    assert forall|j: int| 0 <= j < s.take(n).len() implies is_space(#[trigger] s.take(n)[j]) by {
        assert(p(s[j]));
    }
    if t.take(m).len() > 0 {
        assert(t.take(m)[0] == s[n]);
        assert(!p(s[n]));
        assert(!p(t[m - 1]));
    }
    (s.take(n), t.skip(m))
}

/// Trimming a character from the end takes it as often as it stands there, and nothing else: `r`
/// is how often.
pub proof fn law_trimmed_end(s: Seq<char>, c: char) -> (r: nat)
    ensures
        s == trimmed_end_of(s, c) + Seq::new(r, |j: int| c),
        trimmed_end_of(s, c).len() > 0 ==> trimmed_end_of(s, c).last() != c,
{
    let p = is_char(c);
    let m = lemma_drop_back_parts(s, p);
    let r = (s.len() - m) as nat;
    assert forall|j: int| m <= j < s.len() implies s[j] == c by {
        assert(p(s[j]));
    }
    assert(s =~= s.take(m) + Seq::new(r, |j: int| c));
    if m > 0 {
        assert(!p(s[m - 1]));
    }
    r
}

/// A prefix or a suffix is taken away as often as it stands there: what is left has none, and one
/// more of them makes no difference.
pub proof fn law_affixes_taken_away(s: Seq<char>, p: Seq<char>)
    requires
        p.len() > 0,
    ensures
        without_prefixes(p + s, p) == without_prefixes(s, p),
        without_suffixes(s + p, p) == without_suffixes(s, p),
        !(exists|t: Seq<char>| s == #[trigger] (p + t)) ==> without_prefixes(s, p) == s,
        !(exists|t: Seq<char>| s == #[trigger] (t + p)) ==> without_suffixes(s, p) == s,
{
    law_affixes(s, p, s);
    assert((p + s).skip(p.len() as int) =~= s);
    assert((s + p).take(s.len() as int) =~= s);
}

/// A text is cut at the first separator, and not at all where there is none.
pub proof fn law_cut_at_the_first(a: Seq<char>, c: char, b: Seq<char>)
    requires
        !a.contains(c),
    ensures
        split_once(a + seq![c] + b, c) == Some((a, b)),
        split_once(a, c) is None,
{
    law_found_where_it_stands(a, c);
    let s = a + seq![c] + b;
    lemma_first_of(a, c, b);
    assert(s.take(a.len() as int) =~= a);
    assert(s.skip(a.len() as int + 1) =~= b);
}

/// The two parts of a cut text make it up again with the separator between them, and the first of
/// them has no separator.
pub proof fn law_cut_parts(s: Seq<char>, c: char)
    ensures
        split_once(s, c) is None <==> !s.contains(c),
        split_once(s, c) matches Some((a, b)) ==> s == a + seq![c] + b && !a.contains(c),
{
    law_found_where_it_stands(s, c);
    if let Some(n) = position(s, c) {
        assert(s =~= s.take(n) + seq![c] + s.skip(n + 1));
    }
}

proof fn lemma_first_of(a: Seq<char>, c: char, b: Seq<char>)
    requires
        !a.contains(c),
    ensures
        position(a + seq![c] + b, c) == Some(a.len() as int),
{
    let s = a + seq![c] + b;
    assert(s[a.len() as int] == c);
    lemma_position_from_bounds(s, c, 0);
    let n = position(s, c)->0;
    if n < a.len() {
        assert(s[n] == a[n]);
        assert(a.contains(a[n]));
    }
}

/// Splitting gives the piece before the first separator and then the pieces of the rest; a text
/// without a separator is one piece.
pub proof fn law_split_piece_by_piece(a: Seq<char>, c: char, b: Seq<char>)
    requires
        !a.contains(c),
    ensures
        split_at_each(a + seq![c] + b, c) == seq![a] + split_at_each(b, c),
        split_at_each(a, c) == seq![a],
{
    law_found_where_it_stands(a, c);
    let s = a + seq![c] + b;
    lemma_first_of(a, c, b);
    assert(s.take(a.len() as int) =~= a);
    assert(s.skip(a.len() as int + 1) =~= b);
}

/// The lines of a text are what stands before each line feed, without a carriage return before
/// it, and what follows the last one, if anything does.
pub proof fn law_line_by_line(a: Seq<char>, b: Seq<char>)
    requires
        !a.contains('\n'),
    ensures
        a.len() > 0 && a.last() == '\r' ==> lines_of(a + seq!['\n'] + b) == seq![a.drop_last()]
            + lines_of(b),
        !(a.len() > 0 && a.last() == '\r') ==> lines_of(a + seq!['\n'] + b) == seq![a]
            + lines_of(b),
        a.len() > 0 ==> lines_of(a) == seq![a],
        a.len() == 0 ==> lines_of(a).len() == 0,
{
    law_found_where_it_stands(a, '\n');
    let s = a + seq!['\n'] + b;
    lemma_first_of(a, '\n', b);
    assert(s.take(a.len() as int) =~= a);
    assert(s.skip(a.len() as int + 1) =~= b);
}

/// A number is written in decimal digits, each counting ten times what the next one does, with or
/// without a plus sign before them.
pub proof fn law_digits_count_by_ten(s: Seq<char>, d: char)
    requires
        forall|j: int| 0 <= j < s.len() ==> '0' <= #[trigger] s[j] <= '9',
        '0' <= d <= '9',
    ensures
        decimal_value(seq![d]) == Some((d as nat - '0' as nat) as nat),
        s.len() > 0 ==> (decimal_value(s) matches Some(n) && decimal_value(s.push(d)) == Some(
            (10 * n + (d as nat - '0' as nat)) as nat,
        )),
        s.len() > 0 ==> decimal_value(seq!['+'] + s) == decimal_value(s),
{
    let one = seq![d];
    assert(one.drop_last() =~= seq![]);
    assert(digits_value(seq![]) == 0);
    assert(is_digit(one[0]));
    assert(without_plus(one) == one);
    assert(digits_value(one) == (d as nat - '0' as nat) as nat);
    if s.len() > 0 {
        assert(is_digit(s[0]));
        assert(without_plus(s) == s);
        assert forall|j: int| 0 <= j < s.len() implies is_digit(#[trigger] s[j]) by {}
        let t = s.push(d);
        assert(t[0] == s[0]);
        assert(without_plus(t) == t);
        assert forall|j: int| 0 <= j < t.len() implies is_digit(#[trigger] t[j]) by {
            if j < s.len() {
                assert(t[j] == s[j]);
            }
        }
        assert(t.drop_last() =~= s);
        let u = seq!['+'] + s;
        assert(u.skip(1) =~= s);
        assert(without_plus(u) == s);
    }
}

/// What holds anything but digits behind an optional plus sign, or nothing there, is no number,
/// and a number above the largest one is refused.
pub proof fn law_no_number(s: Seq<char>, max: nat)
    ensures
        s.len() == 0 ==> decimal_value(s) is None,
        s == seq!['+'] ==> decimal_value(s) is None,
        (exists|j: int|
            0 <= j < s.len() && !('0' <= #[trigger] s[j] <= '9') && !(j == 0 && s[j] == '+'))
            ==> decimal_value(s) is None,
        bounded_decimal(s, max) == (if decimal_value(s) matches Some(n) && n <= max {
            decimal_value(s)
        } else {
            None
        }),
{
    let body = without_plus(s);
    if exists|j: int|
        0 <= j < s.len() && !('0' <= #[trigger] s[j] <= '9') && !(j == 0 && s[j] == '+') {
        let j = choose|j: int|
            0 <= j < s.len() && !('0' <= #[trigger] s[j] <= '9') && !(j == 0 && s[j] == '+');
        if s[0] == '+' {
            assert(body[j - 1] == s[j]);
            assert(!is_digit(body[j - 1]));
        } else {
            assert(!is_digit(body[j]));
        }
    }
}

/// One text comes before another where the first character in which they differ is smaller, or
/// where it is a shorter beginning of the other.
pub proof fn law_order_of_texts(a: Seq<char>, b: Seq<char>)
    ensures
        before(a, b) <==> exists|k: int|
            0 <= k <= a.len() && k < b.len() && #[trigger] a.take(k) == b.take(k) && (k == a.len()
                || a[k] < b[k]),
    decreases a.len(),
{
    if before(a, b) {
        if a.len() == 0 || a[0] != b[0] {
            assert(a.take(0) =~= b.take(0));
        } else {
            let x = a.skip(1);
            let y = b.skip(1);
            law_order_of_texts(x, y);
            let k = choose|k: int|
                0 <= k <= x.len() && k < y.len() && #[trigger] x.take(k) == y.take(k) && (k
                    == x.len() || x[k] < y[k]);
            assert(a.take(k + 1) =~= seq![a[0]] + x.take(k));
            assert(b.take(k + 1) =~= seq![b[0]] + y.take(k));
            assert(a.take(k + 1) == b.take(k + 1));
        }
    }
    if exists|k: int|
        0 <= k <= a.len() && k < b.len() && #[trigger] a.take(k) == b.take(k) && (k == a.len()
            || a[k] < b[k]) {
        let k = choose|k: int|
            0 <= k <= a.len() && k < b.len() && #[trigger] a.take(k) == b.take(k) && (k == a.len()
                || a[k] < b[k]);
        if k > 0 {
            assert(a.take(k)[0] == b.take(k)[0]);
            let x = a.skip(1);
            let y = b.skip(1);
            assert(x.take(k - 1) =~= a.take(k).skip(1));
            assert(y.take(k - 1) =~= b.take(k).skip(1));
            assert(x.take(k - 1) == y.take(k - 1));
            law_order_of_texts(x, y);
        }
    }
}

/// Each occurrence of a text is replaced, from the front on, and all else stays.
pub proof fn law_replaced_everywhere(s: Seq<char>, p: Seq<char>, q: Seq<char>)
    requires
        p.len() > 0,
    ensures
        replaced(p + s, p, q) == q + replaced(s, p, q),
        !contains(s, p) ==> replaced(s, p, q) == s,
        s.len() > 0 && !(exists|t: Seq<char>| s == #[trigger] (p + t)) ==> replaced(s, p, q)
            == seq![s[0]] + replaced(s.skip(1), p, q),
    decreases s.len(),
{
    law_affixes(s, p, s);
    assert((p + s).skip(p.len() as int) =~= s);
    if s.len() > 0 && !contains(s, p) {
        if starts_with(s, p) {
            assert(occurs_at(s, p, 0));
        }
        let t = s.skip(1);
        if contains(t, p) {
            let i = choose|i: int| occurs_at(t, p, i);
            assert(s.subrange(i + 1, i + 1 + p.len()) =~= t.subrange(i, i + p.len()));
            assert(occurs_at(s, p, i + 1));
        }
        law_replaced_everywhere(t, p, q);
        assert(seq![s[0]] + t =~= s);
    }
}

/// A number is written without a sign and without a zero before its first digit.
pub proof fn law_decimal_shape(n: nat)
    ensures
        decimal(n).len() > 0,
        forall|j: int| 0 <= j < decimal(n).len() ==> '0' <= #[trigger] decimal(n)[j] <= '9',
        n > 0 ==> decimal(n)[0] != '0',
        n == 0 ==> decimal(n) == seq!['0'],
    decreases n,
{
    if n >= 10 {
        law_decimal_shape(n / 10);
        let d = n % 10;
        assert forall|j: int| 0 <= j < decimal(n).len() implies '0' <= #[trigger] decimal(n)[j]
            <= '9' by {
            if j < decimal(n / 10).len() {
                assert(decimal(n)[j] == decimal(n / 10)[j]);
            }
        }
    }
}

/// The texts that are held are spoken of one by one, in their order.
pub proof fn law_texts_one_by_one(v: Seq<&str>, w: Seq<String>, i: int)
    ensures
        texts(v).len() == v.len(),
        0 <= i < v.len() ==> texts(v)[i] == v[i]@,
        owned_texts(w).len() == w.len(),
        0 <= i < w.len() ==> owned_texts(w)[i] == w[i]@,
{
}

/// White space is the tab, the line feeds and returns, the space, and the other characters that
/// Unicode counts to it; no letter, digit or mark of ASCII is.
pub proof fn law_white_space(c: char)
    ensures
        c == ' ' || c == '\t' || c == '\n' || c == '\r' || c == '\u{b}' || c == '\u{c}' ==> is_space(
            c,
        ),
        '!' <= c <= '~' ==> !is_space(c),
        c < '\t' ==> !is_space(c),
        '\u{e}' <= c <= '\u{1f}' ==> !is_space(c),
        c == '\u{85}' || c == '\u{a0}' || c == '\u{1680}' || c == '\u{2028}' || c == '\u{2029}' || c
            == '\u{202f}' || c == '\u{205f}' || c == '\u{3000}' ==> is_space(c),
        '\u{2000}' <= c <= '\u{200a}' ==> is_space(c),
        c > '\u{3000}' ==> !is_space(c),
{
}

} // verus!
