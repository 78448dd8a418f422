//! Directory listings: which entry is which.
use vstd::prelude::*;

use crate::text::{
    chars_of, cut_once, has_prefix, has_suffix, parse_usize, same_text, trim_end_text,
};

verus! {

/// An entry of a directory, with what can be read below it.
pub struct Entry {
    pub name: String,
    /// The name is the exact file name, not one in which unreadable parts were replaced.
    pub exact: bool,
    pub path: String,
    /// It is a directory itself; a link to one is not.
    pub is_dir: bool,
    /// It leads to something: false of a broken link.
    pub exists: bool,
    pub content: Result<String, String>,
    pub listing: Result<Vec<Entry>, String>,
}

// ---------------------------------------------------------------------------
// Numbered directories
// ---------------------------------------------------------------------------

/// The number and the hash of a trajectory directory, `trajectory_N_HASH`.
pub open spec fn trajectory_of(e: Entry) -> Option<(nat, Seq<char>)> {
    if crate::text::starts_with(e.name@, "trajectory_"@) && e.is_dir {
        match crate::text::split_once(e.name@, '_') {
            None => None,
            Some((_, rest)) => match crate::text::split_once(rest, '_') {
                None => None,
                Some((number, hash)) => match crate::text::bounded_decimal(
                    number,
                    usize::MAX as nat,
                ) {
                    None => None,
                    Some(n) => Some((n, hash)),
                },
            },
        }
    } else {
        None
    }
}

/// The number of a trajectory directory.
pub open spec fn trajectory_number(e: Entry) -> Option<nat> {
    match trajectory_of(e) {
        Some((n, _)) => Some(n),
        None => None,
    }
}

/// The number of a step directory, `step_N`.
pub open spec fn step_number(e: Entry) -> Option<nat> {
    if crate::text::starts_with(e.name@, "step_"@) && e.is_dir {
        crate::text::bounded_decimal(e.name@.skip(5), usize::MAX as nat)
    } else {
        None
    }
}

/// A numbered entry put in its place: behind the entries with the same or a smaller number.
pub open spec fn placed(s: Seq<(nat, int)>, x: (nat, int)) -> Seq<(nat, int)>
    decreases s.len(),
{
    if s.len() == 0 || s.last().0 <= x.0 {
        s.push(x)
    } else {
        placed(s.drop_last(), x).push(s.last())
    }
}

/// The numbered entries, as pairs of number and position, in the order of their numbers. Entries
/// with the same number stay in the order of the listing.
pub open spec fn in_order(numbers: Seq<Option<nat>>) -> Seq<(nat, int)>
    decreases numbers.len(),
{
    if numbers.len() == 0 {
        seq![]
    } else {
        let rest = in_order(numbers.drop_last());
        match numbers.last() {
            Some(n) => placed(rest, (n, numbers.len() - 1)),
            None => rest,
        }
    }
}

/// The numbers of the trajectory directories.
pub open spec fn trajectory_numbers(entries: Seq<Entry>) -> Seq<Option<nat>> {
    entries.map_values(|e: Entry| trajectory_number(e))
}

/// The numbers of the step directories.
pub open spec fn step_numbers(entries: Seq<Entry>) -> Seq<Option<nat>> {
    entries.map_values(|e: Entry| step_number(e))
}

/// A list of numbers and positions.
pub open spec fn pairs(v: Seq<(usize, usize)>) -> Seq<(nat, int)> {
    v.map_values(|p: (usize, usize)| (p.0 as nat, p.1 as int))
}

proof fn lemma_placed(s: Seq<(nat, int)>, x: (nat, int), at: int)
    requires
        0 <= at <= s.len(),
        at == 0 || s[at - 1].0 <= x.0,
        forall|k: int| at <= k < s.len() ==> (#[trigger] s[k]).0 > x.0,
    ensures
        placed(s, x) == s.insert(at, x),
    decreases s.len(),
{
    if at < s.len() {
        lemma_placed(s.drop_last(), x, at);
        assert(s.drop_last().insert(at, x).push(s.last()) =~= s.insert(at, x));
    } else {
        assert(s.push(x) =~= s.insert(at, x));
    }
}

fn place(v: &mut Vec<(usize, usize)>, x: (usize, usize))
    ensures
        pairs(final(v)@) == placed(pairs(old(v)@), (x.0 as nat, x.1 as int)),
{
    let ghost s = pairs(v@);
    let mut at: usize = v.len();
    while at > 0 && v[at - 1].0 > x.0
        invariant
            at <= v@.len(),
            s == pairs(v@),
            forall|k: int| at <= k < s.len() ==> (#[trigger] s[k]).0 > x.0,
        decreases at,
    {
        assert(s[at - 1] == (v@[at - 1].0 as nat, v@[at - 1].1 as int));
        at = at - 1;
    }
    proof {
        if at > 0 {
            assert(s[at - 1] == (v@[at - 1].0 as nat, v@[at - 1].1 as int));
        }
        lemma_placed(s, (x.0 as nat, x.1 as int), at as int);
    }
    v.insert(at, x);
    assert(pairs(v@) =~= s.insert(at as int, (x.0 as nat, x.1 as int)));
}

/// The number and the hash of a trajectory directory.
pub fn parse_trajectory_name(e: &Entry) -> (r: Option<(usize, &str)>)
    ensures
        match r {
            Some(p) => trajectory_of(*e) == Some((p.0 as nat, p.1@)),
            None => trajectory_of(*e) is None,
        },
{
    if !has_prefix(e.name.as_str(), "trajectory_") || !e.is_dir {
        return None;
    }
    match cut_once(e.name.as_str(), '_') {
        None => None,
        Some((_, rest)) => match cut_once(rest, '_') {
            None => None,
            Some((number, hash)) => match parse_usize(number) {
                None => None,
                Some(n) => Some((n, hash)),
            },
        },
    }
}

/// The number of a step directory.
pub fn parse_step_name(e: &Entry) -> (r: Option<usize>)
    ensures
        match r {
            Some(n) => step_number(*e) == Some(n as nat),
            None => step_number(*e) is None,
        },
{
    if !has_prefix(e.name.as_str(), "step_") || !e.is_dir {
        return None;
    }
    proof {
        reveal_strlit("step_");
    }
    let n: usize = chars_of(e.name.as_str()).len();
    assert(e.name@.skip(5) =~= e.name@.subrange(5, n as int));
    parse_usize(e.name.as_str().substring_char(5, n))
}

/// The trajectory directories in a listing: their numbers and positions, in order.
pub fn discover_trajectories(entries: &Vec<Entry>) -> (r: Vec<(usize, usize)>)
    ensures
        pairs(r@) == in_order(trajectory_numbers(entries@)),
{
    let ghost all = trajectory_numbers(entries@);
    let mut r: Vec<(usize, usize)> = Vec::new();
    let mut i: usize = 0;
    assert(pairs(r@) =~= in_order(all.take(0)));
    while i < entries.len()
        invariant
            all == trajectory_numbers(entries@),
            i <= entries@.len(),
            pairs(r@) == in_order(all.take(i as int)),
        decreases entries@.len() - i,
    {
        assert(all.take(i + 1).drop_last() =~= all.take(i as int));
        if let Some((n, _)) = parse_trajectory_name(&entries[i]) {
            place(&mut r, (n, i));
        }
        i = i + 1;
    }
    assert(all.take(entries@.len() as int) =~= all);
    r
}

/// The step directories in a listing: their numbers and positions, in order.
pub fn discover_steps(entries: &Vec<Entry>) -> (r: Vec<(usize, usize)>)
    ensures
        pairs(r@) == in_order(step_numbers(entries@)),
{
    let ghost all = step_numbers(entries@);
    let mut r: Vec<(usize, usize)> = Vec::new();
    let mut i: usize = 0;
    assert(pairs(r@) =~= in_order(all.take(0)));
    while i < entries.len()
        invariant
            all == step_numbers(entries@),
            i <= entries@.len(),
            pairs(r@) == in_order(all.take(i as int)),
        decreases entries@.len() - i,
    {
        assert(all.take(i + 1).drop_last() =~= all.take(i as int));
        if let Some(n) = parse_step_name(&entries[i]) {
            place(&mut r, (n, i));
        }
        i = i + 1;
    }
    assert(all.take(entries@.len() as int) =~= all);
    r
}

// ---------------------------------------------------------------------------
// Named files
// ---------------------------------------------------------------------------

/// Where the first prompt file stands, at or after position `k`.
pub open spec fn prompt_from(entries: Seq<Entry>, k: int) -> Option<int>
    decreases entries.len() - k,
{
    if k < 0 || k >= entries.len() {
        None
    } else if crate::text::ends_with(entries[k].name@, ".prompt"@) {
        Some(k)
    } else {
        prompt_from(entries, k + 1)
    }
}

/// The technique that a prompt file is about.
pub open spec fn technique_of(name: Seq<char>) -> Seq<char> {
    crate::text::without_suffixes(name, ".prompt"@)
}

/// Where the file with the exact name `x` stands, at or after position `k`.
pub open spec fn named_from(entries: Seq<Entry>, x: Seq<char>, k: int) -> Option<int>
    decreases entries.len() - k,
{
    if k < 0 || k >= entries.len() {
        None
    } else if entries[k].exact && entries[k].name@ == x {
        Some(k)
    } else {
        named_from(entries, x, k + 1)
    }
}

/// The file with the exact name `x`, if it leads to something.
pub open spec fn existing(entries: Seq<Entry>, x: Seq<char>) -> Option<int> {
    match named_from(entries, x, 0) {
        Some(k) => if entries[k].exists {
            Some(k)
        } else {
            None
        },
        None => None,
    }
}

/// What the file with the exact name `x` holds, if it can be read.
pub open spec fn text_of(entries: Seq<Entry>, x: Seq<char>) -> Option<Seq<char>> {
    match named_from(entries, x, 0) {
        Some(k) => match entries[k].content {
            Ok(t) => Some(t@),
            Err(_) => None,
        },
        None => None,
    }
}

/// The file at position `k` of the listing of a step is one of those that a step is read from.
pub open spec fn wanted(entries: Seq<Entry>, k: int) -> bool {
    match prompt_from(entries, 0) {
        Some(p) => {
            let technique = technique_of(entries[p].name@);
            ||| k == p
            ||| named_from(entries, technique + "_llm_response.txt"@, 0) == Some(k)
            ||| named_from(entries, "stats.txt"@, 0) == Some(k)
            ||| named_from(entries, technique + ".cu"@, 0) == Some(k)
            ||| named_from(entries, "compile.txt"@, 0) == Some(k)
            ||| named_from(entries, "execute.txt"@, 0) == Some(k)
        },
        None => false,
    }
}

/// The technique of the first prompt file in a listing, and where the file stands.
pub fn find_prompt_file(entries: &Vec<Entry>) -> (r: Option<(String, usize)>)
    ensures
        match r {
            Some(p) => p.1 < entries@.len() && prompt_from(entries@, 0) == Some(p.1 as int) && p.0@
                == technique_of(entries@[p.1 as int].name@),
            None => prompt_from(entries@, 0) is None,
        },
{
    let mut i: usize = 0;
    while i < entries.len()
        invariant
            i <= entries@.len(),
            prompt_from(entries@, 0) == prompt_from(entries@, i as int),
        decreases entries@.len() - i,
    {
        if has_suffix(entries[i].name.as_str(), ".prompt") {
            let technique = trim_end_text(entries[i].name.as_str(), ".prompt").to_owned();
            return Some((technique, i));
        }
        i = i + 1;
    }
    None
}

/// Where the file with the exact name `x` stands in a listing.
pub fn find_named(entries: &Vec<Entry>, x: &str) -> (r: Option<usize>)
    ensures
        match r {
            Some(k) => k < entries@.len() && named_from(entries@, x@, 0) == Some(k as int),
            None => named_from(entries@, x@, 0) is None,
        },
{
    let mut i: usize = 0;
    while i < entries.len()
        invariant
            i <= entries@.len(),
            named_from(entries@, x@, 0) == named_from(entries@, x@, i as int),
        decreases entries@.len() - i,
    {
        if entries[i].exact && same_text(entries[i].name.as_str(), x) {
            return Some(i);
        }
        i = i + 1;
    }
    None
}

/// Where the file with the exact name `x` stands, if it leads to something.
pub fn find_existing(entries: &Vec<Entry>, x: &str) -> (r: Option<usize>)
    ensures
        match r {
            Some(k) => k < entries@.len() && existing(entries@, x@) == Some(k as int),
            None => existing(entries@, x@) is None,
        },
{
    match find_named(entries, x) {
        Some(k) => if entries[k].exists {
            Some(k)
        } else {
            None
        },
        None => None,
    }
}

/// Where the response to a technique's prompt stands in the listing of a step.
pub fn find_response_file(entries: &Vec<Entry>, technique: &str) -> (r: Option<usize>)
    ensures
        match r {
            Some(k) => k < entries@.len() && existing(
                entries@,
                technique@ + "_llm_response.txt"@,
            ) == Some(k as int),
            None => existing(entries@, technique@ + "_llm_response.txt"@) is None,
        },
{
    let mut name = technique.to_owned();
    name.append("_llm_response.txt");
    find_existing(entries, name.as_str())
}

/// What the file with the exact name `x` holds, if it can be read.
pub fn read_file_optional(entries: &Vec<Entry>, x: &str) -> (r: Option<String>)
    ensures
        crate::ingest::files::optional_text(r) == text_of(entries@, x@),
{
    match find_named(entries, x) {
        Some(k) => match &entries[k].content {
            Ok(t) => Some(t.clone()),
            Err(_) => None,
        },
        None => None,
    }
}

/// The positions of the files that a step is read from, in no particular order.
pub fn wanted_files(entries: &Vec<Entry>) -> (r: Vec<usize>)
    ensures
        forall|k: usize| #[trigger] r@.contains(k) <==> wanted(entries@, k as int),
        forall|i: int| 0 <= i < r@.len() ==> #[trigger] r@[i] < entries@.len(),
{
    let mut r: Vec<usize> = Vec::new();
    let (technique, prompt_at) = match find_prompt_file(entries) {
        Some(found) => found,
        None => {
            return r;
        },
    };
    let mut response = technique.clone();
    response.append("_llm_response.txt");
    let mut code = technique.clone();
    code.append(".cu");
    let a = find_named(entries, response.as_str());
    let b = find_named(entries, "stats.txt");
    let c = find_named(entries, code.as_str());
    let d = find_named(entries, "compile.txt");
    let e = find_named(entries, "execute.txt");
    r.push(prompt_at);
    proof {
        assert(r@[0] == prompt_at);
    }
    add_position(&mut r, a);
    add_position(&mut r, b);
    add_position(&mut r, c);
    add_position(&mut r, d);
    add_position(&mut r, e);
    proof {
        assert forall|i: int| 0 <= i < r@.len() implies #[trigger] r@[i] < entries@.len() by {
            assert(r@.contains(r@[i]));
        }
    }
    r
}

fn add_position(v: &mut Vec<usize>, x: Option<usize>)
    ensures
        forall|k: usize| #[trigger]
            final(v)@.contains(k) <==> old(v)@.contains(k) || x == Some(k),
{
    let ghost had = v@;
    if let Some(k) = x {
        v.push(k);
        proof {
            assert(v@[had.len() as int] == k);
            assert forall|j: usize| #[trigger] v@.contains(j) <==> had.contains(j) || j == k by {
                if had.contains(j) {
                    let i = choose|i: int| 0 <= i < had.len() && had[i] == j;
                    assert(v@[i] == j);
                }
            }
        }
    }
}

// ---------------------------------------------------------------------------
// Laws
// ---------------------------------------------------------------------------

/// Two listings name the same entries.
pub open spec fn same_names(a: Seq<Entry>, b: Seq<Entry>) -> bool {
    &&& a.len() == b.len()
    &&& forall|k: int|
        0 <= k < a.len() ==> (#[trigger] a[k]).name@ == b[k].name@ && a[k].exact == b[k].exact
            && a[k].path@ == b[k].path@ && a[k].exists == b[k].exists
}

/// Which file is which does not rest on what the files hold.
pub proof fn law_names_decide(a: Seq<Entry>, b: Seq<Entry>, x: Seq<char>, k: int)
    requires
        same_names(a, b),
        0 <= k <= a.len(),
    ensures
        prompt_from(a, k) == prompt_from(b, k),
        named_from(a, x, k) == named_from(b, x, k),
        prompt_from(a, k) matches Some(p) ==> 0 <= p < a.len(),
        named_from(a, x, k) matches Some(p) ==> 0 <= p < a.len(),
    decreases a.len() - k,
{
    if k < a.len() {
        law_names_decide(a, b, x, k + 1);
        assert(a[k].name@ == b[k].name@);
    }
}

proof fn lemma_placed_keeps_order(s: Seq<(nat, int)>, x: (nat, int))
    requires
        forall|i: int, j: int|
            0 <= i < j < s.len() ==> (#[trigger] s[i]).0 < (#[trigger] s[j]).0 || (s[i].0 == s[j].0
                && s[i].1 < s[j].1),
        forall|i: int| 0 <= i < s.len() ==> (#[trigger] s[i]).1 < x.1,
    ensures
        forall|i: int, j: int|
            #![trigger placed(s, x)[i], placed(s, x)[j]]
            0 <= i < j < placed(s, x).len() ==> placed(s, x)[i].0 < placed(s, x)[j].0 || (placed(
                s,
                x,
            )[i].0 == placed(s, x)[j].0 && placed(s, x)[i].1 < placed(s, x)[j].1),
        forall|y: (nat, int)| #[trigger] placed(s, x).contains(y) <==> s.contains(y) || y == x,
    decreases s.len(),
{
    let r = placed(s, x);
    if s.len() == 0 || s.last().0 <= x.0 {
        assert forall|i: int, j: int| 0 <= i < j < r.len() implies (#[trigger] r[i]).0 < (
        #[trigger] r[j]).0 || (r[i].0 == r[j].0 && r[i].1 < r[j].1) by {
            if j == s.len() {
                if i < s.len() - 1 {
                    assert(s[i].0 <= s[s.len() - 1].0);
                }
            }
        }
        assert forall|y: (nat, int)| #[trigger] r.contains(y) <==> s.contains(y) || y == x by {
            if s.contains(y) {
                let k = choose|k: int| 0 <= k < s.len() && s[k] == y;
                assert(r[k] == y);
            }
            assert(r[s.len() as int] == x);
        }
    } else {
        let t = s.drop_last();
        lemma_placed_keeps_order(t, x);
        let p = placed(t, x);
        assert(r == p.push(s.last()));
        assert forall|i: int, j: int| 0 <= i < j < r.len() implies (#[trigger] r[i]).0 < (
        #[trigger] r[j]).0 || (r[i].0 == r[j].0 && r[i].1 < r[j].1) by {
            if j == p.len() {
                assert(p.contains(p[i]));
                if t.contains(p[i]) {
                    let k = choose|k: int| 0 <= k < t.len() && t[k] == p[i];
                    assert(s[k] == p[i] && s[s.len() - 1] == s.last());
                }
            } else {
                assert(r[i] == p[i] && r[j] == p[j]);
            }
        }
        assert forall|y: (nat, int)| #[trigger] r.contains(y) <==> s.contains(y) || y == x by {
            assert(p.contains(y) <==> t.contains(y) || y == x);
            if r.contains(y) {
                let k = choose|k: int| 0 <= k < r.len() && r[k] == y;
                if k < p.len() {
                    assert(p[k] == y);
                    assert(p.contains(y));
                    if t.contains(y) {
                        let m = choose|m: int| 0 <= m < t.len() && t[m] == y;
                        assert(s[m] == y);
                    }
                } else {
                    assert(s[s.len() - 1] == y);
                }
            }
            if s.contains(y) || y == x {
                if y == x || t.contains(y) {
                    assert(p.contains(y));
                    let k = choose|k: int| 0 <= k < p.len() && p[k] == y;
                    assert(r[k] == y);
                } else {
                    let m = choose|m: int| 0 <= m < s.len() && s[m] == y;
                    if m < t.len() {
                        assert(t[m] == y);
                    }
                    assert(r[p.len() as int] == y);
                }
            }
        }
    }
}

/// The numbered entries are all there, once each, by number, and within a number in the order
/// of the listing.
pub proof fn law_in_order(numbers: Seq<Option<nat>>)
    ensures
        forall|i: int, j: int|
            #![trigger in_order(numbers)[i], in_order(numbers)[j]]
            0 <= i < j < in_order(numbers).len() ==> in_order(numbers)[i].0 < in_order(
                numbers,
            )[j].0 || (in_order(numbers)[i].0 == in_order(numbers)[j].0 && in_order(numbers)[i].1
                < in_order(numbers)[j].1),
        forall|n: nat, k: int| #[trigger]
            in_order(numbers).contains((n, k)) <==> 0 <= k < numbers.len() && numbers[k] == Some(n),
    decreases numbers.len(),
{
    if numbers.len() > 0 {
        let before = numbers.drop_last();
        let rest = in_order(before);
        law_in_order(before);
        assert forall|i: int| 0 <= i < rest.len() implies (#[trigger] rest[i]).1 < numbers.len()
            - 1 by {
            assert(rest.contains((rest[i].0, rest[i].1)));
        }
        if let Some(n) = numbers.last() {
            lemma_placed_keeps_order(rest, (n, numbers.len() - 1));
        }
        assert forall|n: nat, k: int| #[trigger]
            in_order(numbers).contains((n, k)) <==> 0 <= k < numbers.len() && numbers[k] == Some(
            n,
        ) by {
            assert(rest.contains((n, k)) <==> 0 <= k < before.len() && before[k] == Some(n));
        }
    }
}

/// A directory named by `trajectory_`, a number, an underscore and a hash is the trajectory of
/// that number and that hash.
pub proof fn law_trajectory_names(e: Entry, number: Seq<char>, hash: Seq<char>)
    requires
        e.name@ == "trajectory_"@ + number + "_"@ + hash,
        !number.contains('_'),
    ensures
        e.is_dir ==> (match crate::text::bounded_decimal(number, usize::MAX as nat) {
            Some(n) => trajectory_of(e) == Some((n, hash)),
            None => trajectory_of(e) is None,
        }),
        !e.is_dir ==> trajectory_of(e) is None,
{
    lemma_trajectory_word();
    let word = "trajectory_"@;
    let first = word.take(10);
    let rest = number + seq!['_'] + hash;
    lemma_join(word, number, seq!['_'], hash);
    assert(e.name@ == word + rest);
    assert(e.name@ == first + seq!['_'] + rest);
    crate::text::law_affixes(seq![], word, rest);
    crate::text::law_cut_at_the_first(first, '_', rest);
    crate::text::law_cut_at_the_first(number, '_', hash);
}

/// A trajectory is a directory whose name is `trajectory_`, its number, an underscore and its
/// hash: `number` is how the number is written.
pub proof fn law_trajectories_are_named(e: Entry) -> (number: Seq<char>)
    requires
        trajectory_of(e) is Some,
    ensures
        e.is_dir,
        e.name@ == "trajectory_"@ + number + "_"@ + (trajectory_of(e)->Some_0).1,
        !number.contains('_'),
        crate::text::decimal_value(number) == Some((trajectory_of(e)->Some_0).0),
        (trajectory_of(e)->Some_0).0 <= usize::MAX,
{
    lemma_trajectory_word();
    let name = e.name@;
    let word = "trajectory_"@;
    let first = word.take(10);
    let tail = name.skip(word.len() as int);
    assert(name == word + tail) by {
        crate::text::law_affixes(name, word, seq![]);
    }
    assert(crate::text::split_once(name, '_') == Some((first, tail))) by {
        assert(name == first + seq!['_'] + tail);
        crate::text::law_cut_at_the_first(first, '_', tail);
    }
    crate::text::law_cut_parts(tail, '_');
    let (number, hash) = crate::text::split_once(tail, '_')->Some_0;
    lemma_join(word, number, seq!['_'], hash);
    number
}

proof fn lemma_trajectory_word()
    ensures
        "_"@ == seq!['_'],
        "trajectory_"@ == "trajectory_"@.take(10) + seq!['_'],
        !"trajectory_"@.take(10).contains('_'),
{
    reveal_strlit("trajectory_");
    reveal_strlit("_");
    let word = "trajectory_"@;
    let first = word.take(10);
    assert("_"@ =~= seq!['_']);
    assert(word =~= first + seq!['_']);
    assert forall|i: int| 0 <= i < first.len() implies #[trigger] first[i] != '_' by {
        assert(first[i] == word[i]);
    }
}

proof fn lemma_join(a: Seq<char>, b: Seq<char>, c: Seq<char>, d: Seq<char>)
    ensures
        a + (b + c + d) == a + b + c + d,
{
    assert(a + (b + c + d) =~= a + b + c + d);
}

/// A step is a directory whose name is `step_` and its number.
pub proof fn law_step_names(e: Entry, number: Seq<char>)
    ensures
        e.name@ == "step_"@ + number && e.is_dir ==> step_number(e) == crate::text::bounded_decimal(
            number,
            usize::MAX as nat,
        ),
        step_number(e) is Some ==> e.is_dir && e.name@ == "step_"@ + e.name@.skip(5)
            && step_number(e) == crate::text::decimal_value(e.name@.skip(5)) && step_number(e)->0
            <= usize::MAX,
{
    reveal_strlit("step_");
    crate::text::law_affixes(seq![], "step_"@, number);
    crate::text::law_affixes(e.name@, "step_"@, seq![]);
    assert(("step_"@ + number).skip(5) =~= number);
}

/// The prompt of a step is the first file whose name ends in `.prompt`, and its technique is the
/// name without that ending.
pub proof fn law_first_prompt(entries: Seq<Entry>, k: int)
    requires
        0 <= k <= entries.len(),
    ensures
        match prompt_from(entries, k) {
            Some(p) => k <= p < entries.len() && crate::text::ends_with(
                entries[p].name@,
                ".prompt"@,
            ) && forall|i: int|
                k <= i < p ==> !crate::text::ends_with((#[trigger] entries[i]).name@, ".prompt"@),
            None => forall|i: int|
                k <= i < entries.len() ==> !crate::text::ends_with(
                    (#[trigger] entries[i]).name@,
                    ".prompt"@,
                ),
        },
    decreases entries.len() - k,
{
    if k < entries.len() && !crate::text::ends_with(entries[k].name@, ".prompt"@) {
        law_first_prompt(entries, k + 1);
    }
}

/// The technique of a prompt file is its name without the ending.
pub proof fn law_technique_is_the_name(technique: Seq<char>)
    requires
        !crate::text::ends_with(technique, ".prompt"@),
    ensures
        technique_of(technique + ".prompt"@) == technique,
{
    reveal_strlit(".prompt");
    crate::text::law_affixes_taken_away(technique, ".prompt"@);
    assert(crate::text::without_suffixes(technique, ".prompt"@) == technique);
}

/// A file is the first entry whose exact name it has. It is there where that entry leads to
/// something, and its text is known where it could be read.
pub proof fn law_file_by_its_name(entries: Seq<Entry>, x: Seq<char>, i: int)
    requires
        0 <= i < entries.len(),
        entries[i].exact,
        entries[i].name@ == x,
        forall|k: int|
            0 <= k < i ==> !((#[trigger] entries[k]).exact && entries[k].name@ == x),
    ensures
        existing(entries, x) == (if entries[i].exists {
            Some(i)
        } else {
            None
        }),
        text_of(entries, x) == (match entries[i].content {
            Ok(t) => Some(t@),
            Err(_) => None,
        }),
{
    lemma_first_named(entries, x, 0, i);
}

proof fn lemma_first_named(entries: Seq<Entry>, x: Seq<char>, k: int, i: int)
    requires
        0 <= k <= i < entries.len(),
        entries[i].exact,
        entries[i].name@ == x,
        forall|j: int|
            k <= j < i ==> !((#[trigger] entries[j]).exact && entries[j].name@ == x),
    ensures
        named_from(entries, x, k) == Some(i),
    decreases i - k,
{
    if k < i {
        assert(!(entries[k].exact && entries[k].name@ == x));
        lemma_first_named(entries, x, k + 1, i);
    }
}

/// A file of a name that no entry has exactly is not there.
pub proof fn law_missing_file(entries: Seq<Entry>, x: Seq<char>)
    requires
        forall|k: int|
            0 <= k < entries.len() ==> !((#[trigger] entries[k]).exact && entries[k].name@ == x),
    ensures
        existing(entries, x) is None,
        text_of(entries, x) is None,
{
    lemma_none_named(entries, x, 0);
}

proof fn lemma_none_named(entries: Seq<Entry>, x: Seq<char>, k: int)
    requires
        0 <= k <= entries.len(),
        forall|j: int|
            k <= j < entries.len() ==> !((#[trigger] entries[j]).exact && entries[j].name@ == x),
    ensures
        named_from(entries, x, k) is None,
    decreases entries.len() - k,
{
    if k < entries.len() {
        assert(!(entries[k].exact && entries[k].name@ == x));
        lemma_none_named(entries, x, k + 1);
    }
}

/// The files that a step is read from are its prompt, the response to it, its numbers, its code
/// and the logs of the compiler and of the run: of each the first entry of its name.
pub proof fn law_wanted_files(entries: Seq<Entry>, technique: Seq<char>, p: int, k: int)
    requires
        0 <= p < entries.len(),
        0 <= k < entries.len(),
        entries[p].name@ == technique + ".prompt"@,
        !crate::text::ends_with(technique, ".prompt"@),
        forall|i: int|
            0 <= i < p ==> !crate::text::ends_with((#[trigger] entries[i]).name@, ".prompt"@),
        forall|i: int| 0 <= i < k ==> (#[trigger] entries[i]).name@ != entries[k].name@,
        entries[k].exact,
    ensures
        wanted(entries, p),
        wanted(entries, k) <==> k == p || entries[k].name@ == technique + "_llm_response.txt"@
            || entries[k].name@ == "stats.txt"@ || entries[k].name@ == technique + ".cu"@
            || entries[k].name@ == "compile.txt"@ || entries[k].name@ == "execute.txt"@,
{
    crate::text::law_affixes(technique, ".prompt"@, seq![]);
    law_first_prompt(entries, 0);
    assert(prompt_from(entries, 0) == Some(p));
    law_technique_is_the_name(technique);
    let x = entries[k].name@;
    lemma_first_named(entries, x, 0, k);
    lemma_named_is_named(entries, technique + "_llm_response.txt"@, 0);
    lemma_named_is_named(entries, "stats.txt"@, 0);
    lemma_named_is_named(entries, technique + ".cu"@, 0);
    lemma_named_is_named(entries, "compile.txt"@, 0);
    lemma_named_is_named(entries, "execute.txt"@, 0);
}

pub proof fn lemma_named_is_named(entries: Seq<Entry>, x: Seq<char>, k: int)
    requires
        0 <= k <= entries.len(),
    ensures
        named_from(entries, x, k) matches Some(i) ==> k <= i < entries.len() && entries[i].exact
            && entries[i].name@ == x,
    decreases entries.len() - k,
{
    if k < entries.len() && !(entries[k].exact && entries[k].name@ == x) {
        lemma_named_is_named(entries, x, k + 1);
    }
}

/// What was found is spoken of one by one, each with its number and its place.
pub proof fn law_found_one_by_one(v: Seq<(usize, usize)>, entries: Seq<Entry>, i: int)
    ensures
        pairs(v).len() == v.len(),
        0 <= i < v.len() ==> pairs(v)[i] == (v[i].0 as nat, v[i].1 as int),
        step_numbers(entries).len() == entries.len(),
        trajectory_numbers(entries).len() == entries.len(),
        0 <= i < entries.len() ==> step_numbers(entries)[i] == step_number(entries[i]),
        0 <= i < entries.len() ==> (match trajectory_of(entries[i]) {
            Some((n, _)) => trajectory_numbers(entries)[i] == Some(n),
            None => trajectory_numbers(entries)[i] is None,
        }),
{
}

} // verus!
