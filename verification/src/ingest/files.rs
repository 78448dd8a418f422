//! What the files of a log directory say.
use vstd::prelude::*;

use crate::double::{zero, Real};
use crate::text::{
    chars_of, cut_once, find_from, find_last, has_prefix, has_text, owned_texts, parse_u64, split_lines,
    split_text, trim, trim_end_char,
};

verus! {

// ---------------------------------------------------------------------------
// stats.txt
// ---------------------------------------------------------------------------

/// The numbers of a `stats.txt`. The two fractional ones are kept as they are written.
pub struct Stats {
    pub baseline_cycles: u64,
    pub elapsed_cycles: u64,
    pub improvement: Option<String>,
    pub reward: Option<String>,
}

pub struct StatsView {
    pub baseline_cycles: nat,
    pub elapsed_cycles: nat,
    pub improvement: Option<Seq<char>>,
    pub reward: Option<Seq<char>>,
}

/// A text that may be missing.
pub open spec fn optional_text(t: Option<String>) -> Option<Seq<char>> {
    match t {
        Some(s) => Some(s@),
        None => None,
    }
}

impl View for Stats {
    type V = StatsView;

    open spec fn view(&self) -> StatsView {
        StatsView {
            baseline_cycles: self.baseline_cycles as nat,
            elapsed_cycles: self.elapsed_cycles as nat,
            improvement: optional_text(self.improvement),
            reward: optional_text(self.reward),
        }
    }
}

/// The value of a count: zero where it is not a number.
pub open spec fn count_of(s: Seq<char>) -> nat {
    match crate::text::bounded_decimal(s, u64::MAX as nat) {
        Some(n) => n,
        None => 0,
    }
}

/// One line, `key : value`. The key says by its beginning which number the value is.
pub open spec fn with_line(s: StatsView, line: Seq<char>) -> StatsView {
    match crate::text::split_once(line, ':') {
        None => s,
        Some((k, v)) => {
            let key = crate::text::trimmed(k);
            let value = crate::text::trimmed_end_of(crate::text::trimmed(v), '%');
            if crate::text::starts_with(key, "baseline"@) {
                StatsView { baseline_cycles: count_of(value), ..s }
            } else if crate::text::starts_with(key, "elapsed"@) {
                StatsView { elapsed_cycles: count_of(value), ..s }
            } else if crate::text::starts_with(key, "improvement"@) {
                StatsView { improvement: Some(value), ..s }
            } else if crate::text::starts_with(key, "reward"@) {
                StatsView { reward: Some(value), ..s }
            } else {
                s
            }
        },
    }
}

/// What the lines say together: of two lines on one number, the later one counts.
pub open spec fn stats_of(lines: Seq<Seq<char>>) -> StatsView
    decreases lines.len(),
{
    if lines.len() == 0 {
        StatsView { baseline_cycles: 0, elapsed_cycles: 0, improvement: None, reward: None }
    } else {
        with_line(stats_of(lines.drop_last()), lines.last())
    }
}

fn parse_count(s: &str) -> (n: u64)
    ensures
        n == count_of(s@),
{
    match parse_u64(s) {
        Some(n) => n,
        None => 0,
    }
}

fn take_line(stats: &mut Stats, line: &str)
    ensures
        final(stats)@ == with_line(old(stats)@, line@),
{
    match cut_once(line, ':') {
        None => {},
        Some((k, v)) => {
            let key = trim(k);
            let value = trim_end_char(trim(v), '%');
            if has_prefix(key, "baseline") {
                stats.baseline_cycles = parse_count(value);
            } else if has_prefix(key, "elapsed") {
                stats.elapsed_cycles = parse_count(value);
            } else if has_prefix(key, "improvement") {
                stats.improvement = Some(value.to_owned());
            } else if has_prefix(key, "reward") {
                stats.reward = Some(value.to_owned());
            }
        },
    }
}

/// Reads a `stats.txt`.
pub fn parse_stats(content: &str) -> (r: Stats)
    ensures
        r@ == stats_of(crate::text::lines_of(content@)),
{
    let lines = split_lines(content);
    let ghost all = crate::text::texts(lines@);
    let mut stats = Stats {
        baseline_cycles: 0,
        elapsed_cycles: 0,
        improvement: None,
        reward: None,
    };
    let mut i: usize = 0;
    assert(all.take(0) =~= seq![]);
    while i < lines.len()
        invariant
            all == crate::text::texts(lines@),
            i <= lines@.len(),
            stats@ == stats_of(all.take(i as int)),
        decreases lines@.len() - i,
    {
        take_line(&mut stats, lines[i]);
        assert(all.take(i + 1).drop_last() =~= all.take(i as int));
        i = i + 1;
    }
    assert(all.take(lines@.len() as int) =~= all);
    stats
}

// ---------------------------------------------------------------------------
// optimization-plan.json
// ---------------------------------------------------------------------------

/// Where the JSON of a fenced plan begins and ends: from the first `[` to the last `]`.
pub open spec fn fenced_range(s: Seq<char>) -> (int, int) {
    (
        match crate::text::position(s, '[') {
            Some(n) => n,
            None => 0,
        },
        match crate::text::last_position(s, ']') {
            Some(n) => n + 1,
            None => s.len() as int,
        },
    )
}

/// The plan is not fenced, or its brackets stand in order.
pub open spec fn brackets_in_order(content: Seq<char>) -> bool {
    let s = crate::text::trimmed(content);
    crate::text::starts_with(s, "```"@) ==> fenced_range(s).0 <= fenced_range(s).1
}

/// The JSON text of a plan.
pub open spec fn plan_json(content: Seq<char>) -> Seq<char> {
    let s = crate::text::trimmed(content);
    if crate::text::starts_with(s, "```"@) {
        s.subrange(fenced_range(s).0, fenced_range(s).1)
    } else {
        s
    }
}

fn find_fenced(cs: &Vec<char>) -> (r: (usize, usize))
    ensures
        fenced_range(cs@) == (r.0 as int, r.1 as int),
        r.0 <= cs@.len(),
        r.1 <= cs@.len(),
{
    let n: usize = cs.len();
    proof {
        crate::text::lemma_position_from_bounds(cs@, '[', 0);
        crate::text::lemma_last_position_in_bounds(cs@, ']', n as int);
    }
    let start: usize = match find_from(cs, '[', 0) {
        Some(k) => k,
        None => 0,
    };
    let end: usize = match find_last(cs, ']') {
        Some(k) => k + 1,
        None => n,
    };
    (start, end)
}

/// Whether the JSON text of a plan can be cut out.
pub fn plan_readable(content: &str) -> (r: bool)
    ensures
        r == brackets_in_order(content@),
{
    let cleaned = trim(content);
    if has_prefix(cleaned, "```") {
        let cs = chars_of(cleaned);
        let range = find_fenced(&cs);
        range.0 <= range.1
    } else {
        true
    }
}

/// The JSON text of an `optimization-plan.json`, which may stand in a code fence.
pub fn parse_optimization_plan(content: &str) -> (r: &str)
    requires
        brackets_in_order(content@),
    ensures
        r@ == plan_json(content@),
{
    let cleaned = trim(content);
    if has_prefix(cleaned, "```") {
        let cs = chars_of(cleaned);
        let range = find_fenced(&cs);
        cleaned.substring_char(range.0, range.1)
    } else {
        cleaned
    }
}

// ---------------------------------------------------------------------------
// rewards.csv
// ---------------------------------------------------------------------------

/// The fields of a `rewards.csv`.
pub open spec fn reward_fields(content: Seq<char>) -> Seq<Seq<char>> {
    crate::text::split_at_each(crate::text::trimmed(content), ',').map_values(
        |s: Seq<char>| crate::text::trimmed(s),
    )
}

/// The fields of a `rewards.csv`, as they are written.
pub fn parse_rewards_csv(content: &str) -> (r: Vec<String>)
    ensures
        owned_texts(r@) == reward_fields(content@),
{
    let pieces = split_text(trim(content), ',');
    let mut r: Vec<String> = Vec::new();
    let mut i: usize = 0;
    while i < pieces.len()
        invariant
            i <= pieces@.len(),
            r@.len() == i,
            forall|k: int| 0 <= k < i ==> #[trigger] r@[k]@ == crate::text::trimmed(pieces@[k]@),
        decreases pieces@.len() - i,
    {
        r.push(trim(pieces[i]).to_owned());
        i = i + 1;
    }
    proof {
        let all = crate::text::texts(pieces@);
        assert forall|k: int| 0 <= k < r@.len() implies #[trigger] owned_texts(r@)[k]
            == reward_fields(content@)[k] by {
            assert(all[k] == pieces@[k]@);
        }
        assert(owned_texts(r@) =~= reward_fields(content@));
    }
    r
}

/// The numbers among the fields.
pub open spec fn numbers_in(v: Seq<Option<Real>>) -> Seq<Real>
    decreases v.len(),
{
    if v.len() == 0 {
        seq![]
    } else {
        match v.last() {
            Some(x) => numbers_in(v.drop_last()).push(x),
            None => numbers_in(v.drop_last()),
        }
    }
}

/// Keeps the fields that are numbers.
pub fn keep_numbers(v: &Vec<Option<Real>>) -> (r: Vec<Real>)
    ensures
        r@ == numbers_in(v@),
{
    let mut r: Vec<Real> = Vec::new();
    let mut i: usize = 0;
    assert(v@.take(0) =~= seq![]);
    while i < v.len()
        invariant
            i <= v@.len(),
            r@ == numbers_in(v@.take(i as int)),
        decreases v@.len() - i,
    {
        assert(v@.take(i + 1).drop_last() =~= v@.take(i as int));
        if let Some(x) = v[i] {
            r.push(x);
        }
        i = i + 1;
    }
    assert(v@.take(v@.len() as int) =~= v@);
    r
}

/// A number that may be missing counts as zero.
pub open spec fn number_or_zero(x: Option<Real>) -> Real {
    match x {
        Some(v) => v,
        None => zero(),
    }
}

/// A number, or zero where there is none.
pub fn or_zero(x: Option<Real>) -> (r: Real)
    ensures
        r == number_or_zero(x),
{
    match x {
        Some(v) => v,
        None => Real::zero(),
    }
}

// ---------------------------------------------------------------------------
// compile.txt and execute.txt
// ---------------------------------------------------------------------------

/// Whether a compiler log in lower case is free of errors.
pub fn compiled_cleanly(lowered: &str) -> (r: bool)
    ensures
        r == !crate::text::contains(lowered@, "error"@),
{
    !has_text(lowered, "error")
}

/// Whether an execution log in lower case says that the run passed.
pub fn ran_well(lowered: &str) -> (r: bool)
    ensures
        r == crate::text::contains(lowered@, "passed"@),
{
    has_text(lowered, "passed")
}

// ---------------------------------------------------------------------------
// Laws
// ---------------------------------------------------------------------------

/// A line of a `stats.txt` sets the number that its key names, whatever the lines before it said,
/// and leaves the other numbers as they were. A count that is no number is zero.
pub proof fn law_line_sets_its_number(lines: Seq<Seq<char>>, key: Seq<char>, value: Seq<char>)
    requires
        !key.contains(':'),
    ensures
        ({
            let had = stats_of(lines);
            let now = stats_of(lines.push(key + seq![':'] + value));
            let k = crate::text::trimmed(key);
            let v = crate::text::trimmed_end_of(crate::text::trimmed(value), '%');
            let count = match crate::text::decimal_value(v) {
                Some(n) => if n <= 0xFFFF_FFFF_FFFF_FFFF {
                    n
                } else {
                    0
                },
                None => 0,
            };
            &&& crate::text::starts_with(k, "baseline"@) ==> now == (StatsView {
                baseline_cycles: count,
                ..had
            })
            &&& crate::text::starts_with(k, "elapsed"@) ==> now == (StatsView {
                elapsed_cycles: count,
                ..had
            })
            &&& crate::text::starts_with(k, "improvement"@) ==> now == (StatsView {
                improvement: Some(v),
                ..had
            })
            &&& crate::text::starts_with(k, "reward"@) ==> now == (StatsView {
                reward: Some(v),
                ..had
            })
        }),
{
    let line = key + seq![':'] + value;
    crate::text::law_cut_at_the_first(key, ':', value);
    assert(lines.push(line).drop_last() =~= lines);
    let k = crate::text::trimmed(key);
    reveal_strlit("baseline");
    reveal_strlit("elapsed");
    reveal_strlit("improvement");
    reveal_strlit("reward");
    lemma_first_letter(k, "baseline"@);
    lemma_first_letter(k, "elapsed"@);
    lemma_first_letter(k, "improvement"@);
    lemma_first_letter(k, "reward"@);
}

proof fn lemma_first_letter(s: Seq<char>, p: Seq<char>)
    requires
        p.len() > 0,
    ensures
        crate::text::starts_with(s, p) ==> s.len() > 0 && s[0] == p[0],
{
    if crate::text::starts_with(s, p) {
        assert(s.subrange(0, p.len() as int)[0] == s[0]);
    }
}

/// A line of a `stats.txt` that has no key, or another one, says nothing, and without lines no
/// number is known.
pub proof fn law_other_lines_say_nothing(lines: Seq<Seq<char>>, line: Seq<char>)
    ensures
        !line.contains(':') ==> stats_of(lines.push(line)) == stats_of(lines),
        forall|key: Seq<char>, value: Seq<char>|
            line == #[trigger] (key + seq![':'] + value) && !key.contains(':')
                && !crate::text::starts_with(crate::text::trimmed(key), "baseline"@)
                && !crate::text::starts_with(crate::text::trimmed(key), "elapsed"@)
                && !crate::text::starts_with(crate::text::trimmed(key), "improvement"@)
                && !crate::text::starts_with(crate::text::trimmed(key), "reward"@) ==> stats_of(
                lines.push(line),
            ) == stats_of(lines),
        lines.len() == 0 ==> stats_of(lines) == (StatsView {
            baseline_cycles: 0,
            elapsed_cycles: 0,
            improvement: None,
            reward: None,
        }),
{
    assert(lines.push(line).drop_last() =~= lines);
    crate::text::law_found_where_it_stands(line, ':');
    assert forall|key: Seq<char>, value: Seq<char>|
        line == #[trigger] (key + seq![':'] + value) && !key.contains(':')
            && !crate::text::starts_with(crate::text::trimmed(key), "baseline"@)
            && !crate::text::starts_with(crate::text::trimmed(key), "elapsed"@)
            && !crate::text::starts_with(crate::text::trimmed(key), "improvement"@)
            && !crate::text::starts_with(
            crate::text::trimmed(key),
            "reward"@,
        ) implies stats_of(lines.push(line)) == stats_of(lines) by {
        crate::text::law_cut_at_the_first(key, ':', value);
    }
}

/// A plan in a fence is what stands between the first opening bracket and the last closing one,
/// both of them with it.
pub proof fn law_plan_between_brackets(
    content: Seq<char>,
    front: Seq<char>,
    body: Seq<char>,
    back: Seq<char>,
)
    requires
        crate::text::starts_with(crate::text::trimmed(content), "```"@),
        crate::text::trimmed(content) == front + seq!['['] + body + seq![']'] + back,
        !front.contains('['),
        !back.contains(']'),
    ensures
        brackets_in_order(content),
        plan_json(content) == seq!['['] + body + seq![']'],
{
    let s = crate::text::trimmed(content);
    crate::text::law_found_where_it_stands(s, '[');
    crate::text::law_found_where_it_stands(s, ']');
    let i = front.len() as int;
    let j = i + 1 + body.len();
    assert(s[i] == '[');
    assert(s[j] == ']');
    let n = crate::text::position(s, '[')->0;
    if n < i {
        assert(front[n] == s[n]);
        assert(front.contains(front[n]));
    } else if n > i {
        assert(s.take(n)[i] == '[');
        assert(s.take(n).contains('['));
    }
    let m = crate::text::last_position(s, ']')->0;
    if m > j {
        assert(back[m - j - 1] == s[m]);
        assert(back.contains(back[m - j - 1]));
    } else if m < j {
        assert(s.skip(m + 1)[j - m - 1] == ']');
        assert(s.skip(m + 1).contains(']'));
    }
    assert(s.subrange(i, j + 1) =~= seq!['['] + body + seq![']']);
}

/// A plan that stands in no fence, or in one without brackets, is the whole file without white
/// space around it; where only one kind of bracket is there, it bounds the plan on its side.
pub proof fn law_plan_without_brackets(content: Seq<char>)
    ensures
        ({
            let s = crate::text::trimmed(content);
            &&& !crate::text::starts_with(s, "```"@) ==> brackets_in_order(content) && plan_json(
                content,
            ) == s
            &&& !s.contains('[') && !s.contains(']') ==> brackets_in_order(content) && plan_json(
                content,
            ) == s
            &&& forall|a: Seq<char>, b: Seq<char>|
                crate::text::starts_with(s, "```"@) && s == #[trigger] (a + seq!['['] + b)
                    && !a.contains('[') && !s.contains(']') ==> brackets_in_order(content)
                    && plan_json(content) == seq!['['] + b
            &&& forall|a: Seq<char>, b: Seq<char>|
                crate::text::starts_with(s, "```"@) && s == #[trigger] (a + seq![']'] + b)
                    && !b.contains(']') && !s.contains('[') ==> brackets_in_order(content)
                    && plan_json(content) == a + seq![']']
        }),
{
    let s = crate::text::trimmed(content);
    crate::text::law_found_where_it_stands(s, '[');
    crate::text::law_found_where_it_stands(s, ']');
    assert(s.subrange(0, s.len() as int) =~= s);
    assert forall|a: Seq<char>, b: Seq<char>|
        crate::text::starts_with(s, "```"@) && s == #[trigger] (a + seq!['['] + b) && !a.contains(
            '[',
        ) && !s.contains(']') implies brackets_in_order(content) && plan_json(content) == seq!['[']
        + b by {
        let i = a.len() as int;
        let n = crate::text::position(s, '[')->0;
        assert(s[i] == '[');
        assert(s.contains(s[i]));
        if n < i {
            assert(a[n] == s[n]);
            assert(a.contains(a[n]));
        } else if n > i {
            assert(s.take(n)[i] == '[');
            assert(s.take(n).contains('['));
        }
        assert(s.subrange(i, s.len() as int) =~= seq!['['] + b);
    }
    assert forall|a: Seq<char>, b: Seq<char>|
        crate::text::starts_with(s, "```"@) && s == #[trigger] (a + seq![']'] + b) && !b.contains(
            ']',
        ) && !s.contains('[') implies brackets_in_order(content) && plan_json(content) == a
        + seq![']'] by {
        let j = a.len() as int;
        let m = crate::text::last_position(s, ']')->0;
        assert(s[j] == ']');
        assert(s.contains(s[j]));
        if m > j {
            assert(b[m - j - 1] == s[m]);
            assert(b.contains(b[m - j - 1]));
        } else if m < j {
            assert(s.skip(m + 1)[j - m - 1] == ']');
            assert(s.skip(m + 1).contains(']'));
        }
        assert(s.subrange(0, j + 1) =~= a + seq![']']);
    }
}

/// The listed rewards are what stands between the commas, each without white space around it.
pub proof fn law_rewards_between_commas(content: Seq<char>, first: Seq<char>, rest: Seq<char>)
    requires
        !first.contains(','),
    ensures
        crate::text::trimmed(content) == first ==> reward_fields(content) == seq![
            crate::text::trimmed(first),
        ],
        crate::text::trimmed(content) == first + seq![','] + rest ==> reward_fields(content) == seq![
            crate::text::trimmed(first),
        ] + crate::text::split_at_each(rest, ',').map_values(
            |s: Seq<char>| crate::text::trimmed(s),
        ),
{
    crate::text::law_split_piece_by_piece(first, ',', rest);
    let f = |s: Seq<char>| crate::text::trimmed(s);
    let s = crate::text::trimmed(content);
    if s == first {
        assert(reward_fields(content) =~= seq![crate::text::trimmed(first)]);
    }
    if s == first + seq![','] + rest {
        let pieces = seq![first] + crate::text::split_at_each(rest, ',');
        assert(pieces.map_values(f) =~= seq![crate::text::trimmed(first)]
            + crate::text::split_at_each(rest, ',').map_values(f));
    }
}

/// Of two lists, one after the other, the numbers of the one come first and then those of the
/// other; what is no number is left out, and nothing else.
pub proof fn law_numbers_join(a: Seq<Option<Real>>, b: Seq<Option<Real>>, x: Real)
    ensures
        numbers_in(a + b) == numbers_in(a) + numbers_in(b),
        numbers_in(seq![Some(x)]) == seq![x],
        numbers_in(seq![None]).len() == 0,
        numbers_in(Seq::empty()).len() == 0,
        number_or_zero(Some(x)) == x,
        number_or_zero(None) == (Real { bits: 0 }),
    decreases b.len(),
{
    assert(seq![Some(x)].drop_last() =~= seq![]);
    assert(seq![None::<Real>].drop_last() =~= seq![]);
    assert(numbers_in(seq![]) =~= seq![]);
    if b.len() == 0 {
        assert(a + b =~= a);
        assert(numbers_in(a) + numbers_in(b) =~= numbers_in(a));
    } else {
        assert((a + b).drop_last() =~= a + b.drop_last());
        law_numbers_join(a, b.drop_last(), x);
        if let Some(y) = b.last() {
            assert((numbers_in(a) + numbers_in(b.drop_last())).push(y) =~= numbers_in(a)
                + numbers_in(b.drop_last()).push(y));
        }
    }
}

/// The numbers of a `stats.txt` are spoken of as they are, and a text that may be missing as what
/// it holds.
pub proof fn law_stats_as_they_are(s: Stats, t: String)
    ensures
        s@.baseline_cycles == s.baseline_cycles,
        s@.elapsed_cycles == s.elapsed_cycles,
        s@.improvement == optional_text(s.improvement),
        s@.reward == optional_text(s.reward),
        optional_text(Some(t)) == Some(t@),
        optional_text(None) is None,
{
}

} // verus!
