//! The value heads and the target heads that follow them.
use vstd::prelude::*;

use crate::text::{has_prefix, replace_text, same_text};

verus! {

/// The names of the trained heads, with which those of their layers begin; a target head has its
/// name behind `target_`.
pub open spec fn source_prefix(k: int) -> Seq<char> {
    if k == 0 {
        "q_head"@
    } else {
        "v_head"@
    }
}

pub open spec fn target_prefix(k: int) -> Seq<char> {
    if k == 0 {
        "target_q_head"@
    } else {
        "target_v_head"@
    }
}

/// The parameter that a parameter of the target head `k` follows.
pub open spec fn source_name(name: Seq<char>, k: int) -> Seq<char> {
    crate::text::replaced(name, target_prefix(k), source_prefix(k))
}

/// Where a name stands in a list.
pub open spec fn index_of_name(names: Seq<String>, x: Seq<char>, i: int) -> Option<int>
    decreases names.len() - i,
{
    if i < 0 || i >= names.len() {
        None
    } else if names[i]@ == x {
        Some(i)
    } else {
        index_of_name(names, x, i + 1)
    }
}

/// The updates of the parameters of the target head `k` from position `i` on: each parameter
/// with the one it follows, where that one exists.
pub open spec fn head_updates(names: Seq<String>, k: int, i: int) -> Seq<(int, int)>
    decreases names.len() - i,
{
    if i >= names.len() {
        seq![]
    } else {
        let rest = head_updates(names, k, i + 1);
        if crate::text::starts_with(names[i]@, target_prefix(k)) {
            match index_of_name(names, source_name(names[i]@, k), 0) {
                Some(j) => seq![(i, j)] + rest,
                None => rest,
            }
        } else {
            rest
        }
    }
}

/// All updates, head by head.
pub open spec fn all_updates(names: Seq<String>) -> Seq<(int, int)> {
    head_updates(names, 0, 0) + head_updates(names, 1, 0)
}

/// The updates as pairs of positions.
pub open spec fn positions(v: Seq<(usize, usize)>) -> Seq<(int, int)> {
    v.map_values(|p: (usize, usize)| (p.0 as int, p.1 as int))
}

fn find_name(names: &Vec<String>, x: &str) -> (r: Option<usize>)
    ensures
        match r {
            Some(j) => index_of_name(names@, x@, 0) == Some(j as int),
            None => index_of_name(names@, x@, 0) is None,
        },
{
    let mut i: usize = 0;
    while i < names.len()
        invariant
            i <= names@.len(),
            index_of_name(names@, x@, 0) == index_of_name(names@, x@, i as int),
        decreases names@.len() - i,
    {
        if same_text(names[i].as_str(), x) {
            return Some(i);
        }
        i = i + 1;
    }
    None
}

fn add_head_updates(
    updates: &mut Vec<(usize, usize)>,
    names: &Vec<String>,
    source: &str,
    target: &str,
    Ghost(k): Ghost<int>,
)
    requires
        source@ == source_prefix(k),
        target@ == target_prefix(k),
        target@.len() > 0,
    ensures
        positions(final(updates)@) == positions(old(updates)@) + head_updates(names@, k, 0),
{
    let ghost goal = positions(updates@) + head_updates(names@, k, 0);
    let mut i: usize = 0;
    while i < names.len()
        invariant
            source@ == source_prefix(k),
            target@ == target_prefix(k),
            target@.len() > 0,
            i <= names@.len(),
            goal == positions(updates@) + head_updates(names@, k, i as int),
        decreases names@.len() - i,
    {
        let ghost had = updates@;
        let ghost rest = head_updates(names@, k, i + 1);
        if has_prefix(names[i].as_str(), target) {
            let followed = replace_text(names[i].as_str(), target, source);
            if let Some(j) = find_name(names, followed.as_str()) {
                updates.push((i, j));
                proof {
                    assert(positions(updates@) =~= positions(had).push((i as int, j as int)));
                    assert(positions(had) + (seq![(i as int, j as int)] + rest) =~= positions(
                        updates@,
                    ) + rest);
                }
            }
        }
        i = i + 1;
    }
    assert(goal =~= positions(updates@));
}

/// Which parameters of the target heads follow which, as positions in a list of names.
pub fn target_updates(names: &Vec<String>) -> (r: Vec<(usize, usize)>)
    ensures
        positions(r@) == all_updates(names@),
{
    proof {
        reveal_strlit("target_q_head");
        reveal_strlit("target_v_head");
    }
    let mut r: Vec<(usize, usize)> = Vec::new();
    assert(positions(r@) + head_updates(names@, 0, 0) =~= head_updates(names@, 0, 0));
    add_head_updates(&mut r, names, "q_head", "target_q_head", Ghost(0));
    add_head_updates(&mut r, names, "v_head", "target_v_head", Ghost(1));
    r
}

// ---------------------------------------------------------------------------
// Laws
// ---------------------------------------------------------------------------

proof fn lemma_index_of_name(names: Seq<String>, x: Seq<char>, i: int)
    requires
        0 <= i,
    ensures
        index_of_name(names, x, i) matches Some(j) ==> i <= j < names.len() && names[j]@ == x,
    decreases names.len() - i,
{
    if i < names.len() && names[i]@ != x {
        lemma_index_of_name(names, x, i + 1);
    }
}

proof fn lemma_head_updates(names: Seq<String>, k: int, i: int, u: (int, int))
    requires
        0 <= i,
        head_updates(names, k, i).contains(u),
    ensures
        i <= u.0 < names.len(),
        0 <= u.1 < names.len(),
        crate::text::starts_with(names[u.0]@, target_prefix(k)),
        names[u.1]@ == source_name(names[u.0]@, k),
    decreases names.len() - i,
{
    let list = head_updates(names, k, i);
    if i < names.len() {
        let rest = head_updates(names, k, i + 1);
        lemma_index_of_name(names, source_name(names[i]@, k), 0);
        let n = choose|n: int| 0 <= n < list.len() && list[n] == u;
        if u.0 != i {
            if list.len() == rest.len() {
                assert(rest[n] == u);
            } else {
                assert(rest[n - 1] == u);
            }
            assert(rest.contains(u));
            lemma_head_updates(names, k, i + 1, u);
        } else {
            if list =~= rest {
                assert(rest.contains(u));
                lemma_head_updates(names, k, i + 1, u);
            } else if n > 0 {
                assert(rest[n - 1] == u);
                assert(rest.contains(u));
                lemma_head_updates(names, k, i + 1, u);
            }
        }
    }
}

/// A source is a parameter of the trained heads: it never belongs to a target head.
proof fn lemma_source_is_no_target(name: Seq<char>, k: int, m: int)
    requires
        0 <= k < 2,
        0 <= m < 2,
        crate::text::starts_with(name, target_prefix(k)),
    ensures
        !crate::text::starts_with(source_name(name, k), target_prefix(m)),
{
    reveal_strlit("target_q_head");
    reveal_strlit("target_v_head");
    reveal_strlit("q_head");
    reveal_strlit("v_head");
    let rest = crate::text::replaced(
        name.skip(target_prefix(k).len() as int),
        target_prefix(k),
        source_prefix(k),
    );
    let source = source_name(name, k);
    assert(source == source_prefix(k) + rest);
    assert(source[0] == source_prefix(k)[0]);
    if crate::text::starts_with(source, target_prefix(m)) {
        assert(source.subrange(0, target_prefix(m).len() as int)[0] == target_prefix(m)[0]);
        assert(source[0] == 't');
    }
}

proof fn lemma_update_of(names: Seq<String>, u: (int, int)) -> (k: int)
    requires
        all_updates(names).contains(u),
    ensures
        0 <= k < 2,
        head_updates(names, k, 0).contains(u),
{
    let a = head_updates(names, 0, 0);
    let b = head_updates(names, 1, 0);
    let all = all_updates(names);
    let n = choose|n: int| 0 <= n < all.len() && all[n] == u;
    if n < a.len() {
        assert(a[n] == u);
        0
    } else {
        assert(b[n - a.len()] == u);
        1
    }
}

/// No update reads a parameter that an update writes, so their order does not matter.
pub proof fn law_updates_independent(names: Seq<String>, u: (int, int), v: (int, int))
    requires
        all_updates(names).contains(u),
        all_updates(names).contains(v),
    ensures
        u.1 != v.0,
{
    let k = lemma_update_of(names, u);
    let m = lemma_update_of(names, v);
    lemma_head_updates(names, k, 0, u);
    lemma_head_updates(names, m, 0, v);
    lemma_source_is_no_target(names[u.0]@, k, m);
}

/// A parameter of a target head follows exactly one parameter.
pub proof fn law_one_source_each(names: Seq<String>, u: (int, int), v: (int, int))
    requires
        all_updates(names).contains(u),
        all_updates(names).contains(v),
        u.0 == v.0,
    ensures
        names[u.1]@ == names[v.1]@,
{
    reveal_strlit("target_q_head");
    reveal_strlit("target_v_head");
    let k = lemma_update_of(names, u);
    let m = lemma_update_of(names, v);
    lemma_head_updates(names, k, 0, u);
    lemma_head_updates(names, m, 0, v);
    let name = names[u.0]@;
    assert(name.subrange(0, target_prefix(k).len() as int) == target_prefix(k));
    assert(name.subrange(0, target_prefix(m).len() as int) == target_prefix(m));
    assert(name[7] == target_prefix(k)[7] && name[7] == target_prefix(m)[7]);
}

proof fn lemma_nothing_replaced(s: Seq<char>, p: Seq<char>, q: Seq<char>)
    requires
        !crate::text::contains(s, p),
    ensures
        crate::text::replaced(s, p, q) == s,
    decreases s.len(),
{
    if s.len() > 0 && p.len() > 0 {
        if crate::text::starts_with(s, p) {
            assert(crate::text::occurs_at(s, p, 0));
        }
        let rest = s.skip(1);
        assert(!crate::text::contains(rest, p)) by {
            if crate::text::contains(rest, p) {
                let i = choose|i: int| crate::text::occurs_at(rest, p, i);
                assert(s.subrange(i + 1, i + 1 + p.len()) =~= rest.subrange(i, i + p.len()));
                assert(crate::text::occurs_at(s, p, i + 1));
            }
        }
        lemma_nothing_replaced(rest, p, q);
        assert(seq![s[0]] + rest =~= s);
    }
}

proof fn lemma_found_name(names: Seq<String>, x: Seq<char>, i: int, j: int)
    requires
        0 <= i <= j < names.len(),
        names[j]@ == x,
        forall|a: int, b: int|
            0 <= a < b < names.len() ==> (#[trigger] names[a])@ != (#[trigger] names[b])@,
    ensures
        index_of_name(names, x, i) == Some(j),
    decreases j - i,
{
    if i < j {
        assert(names[i]@ != names[j]@);
        lemma_found_name(names, x, i + 1, j);
    }
}

proof fn lemma_head_update_made(names: Seq<String>, k: int, i: int, u: (int, int))
    requires
        0 <= i <= u.0 < names.len(),
        crate::text::starts_with(names[u.0]@, target_prefix(k)),
        index_of_name(names, source_name(names[u.0]@, k), 0) == Some(u.1),
    ensures
        head_updates(names, k, i).contains(u),
    decreases u.0 - i,
{
    let list = head_updates(names, k, i);
    let rest = head_updates(names, k, i + 1);
    if i == u.0 {
        assert(list[0] == u);
    } else {
        lemma_head_update_made(names, k, i + 1, u);
        let n = choose|n: int| 0 <= n < rest.len() && rest[n] == u;
        if list.len() == rest.len() {
            assert(list[n] == u);
        } else {
            assert(list[n + 1] == u);
        }
    }
}

/// Every parameter of a target head follows the parameter of the same name in the trained head,
/// where there is one.
pub proof fn law_target_follows_its_source(
    names: Seq<String>,
    k: int,
    ending: Seq<char>,
    i: int,
    j: int,
)
    requires
        0 <= k < 2,
        0 <= i < names.len(),
        0 <= j < names.len(),
        names[i]@ == target_prefix(k) + ending,
        names[j]@ == source_prefix(k) + ending,
        !crate::text::contains(ending, target_prefix(k)),
        forall|a: int, b: int|
            0 <= a < b < names.len() ==> (#[trigger] names[a])@ != (#[trigger] names[b])@,
    ensures
        all_updates(names).contains((i, j)),
{
    reveal_strlit("target_q_head");
    reveal_strlit("target_v_head");
    let p = target_prefix(k);
    let name = names[i]@;
    assert(p.len() > 0);
    assert(name.subrange(0, p.len() as int) =~= p);
    assert(name.skip(p.len() as int) =~= ending);
    lemma_nothing_replaced(ending, p, source_prefix(k));
    assert(source_name(name, k) == names[j]@);
    lemma_found_name(names, names[j]@, 0, j);
    lemma_head_update_made(names, k, 0, (i, j));
    let a = head_updates(names, 0, 0);
    let b = head_updates(names, 1, 0);
    let all = all_updates(names);
    let u = (i, j);
    if k == 0 {
        let n = choose|n: int| 0 <= n < a.len() && a[n] == u;
        assert(all[n] == u);
    } else {
        let n = choose|n: int| 0 <= n < b.len() && b[n] == u;
        assert(all[a.len() + n] == u);
    }
}

/// The parameters of the target heads follow those of the same name in the trained heads, each in
/// its own head.
pub proof fn law_heads_follow_by_name(names: Seq<String>, ending: Seq<char>, i: int, j: int)
    requires
        0 <= i < names.len(),
        0 <= j < names.len(),
        forall|a: int, b: int|
            0 <= a < b < names.len() ==> (#[trigger] names[a])@ != (#[trigger] names[b])@,
    ensures
        names[i]@ == "target_q_head"@ + ending && names[j]@ == "q_head"@ + ending
            && !crate::text::contains(ending, "target_q_head"@) ==> all_updates(names).contains(
            (i, j),
        ),
        names[i]@ == "target_v_head"@ + ending && names[j]@ == "v_head"@ + ending
            && !crate::text::contains(ending, "target_v_head"@) ==> all_updates(names).contains(
            (i, j),
        ),
{
    if names[i]@ == "target_q_head"@ + ending && names[j]@ == "q_head"@ + ending
        && !crate::text::contains(ending, "target_q_head"@) {
        law_target_follows_its_source(names, 0, ending, i, j);
    }
    if names[i]@ == "target_v_head"@ + ending && names[j]@ == "v_head"@ + ending
        && !crate::text::contains(ending, "target_v_head"@) {
        law_target_follows_its_source(names, 1, ending, i, j);
    }
}

/// Nothing but a parameter of a target head follows another, and what it follows has its name but
/// for the head.
pub proof fn law_only_targets_follow(names: Seq<String>, u: (int, int))
    requires
        all_updates(names).contains(u),
    ensures
        0 <= u.0 < names.len(),
        0 <= u.1 < names.len(),
        (crate::text::starts_with(names[u.0]@, "target_q_head"@) && names[u.1]@
            == crate::text::replaced(names[u.0]@, "target_q_head"@, "q_head"@)) || (
        crate::text::starts_with(names[u.0]@, "target_v_head"@) && names[u.1]@
            == crate::text::replaced(names[u.0]@, "target_v_head"@, "v_head"@)),
{
    let k = lemma_update_of(names, u);
    lemma_head_updates(names, k, 0, u);
}

proof fn lemma_head_updates_grow(names: Seq<String>, k: int, i: int, m: int, n: int)
    requires
        0 <= i,
        0 <= m < n < head_updates(names, k, i).len(),
    ensures
        head_updates(names, k, i)[m].0 < head_updates(names, k, i)[n].0,
    decreases names.len() - i,
{
    let list = head_updates(names, k, i);
    let rest = head_updates(names, k, i + 1);
    if i < names.len() {
        if list =~= rest {
            lemma_head_updates_grow(names, k, i + 1, m, n);
        } else {
            assert(list[n] == rest[n - 1]);
            assert(rest.contains(rest[n - 1]));
            lemma_head_updates(names, k, i + 1, rest[n - 1]);
            if m > 0 {
                assert(list[m] == rest[m - 1]);
                lemma_head_updates_grow(names, k, i + 1, m - 1, n - 1);
            }
        }
    }
}

/// No parameter follows another twice.
pub proof fn law_followed_once(names: Seq<String>, m: int, n: int)
    requires
        0 <= m < n < all_updates(names).len(),
    ensures
        all_updates(names)[m].0 != all_updates(names)[n].0,
{
    reveal_strlit("target_q_head");
    reveal_strlit("target_v_head");
    let a = head_updates(names, 0, 0);
    let b = head_updates(names, 1, 0);
    let all = all_updates(names);
    if n < a.len() {
        lemma_head_updates_grow(names, 0, 0, m, n);
    } else if m >= a.len() {
        lemma_head_updates_grow(names, 1, 0, m - a.len(), n - a.len());
    } else {
        let u = all[m];
        let v = all[n];
        assert(a[m] == u && b[n - a.len()] == v);
        assert(a.contains(u) && b.contains(v));
        lemma_head_updates(names, 0, 0, u);
        lemma_head_updates(names, 1, 0, v);
        if u.0 == v.0 {
            let name = names[u.0]@;
            assert(name.subrange(0, target_prefix(0).len() as int)[7] == 'q');
            assert(name.subrange(0, target_prefix(1).len() as int)[7] == 'v');
        }
    }
}

/// What follows what is spoken of one by one.
pub proof fn law_updates_one_by_one(v: Seq<(usize, usize)>, i: int)
    ensures
        positions(v).len() == v.len(),
        0 <= i < v.len() ==> positions(v)[i] == (v[i].0 as int, v[i].1 as int),
{
}

} // verus!
