//! How the tensors of a model are listed for a reader.
use vstd::prelude::*;

use crate::text::{chars_of, increasing, owned_texts, sorted_unique};

verus! {

broadcast use vstd::string::group_string_axioms;

/// The longest name, in bytes, that is shown in full.
pub const FULL_NAME: usize = 48;

/// How many bytes of a longer name are shown.
pub const NAME_TAIL: usize = 45;

/// How many bytes UTF-8 takes for a character.
pub open spec fn utf8_width(c: char) -> nat {
    let code = c as u32;
    if code <= 0x7f {
        1
    } else if code <= 0x7ff {
        2
    } else if code <= 0xffff {
        3
    } else {
        4
    }
}

/// How many bytes UTF-8 takes for a text.
pub open spec fn byte_len(s: Seq<char>) -> nat
    decreases s.len(),
{
    if s.len() == 0 {
        0
    } else {
        utf8_width(s[0]) + byte_len(s.skip(1))
    }
}

/// Where the last `NAME_TAIL` bytes of a text begin, if they begin with a whole character.
pub open spec fn is_tail(s: Seq<char>, k: int) -> bool {
    0 <= k <= s.len() && byte_len(s.skip(k)) == NAME_TAIL
}

/// The name can be shown: it is short, or its end can be cut off between two characters.
pub open spec fn showable(name: Seq<char>) -> bool {
    byte_len(name) > FULL_NAME ==> exists|k: int| is_tail(name, k)
}

/// A name as it is shown: a long one by its end, behind three dots.
pub open spec fn shown_name(name: Seq<char>) -> Seq<char> {
    if byte_len(name) > FULL_NAME {
        "..."@ + name.skip(choose|k: int| is_tail(name, k))
    } else {
        name
    }
}

fn width_of(c: char) -> (n: usize)
    ensures
        n == utf8_width(c),
        1 <= n <= 4,
{
    let code: u32 = c as u32;
    if code <= 0x7f {
        1
    } else if code <= 0x7ff {
        2
    } else if code <= 0xffff {
        3
    } else {
        4
    }
}

proof fn lemma_longer_tail(s: Seq<char>, j: int, k: int)
    requires
        0 <= j < k <= s.len(),
    ensures
        byte_len(s.skip(j)) > byte_len(s.skip(k)),
    decreases k - j,
{
    assert(s.skip(j).skip(1) =~= s.skip(j + 1));
    if j + 1 < k {
        lemma_longer_tail(s, j + 1, k);
    }
}

/// Where the last bytes of a name begin that are to be shown.
enum Cut {
    /// The whole name is shown.
    Whole,
    /// The name is shown from this character on.
    From(usize),
    /// The place falls inside a character.
    Inside,
}

fn find_cut(cs: &Vec<char>) -> (r: Cut)
    ensures
        match r {
            Cut::Whole => byte_len(cs@) <= FULL_NAME,
            Cut::From(k) => byte_len(cs@) > FULL_NAME && is_tail(cs@, k as int),
            Cut::Inside => byte_len(cs@) > FULL_NAME && forall|k: int| !is_tail(cs@, k),
        },
{
    let mut bytes: usize = 0;
    let mut tail: Option<usize> = None;
    let mut k: usize = cs.len();
    assert(cs@.skip(k as int) =~= seq![]);
    while k > 0
        invariant
            k <= cs@.len(),
            bytes == byte_len(cs@.skip(k as int)),
            bytes <= FULL_NAME,
            match tail {
                Some(t) => is_tail(cs@, t as int),
                None => forall|j: int| k <= j <= cs@.len() ==> !is_tail(cs@, j),
            },
        decreases k,
    {
        k = k - 1;
        assert(cs@.skip(k as int).skip(1) =~= cs@.skip(k + 1));
        bytes = bytes + width_of(cs[k]);
        if bytes == NAME_TAIL {
            tail = Some(k);
        }
        if bytes > FULL_NAME {
            proof {
                if k > 0 {
                    lemma_longer_tail(cs@, 0, k as int);
                }
                assert(cs@.skip(0) =~= cs@);
                assert forall|j: int| tail is None implies !is_tail(cs@, j) by {
                    if 0 <= j < k {
                        lemma_longer_tail(cs@, j, k as int);
                    }
                }
            }
            return match tail {
                Some(t) => Cut::From(t),
                None => Cut::Inside,
            };
        }
    }
    assert(cs@.skip(0) =~= cs@);
    Cut::Whole
}

/// Whether a name can be shown.
pub fn can_show(name: &str) -> (r: bool)
    ensures
        r == showable(name@),
{
    let cs = chars_of(name);
    match find_cut(&cs) {
        Cut::Inside => false,
        _ => true,
    }
}

/// A name as it is shown.
pub fn display_name(name: &str) -> (r: String)
    requires
        showable(name@),
    ensures
        r@ == shown_name(name@),
{
    let cs = chars_of(name);
    let n: usize = cs.len();
    match find_cut(&cs) {
        Cut::From(k) => {
            proof {
                law_tail_unique(name@, k as int, choose|j: int| is_tail(name@, j));
                assert(name@.subrange(k as int, n as int) =~= name@.skip(k as int));
            }
            let mut r = "...".to_owned();
            r.append(name.substring_char(k, n));
            r
        },
        _ => name.to_owned(),
    }
}

/// The tensors that are listed: the first ones by name, and how many there are besides.
pub struct Shown {
    pub total: usize,
    pub names: Vec<String>,
    pub more: usize,
}

/// `all` are the names in order, each once.
pub open spec fn is_sorted_from(all: Seq<Seq<char>>, names: Seq<Seq<char>>) -> bool {
    &&& increasing(all)
    &&& forall|x: Seq<char>| #[trigger] all.contains(x) <==> names.contains(x)
}

/// The first `max_entries` of the tensors by name.
pub fn shown_tensors(names: &Vec<String>, max_entries: usize) -> (r: Shown)
    ensures
        exists|all: Seq<Seq<char>>|
            {
                &&& #[trigger] is_sorted_from(all, owned_texts(names@))
                &&& r.total == all.len()
                &&& owned_texts(r.names@) == all.take(
                    if max_entries < all.len() {
                        max_entries as int
                    } else {
                        all.len() as int
                    },
                )
                &&& r.more == r.total - r.names@.len()
            },
{
    let sorted = sorted_unique(names);
    let total: usize = sorted.len();
    let show: usize = if max_entries < total {
        max_entries
    } else {
        total
    };
    let mut first: Vec<String> = Vec::new();
    let mut i: usize = 0;
    while i < show
        invariant
            show <= sorted@.len(),
            i <= show,
            first@.len() == i,
            forall|k: int| 0 <= k < i ==> (#[trigger] first@[k])@ == sorted@[k]@,
        decreases show - i,
    {
        first.push(sorted[i].clone());
        i = i + 1;
    }
    proof {
        let all = owned_texts(sorted@);
        assert(is_sorted_from(all, owned_texts(names@)));
        assert(owned_texts(first@) =~= all.take(show as int));
    }
    Shown { total, names: first, more: total - show }
}

// ---------------------------------------------------------------------------
// Laws
// ---------------------------------------------------------------------------

/// There is at most one place where the end of a name can be cut off.
pub proof fn law_tail_unique(s: Seq<char>, j: int, k: int)
    requires
        is_tail(s, j),
        is_tail(s, k),
    ensures
        j == k,
{
    if j < k {
        lemma_longer_tail(s, j, k);
    } else if k < j {
        lemma_longer_tail(s, k, j);
    }
}

/// A name of plain ASCII can always be shown, and takes at most `FULL_NAME` bytes.
pub proof fn law_ascii_names_show(name: Seq<char>)
    requires
        forall|i: int| 0 <= i < name.len() ==> (#[trigger] name[i]) as u32 <= 0x7f,
    ensures
        showable(name),
        byte_len(shown_name(name)) <= FULL_NAME,
{
    lemma_ascii_len(name);
    if byte_len(name) > FULL_NAME {
        let k = name.len() - NAME_TAIL;
        lemma_ascii_len(name.skip(k));
        assert(is_tail(name, k));
        let c = choose|j: int| is_tail(name, j);
        law_tail_unique(name, k, c);
        reveal_strlit("...");
        lemma_ascii_len("..."@ + name.skip(k));
    }
}

proof fn lemma_ascii_len(s: Seq<char>)
    requires
        forall|i: int| 0 <= i < s.len() ==> (#[trigger] s[i]) as u32 <= 0x7f,
    ensures
        byte_len(s) == s.len(),
    decreases s.len(),
{
    if s.len() > 0 {
        lemma_ascii_len(s.skip(1));
    }
}

/// The bytes of a text are those of its characters.
pub proof fn law_bytes_add_up(a: Seq<char>, b: Seq<char>, c: char)
    ensures
        byte_len(a + b) == byte_len(a) + byte_len(b),
        byte_len(Seq::empty()) == 0,
        c as u32 <= 0x7f ==> byte_len(seq![c]) == 1,
        0x80 <= c as u32 <= 0x7ff ==> byte_len(seq![c]) == 2,
        0x800 <= c as u32 <= 0xffff ==> byte_len(seq![c]) == 3,
        c as u32 >= 0x1_0000 ==> byte_len(seq![c]) == 4,
    decreases a.len(),
{
    assert(seq![c].skip(1) =~= seq![]);
    assert(byte_len(seq![]) == 0);
    if a.len() == 0 {
        assert(a + b =~= b);
    } else {
        law_bytes_add_up(a.skip(1), b, c);
        assert((a + b).skip(1) =~= a.skip(1) + b);
    }
}

/// A name of up to 48 bytes is shown in full, and a longer one by its last 45 bytes behind three
/// dots; it cannot be shown only where these begin inside a character.
pub proof fn law_names_as_shown(front: Seq<char>, end: Seq<char>)
    ensures
        byte_len(end) <= 48 ==> showable(end) && shown_name(end) == end,
        byte_len(end) == 45 && byte_len(front) > 3 ==> showable(front + end) && shown_name(
            front + end,
        ) == "..."@ + end,
        byte_len(end) > 48 && (forall|k: int|
            0 <= k <= end.len() ==> byte_len(#[trigger] end.skip(k)) != 45) ==> !showable(end),
{
    let name = front + end;
    law_bytes_add_up(front, end, 'a');
    if byte_len(end) == 45 && byte_len(front) > 3 {
        let k = front.len() as int;
        assert(name.skip(k) =~= end);
        assert(is_tail(name, k));
        law_tail_unique(name, k, choose|j: int| is_tail(name, j));
    }
    if byte_len(end) > 48 && (forall|k: int|
        0 <= k <= end.len() ==> byte_len(#[trigger] end.skip(k)) != 45) {
        assert forall|k: int| !is_tail(end, k) by {
            if 0 <= k <= end.len() {
                assert(byte_len(end.skip(k)) != 45);
            }
        }
    }
}

/// The listed tensors are in the order of their names, each once, and all of them.
pub proof fn law_all_names_in_order(all: Seq<Seq<char>>, names: Seq<Seq<char>>)
    requires
        is_sorted_from(all, names),
    ensures
        forall|i: int| 0 <= i < names.len() ==> all.contains(#[trigger] names[i]),
        forall|k: int| 0 <= k < all.len() ==> names.contains(#[trigger] all[k]),
        forall|k: int, m: int|
            0 <= k < m < all.len() ==> crate::text::before(#[trigger] all[k], #[trigger] all[m])
                && all[k] != all[m],
{
    assert forall|i: int| 0 <= i < names.len() implies all.contains(#[trigger] names[i]) by {
        assert(names.contains(names[i]));
    }
    assert forall|k: int| 0 <= k < all.len() implies names.contains(#[trigger] all[k]) by {
        assert(all.contains(all[k]));
    }
    assert forall|k: int, m: int| 0 <= k < m < all.len() implies crate::text::before(
        #[trigger] all[k],
        #[trigger] all[m],
    ) && all[k] != all[m] by {
        crate::text::lemma_before_total(all[k], all[m]);
    }
}

} // verus!
