//! Finding the experiments in a directory of logs.
//!
//! An experiment is a directory named `rl-ncu` that holds a baseline. The search goes down
//! at most six levels and does not look inside an experiment.
use vstd::prelude::*;

use crate::ingest::IngestError;
use crate::text::same_text;

verus! {

/// How deep the search goes.
pub const MAX_DEPTH: usize = 6;

/// A directory and the directories in it, or why they could not be listed.
pub struct Folder {
    /// By which the caller knows the directory again.
    pub id: usize,
    /// The last part of its path; empty where that is not readable text.
    pub name: String,
    pub path: String,
    pub has_baseline: bool,
    pub folders: Result<Vec<Folder>, String>,
}

impl Folder {
    pub open spec fn is_experiment(self) -> bool {
        self.name@ == "rl-ncu"@ && self.has_baseline
    }

    /// The search looks for more in a directory at this depth: what is in it matters.
    pub open spec fn searched_at(self, depth: int) -> bool {
        depth <= MAX_DEPTH && !self.is_experiment()
    }

    fn is_one(&self) -> (r: bool)
        ensures
            r == self.is_experiment(),
    {
        same_text(self.name.as_str(), "rl-ncu") && self.has_baseline
    }

    /// Whether the search looks for more in a directory at this depth.
    pub fn is_searched_at(&self, depth: usize) -> (r: bool)
        ensures
            r == self.searched_at(depth as int),
    {
        depth <= MAX_DEPTH && !self.is_one()
    }
}

/// A file or directory that could not be read.
pub struct Unreadable {
    pub path: Seq<char>,
    pub message: Seq<char>,
}

/// The experiments at or below a directory at the given depth, in the order of the listings.
pub open spec fn experiments_below(f: Folder, depth: int) -> Result<Seq<Folder>, Unreadable>
    decreases MAX_DEPTH + 1 - depth, 0nat,
{
    if depth > MAX_DEPTH {
        Ok(seq![])
    } else if f.is_experiment() {
        Ok(seq![f])
    } else {
        match f.folders {
            Err(m) => Err(Unreadable { path: f.path@, message: m@ }),
            Ok(inner) => experiments_in(inner@, depth + 1),
        }
    }
}

/// The experiments at or below some directories at the given depth. The first directory that
/// cannot be listed stops the search.
pub open spec fn experiments_in(fs: Seq<Folder>, depth: int) -> Result<Seq<Folder>, Unreadable>
    decreases MAX_DEPTH + 1 - depth, fs.len(),
{
    if fs.len() == 0 {
        Ok(seq![])
    } else {
        match experiments_in(fs.drop_last(), depth) {
            Err(e) => Err(e),
            Ok(found) => match experiments_below(fs.last(), depth) {
                Err(e) => Err(e),
                Ok(more) => Ok(found + more),
            },
        }
    }
}

/// The directories that a list of borrowed directories refers to.
pub open spec fn folders_behind(v: Seq<&Folder>) -> Seq<Folder> {
    v.map_values(|f: &Folder| *f)
}

/// The error for a file or directory that could not be read.
pub open spec fn is_unreadable(e: IngestError, u: Unreadable) -> bool {
    match e {
        IngestError::Io { path, message } => path@ == u.path && message@ == u.message,
        _ => false,
    }
}

proof fn lemma_error_stays(fs: Seq<Folder>, depth: int, k: int)
    requires
        0 <= k <= fs.len(),
        experiments_in(fs.take(k), depth) is Err,
    ensures
        experiments_in(fs, depth) == experiments_in(fs.take(k), depth),
    decreases fs.len() - k,
{
    if k < fs.len() {
        assert(fs.take(k + 1).drop_last() =~= fs.take(k));
        lemma_error_stays(fs, depth, k + 1);
    } else {
        assert(fs.take(k) =~= fs);
    }
}

fn walk_recursive<'a>(dir: &'a Folder, depth: usize, results: &mut Vec<&'a Folder>) -> (r: Result<
    (),
    IngestError,
>)
    requires
        depth <= MAX_DEPTH + 1,
    ensures
        match r {
            Ok(_) => match experiments_below(*dir, depth as int) {
                Ok(found) => folders_behind(final(results)@) == folders_behind(old(results)@)
                    + found,
                Err(_) => false,
            },
            Err(e) => match experiments_below(*dir, depth as int) {
                Ok(_) => false,
                Err(u) => is_unreadable(e, u),
            },
        },
    decreases MAX_DEPTH + 1 - depth,
{
    if depth > MAX_DEPTH {
        assert(folders_behind(results@) + seq![] =~= folders_behind(results@));
        return Ok(());
    }
    if dir.is_one() {
        let ghost had = folders_behind(results@);
        results.push(dir);
        assert(folders_behind(results@) =~= had + seq![*dir]);
        return Ok(());
    }
    match &dir.folders {
        Err(m) => Err(IngestError::Io { path: dir.path.clone(), message: m.clone() }),
        Ok(inner) => {
            let ghost had = folders_behind(results@);
            let mut i: usize = 0;
            assert(inner@.take(0) =~= seq![]);
            assert(had + seq![] =~= had);
            while i < inner.len()
                invariant
                    dir.folders matches Ok(v) && v == *inner,
                    !dir.is_experiment(),
                    depth <= MAX_DEPTH,
                    i <= inner@.len(),
                    experiments_in(inner@.take(i as int), depth + 1) matches Ok(found)
                        && folders_behind(results@) == had + found,
                decreases inner@.len() - i,
            {
                let ghost so_far = folders_behind(results@);
                assert(inner@.take(i + 1).drop_last() =~= inner@.take(i as int));
                let step = walk_recursive(&inner[i], depth + 1, results);
                if let Err(e) = step {
                    proof {
                        lemma_error_stays(inner@, depth + 1, i + 1);
                    }
                    return Err(e);
                }
                proof {
                    let found = experiments_in(inner@.take(i as int), depth + 1)->Ok_0;
                    let more = experiments_below(inner@[i as int], depth + 1)->Ok_0;
                    assert(so_far + more =~= had + (found + more));
                }
                i = i + 1;
            }
            assert(inner@.take(inner@.len() as int) =~= inner@);
            Ok(())
        },
    }
}

/// The experiments in a directory of logs.
pub fn walkdir(logs_dir: &Folder) -> (r: Result<Vec<&Folder>, IngestError>)
    ensures
        match r {
            Ok(found) => match experiments_below(*logs_dir, 0) {
                Ok(all) => folders_behind(found@) == all,
                Err(_) => false,
            },
            Err(e) => match experiments_below(*logs_dir, 0) {
                Ok(_) => false,
                Err(u) => is_unreadable(e, u),
            },
        },
{
    let mut results: Vec<&Folder> = Vec::new();
    match walk_recursive(logs_dir, 0, &mut results) {
        Ok(_) => {
            assert(folders_behind(results@) =~= experiments_below(*logs_dir, 0)->Ok_0);
            Ok(results)
        },
        Err(e) => Err(e),
    }
}

// ---------------------------------------------------------------------------
// Laws
// ---------------------------------------------------------------------------

/// The directory reached by going down by the given positions; nothing where there is none.
pub open spec fn folder_at(f: Folder, way: Seq<int>) -> Option<Folder>
    decreases way.len(),
{
    if way.len() == 0 {
        Some(f)
    } else {
        match f.folders {
            Err(_) => None,
            Ok(inner) => if 0 <= way[0] < inner@.len() {
                folder_at(inner@[way[0]], way.skip(1))
            } else {
                None
            },
        }
    }
}

/// Whether the way from a directory passes through an experiment before its end.
pub open spec fn crosses_experiment(f: Folder, way: Seq<int>) -> bool {
    exists|k: int|
        0 <= k < way.len() && (#[trigger] folder_at(f, way.take(k)) matches Some(x)
            && x.is_experiment())
}

proof fn lemma_found_in(fs: Seq<Folder>, depth: int, i: int, x: Folder)
    requires
        experiments_in(fs, depth) is Ok,
        0 <= i < fs.len(),
    ensures
        experiments_below(fs[i], depth) is Ok,
        experiments_below(fs[i], depth)->Ok_0.contains(x) ==> experiments_in(
            fs,
            depth,
        )->Ok_0.contains(x),
    decreases fs.len(),
{
    let found = experiments_in(fs.drop_last(), depth)->Ok_0;
    let more = experiments_below(fs.last(), depth)->Ok_0;
    let all = experiments_in(fs, depth)->Ok_0;
    assert(all == found + more);
    if i == fs.len() - 1 {
        if more.contains(x) {
            let k = choose|k: int| 0 <= k < more.len() && more[k] == x;
            assert(all[found.len() + k] == x);
        }
    } else {
        assert(fs.drop_last()[i] == fs[i]);
        lemma_found_in(fs.drop_last(), depth, i, x);
        if found.contains(x) {
            let k = choose|k: int| 0 <= k < found.len() && found[k] == x;
            assert(all[k] == x);
        }
    }
}

/// Every experiment within reach is found: a search that ends without an error finds each one
/// that is at most six levels down and not inside another.
pub proof fn law_walk_complete(f: Folder, depth: int, way: Seq<int>)
    requires
        0 <= depth,
        depth + way.len() <= MAX_DEPTH,
        experiments_below(f, depth) is Ok,
        folder_at(f, way) matches Some(x) && x.is_experiment(),
        !crosses_experiment(f, way),
    ensures
        experiments_below(f, depth)->Ok_0.contains(folder_at(f, way)->0),
    decreases way.len(),
{
    let x = folder_at(f, way)->0;
    if way.len() == 0 {
        assert(seq![f][0] == x);
    } else {
        assert(!f.is_experiment()) by {
            if f.is_experiment() {
                assert(way.take(0) =~= seq![]);
                assert(folder_at(f, way.take(0)) == Some(f));
            }
        }
        let inner = f.folders->Ok_0;
        let next = inner@[way[0]];
        let rest = way.skip(1);
        lemma_found_in(inner@, depth + 1, way[0], x);
        assert(!crosses_experiment(next, rest)) by {
            if crosses_experiment(next, rest) {
                let k = choose|k: int|
                    0 <= k < rest.len() && (#[trigger] folder_at(next, rest.take(k)) matches Some(x)
                        && x.is_experiment());
                assert(way.take(k + 1).skip(1) =~= rest.take(k));
                assert(folder_at(f, way.take(k + 1)) == folder_at(next, rest.take(k)));
            }
        }
        law_walk_complete(next, depth + 1, rest);
    }
}

/// Everything that a search finds is an experiment.
pub proof fn law_walk_sound(f: Folder, depth: int)
    requires
        experiments_below(f, depth) is Ok,
    ensures
        forall|i: int|
            0 <= i < experiments_below(f, depth)->Ok_0.len() ==> (
            #[trigger] experiments_below(f, depth)->Ok_0[i]).is_experiment(),
    decreases MAX_DEPTH + 1 - depth, 0nat,
{
    if depth <= MAX_DEPTH && !f.is_experiment() {
        lemma_all_experiments(f.folders->Ok_0@, depth + 1);
    }
}

proof fn lemma_all_experiments(fs: Seq<Folder>, depth: int)
    requires
        experiments_in(fs, depth) is Ok,
    ensures
        forall|i: int|
            0 <= i < experiments_in(fs, depth)->Ok_0.len() ==> (
            #[trigger] experiments_in(fs, depth)->Ok_0[i]).is_experiment(),
    decreases MAX_DEPTH + 1 - depth, fs.len(),
{
    if fs.len() > 0 {
        lemma_all_experiments(fs.drop_last(), depth);
        law_walk_sound(fs.last(), depth);
        let found = experiments_in(fs.drop_last(), depth)->Ok_0;
        let more = experiments_below(fs.last(), depth)->Ok_0;
        assert forall|i: int| 0 <= i < (found + more).len() implies (
        #[trigger] (found + more)[i]).is_experiment() by {
            if i < found.len() {
                assert(found[i].is_experiment());
            } else {
                assert(more[i - found.len()].is_experiment());
            }
        }
    }
}

/// The search goes no deeper than six levels below the first directory. An experiment is a
/// directory named `rl-ncu` with a baseline, in which nothing more is looked for; any other
/// directory holds what its own directories hold, and one that cannot be listed stops the search.
pub proof fn law_walk_of_a_folder(f: Folder, depth: int)
    ensures
        depth > 6 ==> experiments_below(f, depth) == Ok::<Seq<Folder>, Unreadable>(Seq::empty()),
        depth <= 6 && f.name@ == "rl-ncu"@ && f.has_baseline ==> experiments_below(f, depth) == Ok::<
            Seq<Folder>,
            Unreadable,
        >(seq![f]),
        depth <= 6 && !(f.name@ == "rl-ncu"@ && f.has_baseline) ==> (match f.folders {
            Ok(inner) => experiments_below(f, depth) == experiments_in(inner@, depth + 1),
            Err(m) => experiments_below(f, depth) matches Err(u) && u.path == f.path@ && u.message
                == m@,
        }),
        f.searched_at(depth) <==> depth <= 6 && !(f.name@ == "rl-ncu"@ && f.has_baseline),
{
}

/// Directories are searched one after the other: what is found in some of them and then in others
/// is found in all of them, in that order, and the first failure is the failure of all.
pub proof fn law_walk_joins(a: Seq<Folder>, b: Seq<Folder>, depth: int)
    ensures
        a.len() == 0 ==> experiments_in(a, depth) == Ok::<Seq<Folder>, Unreadable>(Seq::empty()),
        a.len() == 1 ==> experiments_in(a, depth) == experiments_below(a[0], depth),
        experiments_in(a + b, depth) == (match (
            experiments_in(a, depth),
            experiments_in(b, depth),
        ) {
            (Err(e), _) => Err(e),
            (Ok(_), Err(e)) => Err(e),
            (Ok(x), Ok(y)) => Ok(x + y),
        }),
    decreases b.len(),
{
    if a.len() == 1 {
        assert(a.drop_last() =~= seq![]);
        assert(experiments_in(seq![], depth) == Ok::<Seq<Folder>, Unreadable>(seq![]));
        if let Ok(more) = experiments_below(a[0], depth) {
            assert(seq![] + more =~= more);
        }
    }
    if b.len() == 0 {
        assert(a + b =~= a);
        if let Ok(x) = experiments_in(a, depth) {
            assert(x + Seq::<Folder>::empty() =~= x);
        }
    } else {
        assert((a + b).drop_last() =~= a + b.drop_last());
        law_walk_joins(a, b.drop_last(), depth);
        if let Ok(x) = experiments_in(a, depth) {
            if let Ok(y) = experiments_in(b.drop_last(), depth) {
                if let Ok(z) = experiments_below(b.last(), depth) {
                    assert((x + y) + z =~= x + (y + z));
                }
            }
        }
    }
}

/// A directory or a file that could not be read is reported with its path and with the reason.
pub proof fn law_unreadable(e: IngestError, u: Unreadable)
    ensures
        is_unreadable(e, u) <==> (e matches IngestError::Io { path, message } && path@ == u.path
            && message@ == u.message),
{
}

/// What was found is spoken of one by one.
pub proof fn law_folders_one_by_one(v: Seq<&Folder>, i: int)
    ensures
        folders_behind(v).len() == v.len(),
        0 <= i < v.len() ==> folders_behind(v)[i] == *v[i],
{
}

} // verus!
