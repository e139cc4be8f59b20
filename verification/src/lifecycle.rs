//! The order in which a session's Mods are shut down, and what one failure
//! keeps alive.
//!
//! A failed consumer keeps every Mod it depends on, directly or through
//! others, operational; Mods are detached consumers first.

use vstd::prelude::*;
use crate::keyed::IdSet;
use crate::host::{ModStatus, finish_launch, launch_allowed, launch_failure};
use crate::status::{Status, OK, CANCELLED, PHASE_CHECK};
use crate::manifest::{Candidate, Kind, Source};
use crate::resolve::{count_missing, lemma_count_missing};

verus! {

/// One loaded Mod, as the session's lifecycle sees it.
pub struct HostEntry {
    pub id: String,
    /// The IDs this Mod depends on.
    pub dependencies: IdSet,
    /// Whether it took part in startup.
    pub participated: bool,
    pub stopped: bool,
    pub detach_called: bool,
    pub detached: bool,
    pub release_prepared: bool,
    pub status: ModStatus,
}

/// The index of the first entry with ID `id`.
pub open spec fn first_with(entries: Seq<HostEntry>, id: Seq<char>) -> int {
    choose|i: int| 0 <= i < entries.len() && entries[i].id@ == id && forall|j: int| 0 <= j < i ==> entries[j].id@ != id
}

/// The dependencies recorded for `id`: those of the first entry with that
/// ID, or none.
pub open spec fn dependencies_of_id(entries: Seq<HostEntry>, id: Seq<char>) -> Set<Seq<char>> {
    if exists|i: int| 0 <= i < entries.len() && entries[i].id@ == id {
        entries[first_with(entries, id)].dependencies@
    } else {
        Set::empty()
    }
}

/// `set` holds the dependencies of each of its members.
pub open spec fn closed_under_dependencies(entries: Seq<HostEntry>, set: Set<Seq<char>>) -> bool {
    forall|x: Seq<char>| #[trigger] set.contains(x) ==> dependencies_of_id(entries, x).subset_of(set)
}

/// `x` is a Mod that entry `index` depends on, directly or through other
/// entries: every set that holds its dependencies and is closed under
/// dependencies holds `x`.
pub open spec fn provider_of(entries: Seq<HostEntry>, index: int, x: Seq<char>) -> bool {
    forall|t: Set<Seq<char>>|
        #![trigger closed_under_dependencies(entries, t)]
        entries[index].dependencies@.subset_of(t) && closed_under_dependencies(entries, t) ==> t.contains(x)
}

/// Every ID that some entry depends on, entry by entry.
pub open spec fn all_dependency_ids(entries: Seq<HostEntry>) -> Seq<Seq<char>>
    decreases entries.len(),
{
    if entries.len() == 0 {
        Seq::empty()
    } else {
        all_dependency_ids(entries.drop_last()) + entries.last().dependencies.spec_ids()
    }
}

proof fn lemma_dependency_listed(entries: Seq<HostEntry>, i: int, x: Seq<char>)
    requires
        0 <= i < entries.len(),
        entries[i].dependencies@.contains(x),
    ensures
        all_dependency_ids(entries).contains(x),
    decreases entries.len(),
{
    let ids = entries.last().dependencies.spec_ids();
    if i == entries.len() - 1 {
        let k = choose|k: int| 0 <= k < entries[i].dependencies.map.spec_entries().len() && #[trigger] entries[i].dependencies.map.spec_entries()[k].0 == x;
        assert(ids[k] == x);
        assert((all_dependency_ids(entries.drop_last()) + ids)[all_dependency_ids(entries.drop_last()).len() + k] == x);
    } else {
        lemma_dependency_listed(entries.drop_last(), i, x);
        let k = choose|k: int| 0 <= k < all_dependency_ids(entries.drop_last()).len() && all_dependency_ids(entries.drop_last())[k] == x;
        assert((all_dependency_ids(entries.drop_last()) + ids)[k] == x);
    }
}

/// The index of the first entry with ID `id`.
fn find_entry(entries: &Vec<HostEntry>, id: &str) -> (r: Option<usize>)
    ensures
        r matches Some(i) ==> i < entries@.len() && i as int == first_with(entries@, id@) && entries@[i as int].id@ == id@,
        r is None ==> !exists|i: int| 0 <= i < entries@.len() && entries@[i].id@ == id@,
{
    let mut i: usize = 0;
    while i < entries.len()
        invariant
            i <= entries@.len(),
            forall|j: int| 0 <= j < i ==> entries@[j].id@ != id@,
        decreases entries.len() - i,
    {
        if crate::text::same_text(entries[i].id.as_str(), id) {
            proof {
                let f = first_with(entries@, id@);
                assert(entries@[i as int].id@ == id@);
                if f != i {
                    if f < i {
                    } else {
                        assert(entries@[i as int].id@ != id@);
                    }
                }
            }
            return Some(i);
        }
        i = i + 1;
    }
    None
}

/// Everything that entry `index` depends on, directly or through other
/// entries: the least set that holds its dependencies and is closed under
/// dependencies.
#[verifier::rlimit(100)]
pub fn dependencies_of(entries: &Vec<HostEntry>, index: usize) -> (r: IdSet)
    requires
        index < entries@.len(),
    ensures
        entries@[index as int].dependencies@.subset_of(r@),
        closed_under_dependencies(entries@, r@),
        forall|t: Set<Seq<char>>| #![trigger closed_under_dependencies(entries@, t)]
            entries@[index as int].dependencies@.subset_of(t) && closed_under_dependencies(entries@, t) ==> r@.subset_of(t),
{
    let ghost all = all_dependency_ids(entries@);
    let ghost initial = entries@[index as int].dependencies@;
    let mut found = IdSet::new();
    let mut pending: Vec<String> = Vec::new();
    let start = &entries[index].dependencies;
    let mut k: usize = 0;
    while k < start.len()
        invariant
            k <= start.map.spec_entries().len(),
            pending@.len() == k,
            forall|m: int| 0 <= m < k ==> (#[trigger] pending@[m])@ == start.map.spec_entries()[m].0,
        decreases start.map.spec_entries().len() - k,
    {
        pending.push(start.id_at(k).clone());
        k = k + 1;
    }
    proof {
        assert forall|x: Seq<char>| initial.contains(x) implies exists|m: int| 0 <= m < pending@.len() && (#[trigger] pending@[m])@ == x by {
            let m = choose|m: int| 0 <= m < start.map.spec_entries().len() && #[trigger] start.map.spec_entries()[m].0 == x;
            assert(pending@[m]@ == x);
        }
        assert forall|m: int| 0 <= m < pending@.len() implies all.contains((#[trigger] pending@[m])@) by {
            assert(initial.contains(pending@[m]@));
            lemma_dependency_listed(entries@, index as int, pending@[m]@);
        }
    }
    while pending.len() > 0
        invariant
            index < entries@.len(),
            all == all_dependency_ids(entries@),
            initial == entries@[index as int].dependencies@,
            forall|m: int| 0 <= m < pending@.len() ==> all.contains((#[trigger] pending@[m])@),
            forall|x: Seq<char>| found@.contains(x) ==> all.contains(x),
            forall|x: Seq<char>| initial.contains(x) ==> found@.contains(x) || exists|m: int| 0 <= m < pending@.len() && (#[trigger] pending@[m])@ == x,
            forall|x: Seq<char>, y: Seq<char>| found@.contains(x) && #[trigger] dependencies_of_id(entries@, x).contains(y) ==> found@.contains(y)
                || exists|m: int| 0 <= m < pending@.len() && (#[trigger] pending@[m])@ == y,
            forall|t: Set<Seq<char>>| #![trigger closed_under_dependencies(entries@, t)]
                initial.subset_of(t) && closed_under_dependencies(entries@, t) ==> found@.subset_of(t)
                    && forall|m: int| 0 <= m < pending@.len() ==> t.contains((#[trigger] pending@[m])@),
        decreases count_missing(all, |x: Seq<char>| found.has(x)), pending@.len(),
    {
        let ghost before_pending = pending@;
        let ghost before_found = found;
        let id = pending.pop().unwrap();
        proof {
            assert(before_pending[before_pending.len() - 1] == id);
            assert forall|m: int| 0 <= m < pending@.len() implies pending@[m] == before_pending[m] by {}
        }
        if !found.contains(id.as_str()) {
            found.insert(id.clone());
            proof {
                let before = |x: Seq<char>| before_found.has(x);
                let after = |x: Seq<char>| found.has(x);
                assert forall|s: Seq<char>| #[trigger] before(s) implies after(s) by {}
                lemma_count_missing(all, before, after, id@);
            }
            let ghost mid_pending = pending@;
            match find_entry(entries, id.as_str()) {
                Some(e) => {
                    let deps = &entries[e].dependencies;
                    let mut k: usize = 0;
                    while k < deps.len()
                        invariant
                            e < entries@.len(),
                            deps == entries@[e as int].dependencies,
                            k <= deps.map.spec_entries().len(),
                            pending@.len() == mid_pending.len() + k,
                            forall|m: int| 0 <= m < mid_pending.len() ==> pending@[m] == mid_pending[m],
                            forall|m: int| 0 <= m < k ==> (#[trigger] pending@[mid_pending.len() + m])@ == deps.map.spec_entries()[m].0,
                        decreases deps.map.spec_entries().len() - k,
                    {
                        pending.push(deps.id_at(k).clone());
                        k = k + 1;
                    }
                    proof {
                        assert(entries@[e as int].id@ == id@);
                        assert(dependencies_of_id(entries@, id@) == deps@);
                        assert forall|y: Seq<char>| deps@.contains(y) implies exists|m: int| 0 <= m < pending@.len() && (#[trigger] pending@[m])@ == y by {
                            let j = choose|j: int| 0 <= j < deps.map.spec_entries().len() && #[trigger] deps.map.spec_entries()[j].0 == y;
                            assert(pending@[mid_pending.len() + j]@ == y);
                        }
                        assert forall|m: int| 0 <= m < pending@.len() implies all.contains((#[trigger] pending@[m])@) by {
                            if m >= mid_pending.len() {
                                let j = m - mid_pending.len();
                                assert(pending@[mid_pending.len() + j]@ == deps.map.spec_entries()[j].0);
                                assert(deps@.contains(pending@[m]@));
                                lemma_dependency_listed(entries@, e as int, pending@[m]@);
                            } else {
                                assert(pending@[m] == before_pending[m]);
                            }
                        }
                        assert forall|t: Set<Seq<char>>| #![trigger closed_under_dependencies(entries@, t)]
                            initial.subset_of(t) && closed_under_dependencies(entries@, t) implies found@.subset_of(t)
                                && forall|m: int| 0 <= m < pending@.len() ==> t.contains((#[trigger] pending@[m])@) by {
                            assert(t.contains(id@));
                            assert forall|m: int| 0 <= m < pending@.len() implies t.contains((#[trigger] pending@[m])@) by {
                                if m < mid_pending.len() {
                                    assert(pending@[m] == before_pending[m]);
                                } else {
                                    let j = m - mid_pending.len();
                                    assert(pending@[mid_pending.len() + j]@ == deps.map.spec_entries()[j].0);
                                    assert(deps@.contains(pending@[m]@));
                                }
                            }
                        }
                        assert forall|x: Seq<char>| initial.contains(x) implies found@.contains(x) || exists|m: int|
                            0 <= m < pending@.len() && (#[trigger] pending@[m])@ == x by {
                            if !found@.contains(x) {
                                let m = choose|m: int| 0 <= m < before_pending.len() && (#[trigger] before_pending[m])@ == x;
                                assert(pending@[m] == before_pending[m]);
                            }
                        }
                        assert forall|x: Seq<char>, y: Seq<char>| found@.contains(x) && #[trigger] dependencies_of_id(entries@, x).contains(y)
                            implies found@.contains(y) || exists|m: int| 0 <= m < pending@.len() && (#[trigger] pending@[m])@ == y by {
                            if x != id@ && !found@.contains(y) {
                                assert(before_found@.contains(x));
                                let m = choose|m: int| 0 <= m < before_pending.len() && (#[trigger] before_pending[m])@ == y;
                                if m < before_pending.len() - 1 {
                                    assert(pending@[m] == before_pending[m]);
                                }
                            }
                        }
                    }
                },
                None => {
                    proof {
                        assert(dependencies_of_id(entries@, id@) =~= Set::empty());
                        assert forall|x: Seq<char>| initial.contains(x) implies found@.contains(x) || exists|m: int|
                            0 <= m < pending@.len() && (#[trigger] pending@[m])@ == x by {
                            if !found@.contains(x) {
                                let m = choose|m: int| 0 <= m < before_pending.len() && (#[trigger] before_pending[m])@ == x;
                                assert(pending@[m] == before_pending[m]);
                            }
                        }
                        assert forall|x: Seq<char>, y: Seq<char>| found@.contains(x) && #[trigger] dependencies_of_id(entries@, x).contains(y)
                            implies found@.contains(y) || exists|m: int| 0 <= m < pending@.len() && (#[trigger] pending@[m])@ == y by {
                            if x != id@ && !found@.contains(y) {
                                assert(before_found@.contains(x));
                                let m = choose|m: int| 0 <= m < before_pending.len() && (#[trigger] before_pending[m])@ == y;
                                if m < before_pending.len() - 1 {
                                    assert(pending@[m] == before_pending[m]);
                                }
                            }
                        }
                    }
                },
            }
        } else {
            proof {
                assert forall|x: Seq<char>| initial.contains(x) implies found@.contains(x) || exists|m: int|
                    0 <= m < pending@.len() && (#[trigger] pending@[m])@ == x by {
                    if !found@.contains(x) {
                        let m = choose|m: int| 0 <= m < before_pending.len() && (#[trigger] before_pending[m])@ == x;
                        assert(pending@[m] == before_pending[m]);
                    }
                }
                assert forall|x: Seq<char>, y: Seq<char>| found@.contains(x) && #[trigger] dependencies_of_id(entries@, x).contains(y)
                    implies found@.contains(y) || exists|m: int| 0 <= m < pending@.len() && (#[trigger] pending@[m])@ == y by {
                    if !found@.contains(y) {
                        let m = choose|m: int| 0 <= m < before_pending.len() && (#[trigger] before_pending[m])@ == y;
                        if m < before_pending.len() - 1 {
                            assert(pending@[m] == before_pending[m]);
                        }
                    }
                }
            }
        }
    }
    proof {
        assert forall|x: Seq<char>| #[trigger] found@.contains(x) implies dependencies_of_id(entries@, x).subset_of(found@) by {
            assert forall|y: Seq<char>| dependencies_of_id(entries@, x).contains(y) implies found@.contains(y) by {}
        }
    }
    found
}

/// Entry `consumer` depends on entry `provider`.
pub open spec fn consumes(entries: Seq<HostEntry>, consumer: usize, provider: usize) -> bool {
    entries[consumer as int].dependencies@.contains(entries[provider as int].id@)
}

/// Some entry among `rest` depends on entry `provider`.
pub open spec fn needed_within(entries: Seq<HostEntry>, rest: Seq<usize>, provider: usize) -> bool {
    exists|j: int| 0 <= j < rest.len() && consumes(entries, #[trigger] rest[j], provider)
}

/// `a` and `b` together hold each index below `n` exactly once.
pub open spec fn split_indices(a: Seq<usize>, b: Seq<usize>, n: nat) -> bool {
    &&& forall|i: int, j: int| 0 <= i < j < a.len() ==> a[i] != a[j]
    &&& forall|i: int, j: int| 0 <= i < j < b.len() ==> b[i] != b[j]
    &&& forall|i: int, j: int| 0 <= i < a.len() && 0 <= j < b.len() ==> a[i] != b[j]
    &&& forall|i: int| 0 <= i < a.len() ==> a[i] < n
    &&& forall|i: int| 0 <= i < b.len() ==> b[i] < n
    &&& forall|x: usize| x < n ==> a.contains(x) || b.contains(x)
}

/// Moving the element at `p` from `a` to the end of `b` keeps the split.
proof fn lemma_move_index(a: Seq<usize>, b: Seq<usize>, n: nat, p: int)
    requires
        split_indices(a, b, n),
        0 <= p < a.len(),
    ensures
        split_indices(a.remove(p), b.push(a[p]), n),
{
    let a2 = a.remove(p);
    let b2 = b.push(a[p]);
    assert forall|i: int, j: int| 0 <= i < j < a2.len() implies a2[i] != a2[j] by {
        let ii = if i < p { i } else { i + 1 };
        let jj = if j < p { j } else { j + 1 };
        assert(a2[i] == a[ii] && a2[j] == a[jj]);
    }
    assert forall|i: int, j: int| 0 <= i < j < b2.len() implies b2[i] != b2[j] by {
        if j == b.len() {
            assert(b2[i] == b[i]);
        }
    }
    assert forall|i: int, j: int| 0 <= i < a2.len() && 0 <= j < b2.len() implies a2[i] != b2[j] by {
        let ii = if i < p { i } else { i + 1 };
        assert(a2[i] == a[ii]);
        if j < b.len() {
            assert(b2[j] == b[j]);
        }
    }
    assert forall|i: int| 0 <= i < a2.len() implies a2[i] < n by {
        let ii = if i < p { i } else { i + 1 };
        assert(a2[i] == a[ii]);
    }
    assert forall|x: usize| x < n implies a2.contains(x) || b2.contains(x) by {
        if a.contains(x) {
            let k = choose|k: int| 0 <= k < a.len() && a[k] == x;
            if k < p {
                assert(a2[k] == x);
            } else if k > p {
                assert(a2[k - 1] == x);
            } else {
                assert(b2[b.len() as int] == x);
            }
        } else {
            let k = choose|k: int| 0 <= k < b.len() && b[k] == x;
            assert(b2[k] == x);
        }
    }
}

/// The rank that `preferred` gives `id`: its first position plus one, or
/// zero when it is not listed.
pub open spec fn preference_rank_of(preferred: Seq<Seq<char>>, id: Seq<char>) -> int
    decreases preferred.len(),
{
    if preferred.len() == 0 {
        0
    } else if preferred[0] == id {
        1
    } else {
        let rest = preference_rank_of(preferred.drop_first(), id);
        if rest == 0 {
            0
        } else {
            rest + 1
        }
    }
}

proof fn lemma_rank_found(preferred: Seq<Seq<char>>, id: Seq<char>, p: int)
    requires
        0 <= p < preferred.len(),
        preferred[p] == id,
        forall|q: int| 0 <= q < p ==> preferred[q] != id,
    ensures
        preference_rank_of(preferred, id) == p + 1,
    decreases p,
{
    if p > 0 {
        lemma_rank_found(preferred.drop_first(), id, p - 1);
    }
}

proof fn lemma_rank_absent(preferred: Seq<Seq<char>>, id: Seq<char>)
    requires
        forall|q: int| 0 <= q < preferred.len() ==> preferred[q] != id,
    ensures
        preference_rank_of(preferred, id) == 0,
    decreases preferred.len(),
{
    if preferred.len() > 0 {
        lemma_rank_absent(preferred.drop_first(), id);
    }
}

/// When neither depends on the other, entry `a` is detached before entry
/// `b`: a lower preference rank first (unlisted Mods rank lowest), and
/// among equal ranks the later entry first.
pub open spec fn detached_first(entries: Seq<HostEntry>, preferred: Seq<Seq<char>>, a: usize, b: usize) -> bool {
    let ra = preference_rank_of(preferred, entries[a as int].id@);
    let rb = preference_rank_of(preferred, entries[b as int].id@);
    ra < rb || (ra == rb && a > b)
}

/// No entry of `rest` depends on entry `provider`: it may be detached once
/// only `rest` is left.
pub open spec fn free_within(entries: Seq<HostEntry>, rest: Seq<usize>, provider: usize) -> bool {
    !needed_within(entries, rest, provider)
}

/// Sequences with the same members agree on which entries they need.
proof fn lemma_needed_same_members(entries: Seq<HostEntry>, s1: Seq<usize>, s2: Seq<usize>, x: usize)
    requires
        forall|z: usize| s1.contains(z) <==> s2.contains(z),
    ensures
        needed_within(entries, s1, x) == needed_within(entries, s2, x),
{
    if needed_within(entries, s1, x) {
        let j = choose|j: int| 0 <= j < s1.len() && consumes(entries, #[trigger] s1[j], x);
        assert(s1.contains(s1[j]));
        let k = choose|k: int| 0 <= k < s2.len() && s2[k] == s1[j];
        assert(consumes(entries, s2[k], x));
    }
    if needed_within(entries, s2, x) {
        let j = choose|j: int| 0 <= j < s2.len() && consumes(entries, #[trigger] s2[j], x);
        assert(s2.contains(s2[j]));
        let k = choose|k: int| 0 <= k < s1.len() && s1[k] == s2[j];
        assert(consumes(entries, s1[k], x));
    }
}

/// The entries not yet detached when `order[a]` was: it, the ones after it,
/// and those still waiting.
pub open spec fn left_at(order: Seq<usize>, remaining: Seq<usize>, a: int) -> Seq<usize> {
    order.subrange(a, order.len() as int) + remaining
}

/// Moving `remaining[p]` to the end of `order` leaves every `left_at` with
/// the same members.
proof fn lemma_left_at_moved(order: Seq<usize>, remaining: Seq<usize>, p: int, a: int)
    requires
        0 <= p < remaining.len(),
        0 <= a <= order.len(),
    ensures
        forall|z: usize|
            #[trigger] left_at(order.push(remaining[p]), remaining.remove(p), a).contains(z) <==> left_at(order, remaining, a).contains(z),
{
    let o2 = order.push(remaining[p]);
    let r2 = remaining.remove(p);
    let before = left_at(order, remaining, a);
    let after = left_at(o2, r2, a);
    let head = order.len() - a;
    assert forall|z: usize| after.contains(z) implies before.contains(z) by {
        let i = choose|i: int| 0 <= i < after.len() && after[i] == z;
        if i < head {
            assert(before[i] == z);
        } else if i == head {
            assert(before[head + p] == z);
        } else {
            let c = i - head - 1;
            let cc = if c < p { c } else { c + 1 };
            assert(r2[c] == remaining[cc]);
            assert(before[head + cc] == z);
        }
    }
    assert forall|z: usize| before.contains(z) implies after.contains(z) by {
        let i = choose|i: int| 0 <= i < before.len() && before[i] == z;
        if i < head {
            assert(after[i] == z);
        } else {
            let c = i - head;
            if c == p {
                assert(after[head] == z);
            } else if c < p {
                assert(r2[c] == remaining[c]);
                assert(after[head + 1 + c] == z);
            } else {
                assert(r2[c - 1] == remaining[c]);
                assert(after[head + c] == z);
            }
        }
    }
}

/// The rank that `preferred` gives `id`.
fn preference_rank(preferred: &Vec<String>, id: &str) -> (r: usize)
    ensures
        r <= preferred@.len(),
        r == preference_rank_of(crate::text::string_views(preferred@), id@),
{
    let ghost pv = crate::text::string_views(preferred@);
    let mut p: usize = 0;
    while p < preferred.len()
        invariant
            p <= preferred@.len(),
            pv == crate::text::string_views(preferred@),
            forall|q: int| 0 <= q < p ==> pv[q] != id@,
        decreases preferred.len() - p,
    {
        if crate::text::same_text(preferred[p].as_str(), id) {
            proof {
                lemma_rank_found(pv, id@, p as int);
            }
            return p + 1;
        }
        p = p + 1;
    }
    proof {
        lemma_rank_absent(pv, id@);
    }
    0
}

/// The order in which to detach: every consumer before the Mods it depends
/// on. `preferred` breaks ties between independent Mods; it never overrides
/// a dependency: each step detaches, of the Mods that nothing left depends
/// on, the one `detached_first` puts first. Fails when some Mods each depend
/// on another of them.
pub fn teardown_order(entries: &Vec<HostEntry>, preferred: &Vec<String>) -> (r: Result<Vec<usize>, String>)
    ensures
        r matches Ok(order) ==> split_indices(Seq::empty(), order@, entries@.len()) && forall|a: int, b: int|
            0 <= a < b < order@.len() ==> !consumes(entries@, #[trigger] order@[b], #[trigger] order@[a]),
        r matches Ok(order) ==> forall|a: int, b: int|
            0 <= a < b < order@.len() && free_within(entries@, order@.subrange(a, order@.len() as int), #[trigger] order@[b])
                ==> !detached_first(entries@, crate::text::string_views(preferred@), order@[b], #[trigger] order@[a]),
        r matches Err(m) ==> m@ == "resolved Mod plan contains a dependency cycle"@ && exists|rest: Seq<usize>|
            rest.len() > 0 && (forall|i: int| 0 <= i < rest.len() ==> #[trigger] rest[i] < entries@.len()) && forall|i: int|
                0 <= i < rest.len() ==> #[trigger] needed_within(entries@, rest, rest[i]),
{
    let ghost pv = crate::text::string_views(preferred@);
    let n = entries.len();
    let mut pool: Vec<usize> = Vec::new();
    let mut i: usize = n;
    while i > 0
        invariant
            i <= n,
            n == entries@.len(),
            pool@.len() == n - i,
            forall|k: int| 0 <= k < pool@.len() ==> pool@[k] == n - 1 - k,
        decreases i,
    {
        i = i - 1;
        pool.push(i);
    }
    let mut ranks: Vec<usize> = Vec::new();
    let mut k: usize = 0;
    while k < n
        invariant
            k <= n,
            n == entries@.len(),
            ranks@.len() == k,
            pv == crate::text::string_views(preferred@),
            forall|m: int| 0 <= m < k ==> ranks@[m] == preference_rank_of(pv, #[trigger] entries@[m].id@),
        decreases n - k,
    {
        ranks.push(preference_rank(preferred, entries[k].id.as_str()));
        k = k + 1;
    }
    let mut remaining: Vec<usize> = Vec::new();
    proof {
        assert forall|a: int, b: int| 0 <= a < b < pool@.len() implies pool@[a] != pool@[b] by {}
        assert forall|x: usize| x < n implies pool@.contains(x) || remaining@.contains(x) by {
            assert(pool@[n - 1 - x] == x);
        }
    }
    // A stable selection by preference rank: unranked Mods first, later
    // entries first among equals.
    while pool.len() > 0
        invariant
            n == entries@.len(),
            ranks@.len() == n,
            forall|m: int| 0 <= m < n ==> ranks@[m] == preference_rank_of(pv, #[trigger] entries@[m].id@),
            split_indices(pool@, remaining@, n as nat),
            forall|a: int, b: int| 0 <= a < b < pool@.len() ==> #[trigger] pool@[a] > #[trigger] pool@[b],
            forall|a: int, b: int|
                0 <= a < b < remaining@.len() ==> !detached_first(entries@, pv, #[trigger] remaining@[b], #[trigger] remaining@[a]),
            forall|a: int, b: int|
                0 <= a < remaining@.len() && 0 <= b < pool@.len() ==> !detached_first(entries@, pv, #[trigger] pool@[b], #[trigger] remaining@[a]),
        decreases pool@.len(),
    {
        let mut best: usize = 0;
        let mut q: usize = 1;
        while q < pool.len()
            invariant
                n == entries@.len(),
                ranks@.len() == n,
                split_indices(pool@, remaining@, n as nat),
                best < pool@.len(),
                1 <= q <= pool@.len(),
                best < q,
                forall|c: int| 0 <= c < q && c < best ==> ranks@[#[trigger] pool@[c] as int] > ranks@[pool@[best as int] as int],
                forall|c: int| 0 <= c < q && c >= best ==> ranks@[#[trigger] pool@[c] as int] >= ranks@[pool@[best as int] as int],
            decreases pool@.len() - q,
        {
            if ranks[pool[q]] < ranks[pool[best]] {
                best = q;
            }
            q = q + 1;
        }
        let ghost before_pool = pool@;
        let ghost before_remaining = remaining@;
        proof {
            lemma_move_index(pool@, remaining@, n as nat, best as int);
            assert forall|c: int| 0 <= c < before_pool.len() && c != best implies !detached_first(
                entries@,
                pv,
                #[trigger] before_pool[c],
                before_pool[best as int],
            ) by {
                assert(ranks@[before_pool[c] as int] == preference_rank_of(pv, entries@[before_pool[c] as int].id@));
                assert(ranks@[before_pool[best as int] as int] == preference_rank_of(pv, entries@[before_pool[best as int] as int].id@));
                if c < best {
                    assert(before_pool[c] > before_pool[best as int]);
                } else {
                    assert(before_pool[best as int] > before_pool[c]);
                }
            }
        }
        let moved = pool.remove(best);
        remaining.push(moved);
        proof {
            assert forall|a: int, b: int| 0 <= a < b < pool@.len() implies #[trigger] pool@[a] > #[trigger] pool@[b] by {
                let aa = if a < best { a } else { a + 1 };
                let bb = if b < best { b } else { b + 1 };
                assert(pool@[a] == before_pool[aa] && pool@[b] == before_pool[bb]);
            }
            assert forall|a: int, b: int|
                0 <= a < b < remaining@.len() implies !detached_first(entries@, pv, #[trigger] remaining@[b], #[trigger] remaining@[a]) by {
                assert(remaining@[a] == before_remaining[a]);
                if b < before_remaining.len() {
                    assert(remaining@[b] == before_remaining[b]);
                } else {
                    assert(remaining@[b] == before_pool[best as int]);
                }
            }
            assert forall|a: int, b: int|
                0 <= a < remaining@.len() && 0 <= b < pool@.len() implies !detached_first(entries@, pv, #[trigger] pool@[b], #[trigger] remaining@[a]) by {
                let bb = if b < best { b } else { b + 1 };
                assert(pool@[b] == before_pool[bb]);
                if a < before_remaining.len() {
                    assert(remaining@[a] == before_remaining[a]);
                } else {
                    assert(remaining@[a] == before_pool[best as int]);
                }
            }
        }
    }
    let mut order: Vec<usize> = Vec::new();
    proof {
        assert forall|x: usize| x < n implies remaining@.contains(x) || order@.contains(x) by {
            assert(!pool@.contains(x));
        }
    }
    while remaining.len() > 0
        invariant
            n == entries@.len(),
            split_indices(remaining@, order@, n as nat),
            forall|a: int, b: int| 0 <= a < b < order@.len() ==> !consumes(entries@, #[trigger] order@[b], #[trigger] order@[a]),
            forall|a: int, c: int| 0 <= a < order@.len() && 0 <= c < remaining@.len() ==> !consumes(entries@, #[trigger] remaining@[c], #[trigger] order@[a]),
            forall|a: int, b: int|
                0 <= a < b < remaining@.len() ==> !detached_first(entries@, pv, #[trigger] remaining@[b], #[trigger] remaining@[a]),
            forall|a: int, b: int|
                0 <= a < b < order@.len() && free_within(entries@, left_at(order@, remaining@, a), #[trigger] order@[b])
                    ==> !detached_first(entries@, pv, order@[b], #[trigger] order@[a]),
            forall|a: int, c: int|
                0 <= a < order@.len() && 0 <= c < remaining@.len() && free_within(entries@, left_at(order@, remaining@, a), #[trigger] remaining@[c])
                    ==> !detached_first(entries@, pv, remaining@[c], #[trigger] order@[a]),
        decreases remaining@.len(),
    {
        let mut p: usize = 0;
        let mut chosen: Option<usize> = None;
        while p < remaining.len() && chosen.is_none()
            invariant
                n == entries@.len(),
                split_indices(remaining@, order@, n as nat),
                p <= remaining@.len(),
                chosen matches Some(c) ==> c < remaining@.len() && forall|d: int| 0 <= d < remaining@.len() ==> !consumes(entries@, #[trigger] remaining@[d], remaining@[c as int]),
                chosen matches Some(c) ==> forall|t: int| 0 <= t < c ==> #[trigger] needed_within(entries@, remaining@, remaining@[t]),
                chosen is None ==> forall|t: int| 0 <= t < p ==> #[trigger] needed_within(entries@, remaining@, remaining@[t]),
            decreases remaining@.len() - p,
        {
            let candidate = remaining[p];
            let id = entries[candidate].id.as_str();
            let mut d: usize = 0;
            let mut consumed = false;
            while d < remaining.len()
                invariant
                    n == entries@.len(),
                    split_indices(remaining@, order@, n as nat),
                    p < remaining@.len(),
                    candidate == remaining@[p as int],
                    id@ == entries@[candidate as int].id@,
                    d <= remaining@.len(),
                    consumed == exists|e: int| 0 <= e < d && consumes(entries@, #[trigger] remaining@[e], candidate),
                decreases remaining@.len() - d,
            {
                if entries[remaining[d]].dependencies.contains(id) {
                    consumed = true;
                }
                d = d + 1;
            }
            if !consumed {
                chosen = Some(p);
            } else {
                proof {
                    assert(needed_within(entries@, remaining@, remaining@[p as int]));
                }
            }
            p = p + 1;
        }
        let next = match chosen {
            Some(c) => c,
            None => {
                proof {
                    assert forall|t: int| 0 <= t < remaining@.len() implies #[trigger] needed_within(entries@, remaining@, remaining@[t]) by {}
                    assert forall|t: int| 0 <= t < remaining@.len() implies #[trigger] remaining@[t] < entries@.len() by {}
                    reveal_strlit("resolved Mod plan contains a dependency cycle");
                }
                return Err("resolved Mod plan contains a dependency cycle".to_owned());
            },
        };
        let ghost before_remaining = remaining@;
        let ghost before_order = order@;
        proof {
            lemma_move_index(remaining@, order@, n as nat, next as int);
        }
        let picked = remaining.remove(next);
        order.push(picked);
        proof {
            assert(order@ == before_order.push(before_remaining[next as int]));
            assert(remaining@ == before_remaining.remove(next as int));
            assert forall|a: int, b: int| 0 <= a < b < order@.len() implies !consumes(entries@, #[trigger] order@[b], #[trigger] order@[a]) by {
                if b == order@.len() - 1 {
                    assert(order@[b] == before_remaining[next as int]);
                    assert(order@[a] == before_order[a]);
                } else {
                    assert(order@[a] == before_order[a] && order@[b] == before_order[b]);
                }
            }
            assert forall|a: int, c: int| 0 <= a < order@.len() && 0 <= c < remaining@.len() implies !consumes(entries@, #[trigger] remaining@[c], #[trigger] order@[a]) by {
                let cc = if c < next { c } else { c + 1 };
                assert(remaining@[c] == before_remaining[cc]);
                if a < before_order.len() {
                    assert(order@[a] == before_order[a]);
                } else {
                    assert(order@[a] == before_remaining[next as int]);
                }
            }
            assert forall|a: int, b: int|
                0 <= a < b < remaining@.len() implies !detached_first(entries@, pv, #[trigger] remaining@[b], #[trigger] remaining@[a]) by {
                let aa = if a < next { a } else { a + 1 };
                let bb = if b < next { b } else { b + 1 };
                assert(remaining@[a] == before_remaining[aa] && remaining@[b] == before_remaining[bb]);
            }
            assert forall|a: int, b: int|
                0 <= a < b < order@.len() && free_within(entries@, left_at(order@, remaining@, a), #[trigger] order@[b])
                    implies !detached_first(entries@, pv, order@[b], #[trigger] order@[a]) by {
                lemma_left_at_moved(before_order, before_remaining, next as int, a);
                lemma_needed_same_members(entries@, left_at(order@, remaining@, a), left_at(before_order, before_remaining, a), order@[b]);
                assert(order@[a] == before_order[a]);
                if b < before_order.len() {
                    assert(order@[b] == before_order[b]);
                } else {
                    assert(order@[b] == before_remaining[next as int]);
                }
            }
            assert forall|a: int, c: int|
                0 <= a < order@.len() && 0 <= c < remaining@.len() && free_within(entries@, left_at(order@, remaining@, a), #[trigger] remaining@[c])
                    implies !detached_first(entries@, pv, remaining@[c], #[trigger] order@[a]) by {
                let cc = if c < next { c } else { c + 1 };
                assert(remaining@[c] == before_remaining[cc]);
                if a < before_order.len() {
                    lemma_left_at_moved(before_order, before_remaining, next as int, a);
                    lemma_needed_same_members(entries@, left_at(order@, remaining@, a), left_at(before_order, before_remaining, a), remaining@[c]);
                    assert(order@[a] == before_order[a]);
                } else {
                    assert(order@[a] == before_remaining[next as int]);
                    let newest = left_at(order@, remaining@, a);
                    assert forall|z: usize| newest.contains(z) <==> before_remaining.contains(z) by {
                        lemma_left_at_moved(before_order, before_remaining, next as int, a);
                        let base = left_at(before_order, before_remaining, a);
                        assert(base =~= before_remaining);
                    }
                    lemma_needed_same_members(entries@, newest, before_remaining, remaining@[c]);
                    if cc < next {
                        assert(needed_within(entries@, before_remaining, before_remaining[cc]));
                    }
                }
            }
        }
    }
    proof {
        assert forall|x: usize| x < n implies Seq::<usize>::empty().contains(x) || order@.contains(x) by {
            assert(!remaining@.contains(x));
        }
        assert forall|a: int| 0 <= a < order@.len() implies left_at(order@, remaining@, a) =~= order@.subrange(a, order@.len() as int) by {}
    }
    Ok(order)
}

/// "<id>: <step>: <error>".
fn step_failure(id: &str, step: &str, error: &str) -> (r: String)
    ensures
        r@ == id@ + ": "@ + step@ + ": "@ + error@,
{
    let mut out: Vec<char> = Vec::new();
    crate::text::push_str(&mut out, id);
    crate::text::push_str(&mut out, ": ");
    crate::text::push_str(&mut out, step);
    crate::text::push_str(&mut out, ": ");
    crate::text::push_str(&mut out, error);
    crate::text::string_of(&out)
}

/// Adds every member of `more` to `set`.
fn add_all(set: &mut IdSet, more: &IdSet)
    ensures
        forall|x: Seq<char>|
            #![trigger final(set)@.contains(x)]
            #![trigger old(set)@.contains(x)]
            #![trigger more@.contains(x)]
            final(set)@.contains(x) <==> old(set)@.contains(x) || more@.contains(x),
{
    let mut k: usize = 0;
    while k < more.len()
        invariant
            k <= more.map.spec_entries().len(),
            forall|x: Seq<char>| set@.contains(x) <==> old(set)@.contains(x) || exists|m: int| 0 <= m < k && (#[trigger] more.map.spec_entries()[m]).0 == x,
        decreases more.map.spec_entries().len() - k,
    {
        let ghost before = *set;
        set.insert(more.id_at(k).clone());
        proof {
            assert forall|x: Seq<char>| set@.contains(x) <==> old(set)@.contains(x) || exists|m: int| 0 <= m < k + 1 && (#[trigger] more.map.spec_entries()[m]).0 == x by {
                if exists|m: int| 0 <= m < k + 1 && (#[trigger] more.map.spec_entries()[m]).0 == x {
                    let m = choose|m: int| 0 <= m < k + 1 && (#[trigger] more.map.spec_entries()[m]).0 == x;
                    if m < k {
                        assert(before@.contains(x));
                    }
                }
                if set@.contains(x) && x != more.map.spec_entries()[k as int].0 {
                    assert(before@.contains(x));
                }
            }
        }
        k = k + 1;
    }
}

/// Keeps everything in `kept`, the dependency closure of entry `index`.
fn keep_dependencies(Ghost(entries): Ghost<Seq<HostEntry>>, index: usize, kept: IdSet, retained: &mut IdSet)
    requires
        index < entries.len(),
        entries[index as int].dependencies@.subset_of(kept@),
        closed_under_dependencies(entries, kept@),
    ensures
        old(retained)@.subset_of(final(retained)@),
        entries[index as int].dependencies@.subset_of(final(retained)@),
        forall|x: Seq<char>| #[trigger] final(retained)@.contains(x) && !old(retained)@.contains(x)
            ==> dependencies_of_id(entries, x).subset_of(final(retained)@),
        forall|x: Seq<char>| #[trigger] final(retained)@.contains(x) == (old(retained)@.contains(x) || kept@.contains(x)),
{
    let ghost before = *old(retained);
    add_all(retained, &kept);
    proof {
        assert(forall|x: Seq<char>| retained@.contains(x) <==> before@.contains(x) || kept@.contains(x));
        assert forall|x: Seq<char>| old(retained)@.contains(x) implies retained@.contains(x) by {
            assert(before@.contains(x));
        }
        assert forall|x: Seq<char>| #[trigger] retained@.contains(x) && !old(retained)@.contains(x)
            implies dependencies_of_id(entries, x).subset_of(retained@) by {
            assert(kept@.contains(x));
            assert(dependencies_of_id(entries, x).subset_of(kept@));
            assert forall|y: Seq<char>| dependencies_of_id(entries, x).contains(y) implies retained@.contains(y) by {
                assert(kept@.contains(y));
            }
        }
        assert forall|x: Seq<char>| entries[index as int].dependencies@.contains(x) implies retained@.contains(x) by {
            assert(kept@.contains(x));
        }
    }
}

/// The lifecycle of a session's Mods: which phase comes next, and how far
/// startup and cleanup have come. The calls into the Mods happen between
/// these steps.
pub struct Lifecycle {
    pub entries: Vec<HostEntry>,
    pub next_phase: u32,
    pub startup_failed: bool,
    pub launch_finished: bool,
    pub shutting_down: bool,
    pub native_running: bool,
    pub stopped: bool,
    pub detached: bool,
    pub release_prepared: bool,
    pub failed_cleanup: bool,
}

/// Which step of cleanup a pass performs.
#[derive(Clone, Copy, Debug, PartialEq, Eq, Structural)]
pub enum Cleanup {
    Stop,
    Detach,
    PrepareRelease,
}

/// Whether a cleanup pass must call entry `e` now: it took part in startup,
/// has not completed this step, has completed the previous one, and no
/// failed consumer keeps it.
pub open spec fn cleanup_due(step: Cleanup, e: HostEntry, retained: Set<Seq<char>>) -> bool {
    &&& e.participated
    &&& !retained.contains(e.id@)
    &&& match step {
        Cleanup::Stop => !e.stopped,
        Cleanup::Detach => e.stopped && !e.detached,
        Cleanup::PrepareRelease => !e.release_prepared,
    }
}

/// The name of a cleanup step in messages.
pub open spec fn step_name(step: Cleanup) -> Seq<char> {
    match step {
        Cleanup::Stop => "stop"@,
        Cleanup::Detach => "detach"@,
        Cleanup::PrepareRelease => "prepare release"@,
    }
}

impl Lifecycle {
    /// A session about to prepare its Mods.
    pub fn new(entries: Vec<HostEntry>) -> (r: Lifecycle)
        ensures
            r.entries@ == entries@,
            r.next_phase == crate::status::PHASE_PREPARE,
            !r.startup_failed && !r.launch_finished && !r.shutting_down && !r.native_running,
            !r.stopped && !r.detached && !r.release_prepared && !r.failed_cleanup,
    {
        Lifecycle {
            entries,
            next_phase: crate::status::PHASE_PREPARE,
            startup_failed: false,
            launch_finished: false,
            shutting_down: false,
            native_running: false,
            stopped: false,
            detached: false,
            release_prepared: false,
            failed_cleanup: false,
        }
    }

    /// Whether startup phase `phase`, named `name`, may run now: in order,
    /// and only while startup has neither failed nor been cancelled.
    pub fn begin_phase(&self, phase: u32, name: &str) -> (r: Result<(), String>)
        ensures
            r is Ok <==> !self.startup_failed && !self.shutting_down && self.next_phase == phase,
            r matches Err(m) ==> m@ == "cannot "@ + name@ + " in the current Mod lifecycle state"@,
    {
        if self.startup_failed || self.shutting_down || self.next_phase != phase {
            let mut out: Vec<char> = Vec::new();
            crate::text::push_str(&mut out, "cannot ");
            crate::text::push_str(&mut out, name);
            crate::text::push_str(&mut out, " in the current Mod lifecycle state");
            return Err(crate::text::string_of(&out));
        }
        Ok(())
    }

    /// Records entry `index`'s answer to phase `name`. A failure ends
    /// startup.
    pub fn record_phase(&mut self, index: usize, name: &str, result: Result<(), String>) -> (r: Result<(), String>)
        requires
            index < old(self).entries@.len(),
        ensures
            final(self).entries@.len() == old(self).entries@.len(),
            forall|j: int| 0 <= j < old(self).entries@.len() && j != index ==> final(self).entries@[j] == old(self).entries@[j],
            final(self).entries@[index as int].participated,
            final(self).entries@[index as int].id == old(self).entries@[index as int].id,
            final(self).next_phase == old(self).next_phase,
            result is Ok ==> r is Ok && final(self).entries@[index as int].status.phase@ == name@
                && final(self).startup_failed == old(self).startup_failed,
            result matches Err(e) ==> {
                &&& final(self).startup_failed
                &&& final(self).entries@[index as int].status.phase@ == "failed"@
                &&& final(self).entries@[index as int].status.error == Some(e)
                &&& r matches Err(m) && m@ == old(self).entries@[index as int].id@ + ": "@ + name@ + ": "@ + e@
            },
    {
        let mut entry = self.entries.remove(index);
        entry.participated = true;
        let outcome = match result {
            Ok(()) => {
                entry.status.phase = name.to_owned();
                Ok(())
            },
            Err(error) => {
                let message = step_failure(entry.id.as_str(), name, error.as_str());
                entry.status.error = Some(error);
                entry.status.phase = "failed".to_owned();
                self.startup_failed = true;
                Err(message)
            },
        };
        self.entries.insert(index, entry);
        outcome
    }

    /// Moves on to the next phase after every entry succeeded.
    pub fn end_phase(&mut self)
        requires
            old(self).next_phase < u32::MAX,
        ensures
            final(self).next_phase == old(self).next_phase + 1,
            final(self).entries == old(self).entries,
    {
        self.next_phase = self.next_phase + 1;
    }

    /// Whether cleanup must call entry `index` in this pass.
    pub fn due(&self, step: Cleanup, index: usize, retained: &IdSet) -> (r: bool)
        requires
            index < self.entries@.len(),
        ensures
            r == cleanup_due(step, self.entries@[index as int], retained@),
    {
        let entry = &self.entries[index];
        if !entry.participated || retained.contains(entry.id.as_str()) {
            return false;
        }
        match step {
            Cleanup::Stop => !entry.stopped,
            Cleanup::Detach => entry.stopped && !entry.detached,
            Cleanup::PrepareRelease => !entry.release_prepared,
        }
    }

    /// Records entry `index`'s answer to a cleanup step. A failure keeps,
    /// for the rest of the pass, every Mod that the failed one depends on,
    /// directly or through others.
    pub fn record_cleanup(
        &mut self,
        step: Cleanup,
        index: usize,
        result: Result<(), String>,
        retained: &mut IdSet,
        errors: &mut Vec<String>,
    )
        requires
            index < old(self).entries@.len(),
        ensures
            final(self).entries@.len() == old(self).entries@.len(),
            forall|j: int| 0 <= j < old(self).entries@.len() && j != index ==> final(self).entries@[j] == old(self).entries@[j],
            final(self).entries@[index as int].id == old(self).entries@[index as int].id,
            final(self).entries@[index as int].dependencies == old(self).entries@[index as int].dependencies,
            final(self).entries@[index as int].participated == old(self).entries@[index as int].participated,
            result is Ok ==> {
                &&& final(retained)@ == old(retained)@
                &&& final(errors)@ == old(errors)@
                &&& final(self).entries@[index as int].status.error is None
                &&& match step {
                    Cleanup::Stop => final(self).entries@[index as int].stopped && final(self).entries@[index as int].status.phase@ == "stopped"@,
                    Cleanup::Detach => final(self).entries@[index as int].detached && final(self).entries@[index as int].status.phase@ == "detached"@,
                    Cleanup::PrepareRelease => final(self).entries@[index as int].release_prepared
                        && final(self).entries@[index as int].status.phase@ == "release_prepared"@,
                }
            },
            result matches Err(e) ==> {
                &&& final(self).entries@[index as int].status.error == Some(e)
                &&& final(self).entries@[index as int].status.phase@ == match step {
                    Cleanup::Stop => "stop_failed"@,
                    Cleanup::Detach => "detach_failed"@,
                    Cleanup::PrepareRelease => "release_failed"@,
                }
                &&& final(errors)@.len() == old(errors)@.len() + 1
                &&& final(errors)@.subrange(0, old(errors)@.len() as int) == old(errors)@
                &&& final(errors)@.last()@ == old(self).entries@[index as int].id@ + ": "@ + step_name(step) + ": "@ + e@
                &&& old(retained)@.subset_of(final(retained)@)
                &&& forall|x: Seq<char>| #[trigger] final(retained)@.contains(x) == (old(retained)@.contains(x)
                    || provider_of(old(self).entries@, index as int, x))
                &&& old(self).entries@[index as int].dependencies@.subset_of(final(retained)@)
                &&& forall|x: Seq<char>| #[trigger] final(retained)@.contains(x) && !old(retained)@.contains(x)
                    ==> dependencies_of_id(old(self).entries@, x).subset_of(final(retained)@)
                &&& final(self).entries@[index as int].stopped == old(self).entries@[index as int].stopped
                &&& final(self).entries@[index as int].detached == old(self).entries@[index as int].detached
                &&& final(self).entries@[index as int].release_prepared == old(self).entries@[index as int].release_prepared
            },
    {
        let kept = dependencies_of(&self.entries, index);
        proof {
            assert(self.entries@ == old(self).entries@);
            assert forall|x: Seq<char>| kept@.contains(x) == provider_of(old(self).entries@, index as int, x) by {
                if kept@.contains(x) {
                    assert forall|t: Set<Seq<char>>|
                        #![trigger closed_under_dependencies(old(self).entries@, t)]
                        old(self).entries@[index as int].dependencies@.subset_of(t) && closed_under_dependencies(old(self).entries@, t)
                        implies t.contains(x) by {
                        assert(kept@.subset_of(t));
                    }
                }
                if provider_of(old(self).entries@, index as int, x) {
                    assert(closed_under_dependencies(old(self).entries@, kept@));
                }
            }
        }
        let ghost before_entries = self.entries@;
        let mut entry = self.entries.remove(index);
        match result {
            Ok(()) => {
                match step {
                    Cleanup::Stop => {
                        entry.stopped = true;
                        entry.status.phase = "stopped".to_owned();
                    },
                    Cleanup::Detach => {
                        entry.detached = true;
                        entry.status.phase = "detached".to_owned();
                    },
                    Cleanup::PrepareRelease => {
                        entry.release_prepared = true;
                        entry.status.phase = "release_prepared".to_owned();
                    },
                }
                entry.status.error = None;
            },
            Err(error) => {
                let name = match step {
                    Cleanup::Stop => "stop",
                    Cleanup::Detach => "detach",
                    Cleanup::PrepareRelease => "prepare release",
                };
                errors.push(step_failure(entry.id.as_str(), name, error.as_str()));
                entry.status.phase = match step {
                    Cleanup::Stop => "stop_failed".to_owned(),
                    Cleanup::Detach => "detach_failed".to_owned(),
                    Cleanup::PrepareRelease => "release_failed".to_owned(),
                };
                entry.status.error = Some(error);
                keep_dependencies(Ghost(before_entries), index, kept, retained);
            },
        }
        self.entries.insert(index, entry);
        proof {
            assert(self.entries@ =~= before_entries.remove(index as int).insert(index as int, entry));
        }
    }

    /// Runs one cleanup pass over `order`, each entry at most once: calls
    /// `call` with an entry's index, and for a detach whether its callback
    /// is still pending, for every entry that is due when its turn comes,
    /// and records the answer (the result, and whether the detach callback
    /// succeeded). Returns the calls made, each with whether it succeeded,
    /// and the pass's result, which also carries the `earlier` errors.
    pub fn cleanup_pass<F: Fn(usize, bool) -> (Result<(), String>, bool)>(
        &mut self,
        step: Cleanup,
        order: &Vec<usize>,
        call: F,
        earlier: Vec<String>,
    ) -> (r: (Vec<(usize, bool)>, Result<(), String>))
        requires
            forall|q: int| 0 <= q < order@.len() ==> (#[trigger] order@[q]) < old(self).entries@.len(),
            forall|p: int, q: int| 0 <= p < q < order@.len() ==> (#[trigger] order@[p]) != (#[trigger] order@[q]),
            forall|i: usize, pending: bool| call.requires((i, pending)),
        ensures
            same_shape(old(self).entries@, final(self).entries@),
            pass_made(step, old(self).entries@, order@, r.0@),
            (r.1 is Ok) == (earlier@.len() == 0 && all_succeeded(r.0@)),
            final(self).failed_cleanup == (r.1 is Err),
            step == Cleanup::Stop ==> final(self).stopped == (r.1 is Ok),
            step == Cleanup::Detach ==> final(self).detached == (r.1 is Ok),
            step == Cleanup::PrepareRelease ==> final(self).release_prepared == (r.1 is Ok),
    {
        let ghost entries0 = self.entries@;
        let ghost errors0 = earlier@;
        let mut errors = earlier;
        let mut retained = IdSet::new();
        let mut calls: Vec<(usize, bool)> = Vec::new();
        let ghost mut pos: Seq<int> = Seq::empty();
        let mut k: usize = 0;
        proof {
            assert forall|x: Seq<char>| retained@.contains(x) == kept_before(entries0, calls@, pos, 0).contains(x) by {}
        }
        while k < order.len()
            invariant
                k <= order@.len(),
                forall|q: int| 0 <= q < order@.len() ==> (#[trigger] order@[q]) < entries0.len(),
                forall|p: int, q: int| 0 <= p < q < order@.len() ==> (#[trigger] order@[p]) != (#[trigger] order@[q]),
                forall|i: usize, pending: bool| call.requires((i, pending)),
                same_shape(entries0, self.entries@),
                forall|q: int| k <= q < order@.len() ==> self.entries@[(#[trigger] order@[q]) as int] == entries0[order@[q] as int],
                pos.len() == calls@.len(),
                forall|c: int| 0 <= c < calls@.len() ==> 0 <= #[trigger] pos[c] < k && order@[pos[c]] == calls@[c].0,
                forall|c: int, d: int| 0 <= c < d < calls@.len() ==> #[trigger] pos[c] < #[trigger] pos[d],
                forall|q: int|
                    0 <= q < k ==> ((exists|c: int| 0 <= c < calls@.len() && #[trigger] pos[c] == q) <==> cleanup_due(
                        step,
                        entries0[order@[q] as int],
                        kept_before(entries0, calls@, pos, q),
                    )),
                forall|x: Seq<char>| #[trigger] retained@.contains(x) == kept_before(entries0, calls@, pos, k as int).contains(x),
                errors@.len() == 0 <==> errors0.len() == 0 && forall|c: int| 0 <= c < calls@.len() ==> (#[trigger] calls@[c]).1,
            decreases order@.len() - k,
        {
            let index = order[k];
            proof {
                assert(self.entries@[order@[k as int] as int] == entries0[order@[k as int] as int]);
                assert(retained@ =~= kept_before(entries0, calls@, pos, k as int));
            }
            let ghost calls0 = calls@;
            let ghost pos0 = pos;
            let ghost retained0 = retained@;
            let ghost mut called = false;
            let ghost mut ok = true;
            if self.due(step, index, &retained) {
                let pending = match step {
                    Cleanup::Detach => self.detach_pending(index),
                    _ => false,
                };
                let (result, detach_done) = call(index, pending);
                if pending && detach_done {
                    self.record_detach_call(index);
                }
                let ghost shape1 = self.entries@;
                let succeeded = result.is_ok();
                self.record_cleanup(step, index, result, &mut retained, &mut errors);
                calls.push((index, succeeded));
                proof {
                    pos = pos.push(k as int);
                    called = true;
                    ok = succeeded;
                    lemma_same_shape(shape1, entries0);
                }
            }
            proof {
                lemma_pass_step(step, entries0, order@, calls0, pos0, calls@, pos, k as int, called, ok);
                assert forall|q: int| k + 1 <= q < order@.len() implies self.entries@[(#[trigger] order@[q]) as int]
                    == entries0[order@[q] as int] by {
                    assert(order@[q] != order@[k as int]);
                }
                assert forall|x: Seq<char>| #[trigger] retained@.contains(x) == kept_before(entries0, calls@, pos, k + 1).contains(x) by {
                    assert(retained0.contains(x) == kept_before(entries0, calls0, pos0, k as int).contains(x));
                }
            }
            k = k + 1;
        }
        let done = self.finish_cleanup(step, &errors);
        proof {
            assert(pass_positions(step, entries0, order@, calls@, pos));
            assert((done is Ok) == (errors0.len() == 0 && all_succeeded(calls@)));
        }
        (calls, done)
    }

    /// Ends a cleanup pass: the step is complete when no call failed.
    pub fn finish_cleanup(&mut self, step: Cleanup, errors: &Vec<String>) -> (r: Result<(), String>)
        ensures
            final(self).entries == old(self).entries,
            r is Ok <==> errors@.len() == 0,
            r matches Err(m) ==> m@ == crate::text::joined(crate::text::string_views(errors@), "; "@),
            final(self).failed_cleanup == (errors@.len() > 0),
            step == Cleanup::Stop ==> final(self).stopped == (errors@.len() == 0),
            step == Cleanup::Detach ==> final(self).detached == (errors@.len() == 0),
            step == Cleanup::PrepareRelease ==> final(self).release_prepared == (errors@.len() == 0),
    {
        let done = errors.len() == 0;
        match step {
            Cleanup::Stop => self.stopped = done,
            Cleanup::Detach => self.detached = done,
            Cleanup::PrepareRelease => self.release_prepared = done,
        }
        self.failed_cleanup = !done;
        crate::patch::errors_result(errors)
    }

    /// Whether a release may be prepared: only after detach completed.
    pub fn release_allowed(&self) -> (r: Result<(), String>)
        ensures
            r is Ok <==> self.detached,
            r matches Err(m) ==> m@ == "detach must complete before preparing game release"@,
    {
        if !self.detached {
            proof {
                reveal_strlit("detach must complete before preparing game release");
            }
            return Err("detach must complete before preparing game release".to_owned());
        }
        Ok(())
    }

    /// Whether the detach callback of entry `index` has yet to succeed: once
    /// it has, a retried detach only repeats the cleanup that follows it.
    pub fn detach_pending(&self, index: usize) -> (r: bool)
        requires
            index < self.entries@.len(),
        ensures
            r == !self.entries@[index as int].detach_called,
    {
        !self.entries[index].detach_called
    }

    /// Records that the detach callback of entry `index` succeeded.
    pub fn record_detach_call(&mut self, index: usize)
        requires
            index < old(self).entries@.len(),
        ensures
            final(self).entries@.len() == old(self).entries@.len(),
            forall|j: int| 0 <= j < old(self).entries@.len() && j != index ==> final(self).entries@[j] == old(self).entries@[j],
            final(self).entries@[index as int] == (HostEntry { detach_called: true, ..old(self).entries@[index as int] }),
            final(self).next_phase == old(self).next_phase,
    {
        let mut entry = self.entries.remove(index);
        entry.detach_called = true;
        self.entries.insert(index, entry);
    }

    /// Starts the one launch of a session: allowed only after prepare and
    /// before check, while startup has neither failed nor been cancelled,
    /// and only once.
    pub fn begin_launch(&mut self) -> (r: Result<(), String>)
        ensures
            r is Ok <==> launch_open(*old(self)),
            r matches Err(m) ==> m@ == "cannot launch in the current Mod lifecycle state"@,
            r is Ok ==> *final(self) == (Lifecycle { launch_finished: true, ..*old(self) }),
            r is Err ==> *final(self) == *old(self),
    {
        launch_allowed(self.startup_failed, self.shutting_down, self.launch_finished, self.next_phase)?;
        self.launch_finished = true;
        Ok(())
    }

    /// Records that no single launch provider could be chosen: startup fails.
    pub fn launch_unavailable(&mut self)
        ensures
            *final(self) == (Lifecycle { startup_failed: true, ..*old(self) }),
    {
        self.startup_failed = true;
    }

    /// Records the chosen provider's answer: ready, cancelled (the session
    /// shuts down without a startup failure) or failed (startup fails).
    pub fn record_launch(&mut self, index: usize, status: Status, context_error: &str) -> (r: Result<bool, String>)
        requires
            index < old(self).entries@.len(),
        ensures
            final(self).entries@.len() == old(self).entries@.len(),
            forall|j: int| 0 <= j < old(self).entries@.len() && j != index ==> final(self).entries@[j] == old(self).entries@[j],
            final(self).entries@[index as int].id == old(self).entries@[index as int].id,
            final(self).entries@[index as int].dependencies == old(self).entries@[index as int].dependencies,
            final(self).next_phase == old(self).next_phase,
            final(self).launch_finished == old(self).launch_finished,
            status == OK ==> r == Ok::<bool, String>(true) && final(self).entries@[index as int].status.phase@ == "launch_ready"@
                && final(self).shutting_down == old(self).shutting_down && final(self).startup_failed == old(self).startup_failed,
            status == CANCELLED ==> r == Ok::<bool, String>(false) && final(self).entries@[index as int].status.phase@ == "cancelled"@
                && final(self).shutting_down && final(self).startup_failed == old(self).startup_failed,
            status != OK && status != CANCELLED ==> {
                &&& final(self).startup_failed
                &&& final(self).shutting_down == old(self).shutting_down
                &&& final(self).entries@[index as int].status.phase@ == "failed"@
                &&& final(self).entries@[index as int].status.error matches Some(e) && e@ == launch_failure(status, context_error@)
                &&& r matches Err(m) && m@ == old(self).entries@[index as int].status.id@ + ": launch: "@ + launch_failure(status, context_error@)
            },
    {
        let mut entry = self.entries.remove(index);
        let outcome = finish_launch(&mut entry.status, status, context_error);
        self.entries.insert(index, entry);
        proof {
            assert(self.entries@ =~= old(self).entries@.remove(index as int).insert(index as int, entry));
        }
        match outcome {
            Ok(true) => {},
            Ok(false) => {
                self.shutting_down = true;
            },
            Err(_) => {
                self.startup_failed = true;
            },
        }
        outcome
    }

    /// Runs the session's one launch: `provider` is the ID of the launch
    /// provider chosen from the published interfaces, or why none could be
    /// chosen; `run` calls that provider's callback for the entry with the
    /// given index and answers its status and last logged error. Refused
    /// outside the launch window, without calling `run`; a missing provider
    /// fails startup.
    pub fn launch<F: Fn(usize) -> (Status, String)>(&mut self, provider: Result<String, String>, run: F) -> (r: Result<bool, String>)
        requires
            forall|i: usize| run.requires((i,)),
        ensures
            !launch_open(*old(self)) ==> (r matches Err(m) && m@ == "cannot launch in the current Mod lifecycle state"@)
                && *final(self) == *old(self),
            launch_open(*old(self)) ==> final(self).launch_finished && !launch_open(*final(self)),
            launch_open(*old(self)) && provider is Err ==> r == Err::<bool, String>(provider->Err_0) && final(self).startup_failed,
            launch_open(*old(self)) && (provider matches Ok(id) && !exists|i: int|
                0 <= i < old(self).entries@.len() && old(self).entries@[i].id@ == id@) ==> (r matches Err(m) && m@
                == provider->Ok_0@ + ": published provider is not part of this session"@),
            launch_open(*old(self)) && (provider matches Ok(id) && exists|i: int|
                0 <= i < old(self).entries@.len() && old(self).entries@[i].id@ == id@) ==> exists|status: Status, error: String|
                {
                    let i = first_with(old(self).entries@, provider->Ok_0@);
                    &&& #[trigger] run.ensures((first_with(old(self).entries@, provider->Ok_0@) as usize,), (status, error))
                    &&& status == OK ==> r == Ok::<bool, String>(true) && final(self).entries@[i].status.phase@ == "launch_ready"@
                    &&& status == CANCELLED ==> r == Ok::<bool, String>(false) && final(self).shutting_down
                    &&& status != OK && status != CANCELLED ==> r is Err && final(self).startup_failed
                },
    {
        self.begin_launch()?;
        let id = match provider {
            Ok(id) => id,
            Err(error) => {
                self.launch_unavailable();
                return Err(error);
            },
        };
        let index = match find_entry(&self.entries, id.as_str()) {
            Some(index) => index,
            None => {
                let mut out: Vec<char> = Vec::new();
                crate::text::push_str(&mut out, id.as_str());
                crate::text::push_str(&mut out, ": published provider is not part of this session");
                return Err(crate::text::string_of(&out));
            },
        };
        let (status, error) = run(index);
        let r = self.record_launch(index, status, error.as_str());
        proof {
            assert(index as int == first_with(old(self).entries@, id@));
            assert(run.ensures((first_with(old(self).entries@, id@) as usize,), (status, error)));
        }
        r
    }

    /// Whether dropping the session must keep every Mod resident: while
    /// native code runs, or after a failed cleanup.
    pub fn must_retain(&self) -> (r: bool)
        ensures
            r == (self.native_running || self.failed_cleanup),
    {
        self.native_running || self.failed_cleanup
    }
}

/// How a selected Mod is instantiated.
#[derive(Debug)]
pub enum ModuleSource {
    /// By the host's own constructor.
    Builtin,
    /// By loading the DLL `entry` from the package `directory`.
    Native { directory: String, entry: String },
    /// As a data-only package in `directory`.
    Data { directory: String },
}

/// How candidate `c` is instantiated: built in, a native package with its
/// DLL entry, or a data package. A native package without an entry fails.
pub fn module_source(c: &Candidate) -> (r: Result<ModuleSource, String>)
    ensures
        c.source == Source::Builtin ==> r matches Ok(ModuleSource::Builtin),
        (c.source matches Source::Directory(d) && c.manifest.kind == Kind::Data) ==> (r matches Ok(ModuleSource::Data { directory })
            && directory@ == c.source->Directory_0@),
        (c.source is Directory && c.manifest.kind == Kind::Native) ==> match c.manifest.entry {
            Some(e) => r matches Ok(ModuleSource::Native { directory, entry }) && directory@ == c.source->Directory_0@ && entry@ == e@,
            None => r matches Err(m) && m@ == c.manifest.id@ + ": missing DLL entry"@,
        },
{
    match &c.source {
        Source::Builtin => Ok(ModuleSource::Builtin),
        Source::Directory(directory) => match c.manifest.kind {
            Kind::Data => Ok(ModuleSource::Data { directory: directory.clone() }),
            Kind::Native => match &c.manifest.entry {
                Some(entry) => Ok(ModuleSource::Native { directory: directory.clone(), entry: entry.clone() }),
                None => {
                    let mut out: Vec<char> = Vec::new();
                    crate::text::push_str(&mut out, c.manifest.id.as_str());
                    crate::text::push_str(&mut out, ": missing DLL entry");
                    Err(crate::text::string_of(&out))
                },
            },
        },
    }
}

/// The message of a failed instantiation, with the cleanup failure that
/// followed it, if any.
pub fn create_failure(id: &str, error: &str, cleanup: Option<&str>) -> (r: String)
    ensures
        r@ == id@ + ": create: "@ + error@ + match cleanup {
            Some(c) => "; cleanup: "@ + c@,
            None => Seq::empty(),
        },
{
    let mut out: Vec<char> = Vec::new();
    crate::text::push_str(&mut out, id);
    crate::text::push_str(&mut out, ": create: ");
    crate::text::push_str(&mut out, error);
    match cleanup {
        Some(c) => {
            crate::text::push_str(&mut out, "; cleanup: ");
            crate::text::push_str(&mut out, c);
        },
        None => {
            proof {
                assert(out@ =~= out@ + Seq::<char>::empty());
            }
        },
    }
    crate::text::string_of(&out)
}

/// A freshly created entry for candidate `c`: status "created", not yet
/// part of startup, depending on the candidate's declared dependencies.
pub fn host_entry(c: &Candidate) -> (r: HostEntry)
    ensures
        r.id@ == c.manifest.id@,
        forall|x: Seq<char>| r.dependencies@.contains(x) <==> crate::keyed::has_key(c.manifest.dependencies.spec_entries(), x),
        !r.participated && !r.stopped && !r.detach_called && !r.detached && !r.release_prepared,
        r.status.id@ == c.manifest.id@,
        r.status.version@ == c.manifest.version@,
        r.status.phase@ == "created"@,
        r.status.error is None,
{
    let deps = &c.manifest.dependencies;
    let mut dependencies = IdSet::new();
    let mut k: usize = 0;
    while k < deps.len()
        invariant
            k <= deps.spec_entries().len(),
            forall|x: Seq<char>| dependencies@.contains(x) <==> exists|m: int| 0 <= m < k && (#[trigger] deps.spec_entries()[m]).0 == x,
        decreases deps.spec_entries().len() - k,
    {
        let ghost before = dependencies;
        dependencies.insert(deps.key_at(k).clone());
        proof {
            assert forall|x: Seq<char>| dependencies@.contains(x) <==> exists|m: int| 0 <= m < k + 1 && (#[trigger] deps.spec_entries()[m]).0 == x by {
                if exists|m: int| 0 <= m < k + 1 && (#[trigger] deps.spec_entries()[m]).0 == x {
                    let m = choose|m: int| 0 <= m < k + 1 && (#[trigger] deps.spec_entries()[m]).0 == x;
                    if m < k {
                        assert(before@.contains(x));
                    }
                }
                if dependencies@.contains(x) && x != deps.spec_entries()[k as int].0 {
                    assert(before@.contains(x));
                }
            }
        }
        k = k + 1;
    }
    HostEntry {
        id: c.manifest.id.clone(),
        dependencies,
        participated: false,
        stopped: false,
        detach_called: false,
        detached: false,
        release_prepared: false,
        status: ModStatus {
            id: c.manifest.id.clone(),
            version: c.manifest.version.as_str().to_owned(),
            phase: "created".to_owned(),
            error: None,
        },
    }
}

/// After a failed cleanup call, as `record_cleanup` leaves the retained set,
/// the set stays closed under dependencies, and every Mod that the failed
/// one reaches through dependencies, however many steps away, is retained:
/// the rest of the pass does not call it.
pub proof fn failed_cleanup_spares_transitive_providers(
    entries: Seq<HostEntry>,
    index: int,
    before: Set<Seq<char>>,
    after: Set<Seq<char>>,
    chain: Seq<Seq<char>>,
    step: Cleanup,
    provider: HostEntry,
)
    requires
        0 <= index < entries.len(),
        closed_under_dependencies(entries, before),
        before.subset_of(after),
        entries[index].dependencies@.subset_of(after),
        forall|x: Seq<char>| #[trigger] after.contains(x) && !before.contains(x) ==> dependencies_of_id(entries, x).subset_of(after),
        chain.len() > 0,
        entries[index].dependencies@.contains(chain[0]),
        forall|k: int| 0 <= k < chain.len() - 1 ==> dependencies_of_id(entries, #[trigger] chain[k]).contains(chain[k + 1]),
        provider.id@ == chain.last(),
    ensures
        closed_under_dependencies(entries, after),
        after.contains(chain.last()),
        !cleanup_due(step, provider, after),
{
    assert forall|x: Seq<char>| #[trigger] after.contains(x) implies dependencies_of_id(entries, x).subset_of(after) by {
        if before.contains(x) {
            assert(dependencies_of_id(entries, x).subset_of(before));
        }
    }
    lemma_chain_retained(entries, after, chain, chain.len() - 1);
}

proof fn lemma_chain_retained(entries: Seq<HostEntry>, set: Set<Seq<char>>, chain: Seq<Seq<char>>, k: int)
    requires
        closed_under_dependencies(entries, set),
        0 <= k < chain.len(),
        set.contains(chain[0]),
        forall|m: int| 0 <= m < chain.len() - 1 ==> dependencies_of_id(entries, #[trigger] chain[m]).contains(chain[m + 1]),
    ensures
        set.contains(chain[k]),
    decreases k,
{
    if k > 0 {
        lemma_chain_retained(entries, set, chain, k - 1);
        assert(dependencies_of_id(entries, chain[k - 1]).contains(chain[k]));
        assert(dependencies_of_id(entries, chain[k - 1]).subset_of(set));
    }
}

/// Two entry lists name the same Mods with the same dependencies, in order.
pub open spec fn same_shape(a: Seq<HostEntry>, b: Seq<HostEntry>) -> bool {
    &&& a.len() == b.len()
    &&& forall|j: int| 0 <= j < a.len() ==> (#[trigger] a[j]).id@ == b[j].id@ && a[j].dependencies@ == b[j].dependencies@
}

proof fn lemma_first_with(entries: Seq<HostEntry>, id: Seq<char>, i: int)
    requires
        0 <= i < entries.len(),
        entries[i].id@ == id,
    ensures
        0 <= first_with(entries, id) < entries.len(),
        entries[first_with(entries, id)].id@ == id,
        forall|j: int| 0 <= j < first_with(entries, id) ==> entries[j].id@ != id,
    decreases i,
{
    if exists|j: int| 0 <= j < i && entries[j].id@ == id {
        let j = choose|j: int| 0 <= j < i && entries[j].id@ == id;
        lemma_first_with(entries, id, j);
    } else {
        assert(0 <= i < entries.len() && entries[i].id@ == id && forall|j: int| 0 <= j < i ==> entries[j].id@ != id);
    }
}

/// Entry lists of the same shape record the same dependencies and the same
/// providers.
proof fn lemma_same_shape(a: Seq<HostEntry>, b: Seq<HostEntry>)
    requires
        same_shape(a, b),
    ensures
        forall|x: Seq<char>| #[trigger] dependencies_of_id(a, x) == dependencies_of_id(b, x),
        forall|t: Set<Seq<char>>| #[trigger] closed_under_dependencies(a, t) == closed_under_dependencies(b, t),
        forall|i: int, x: Seq<char>| 0 <= i < a.len() ==> #[trigger] provider_of(a, i, x) == provider_of(b, i, x),
{
    assert forall|x: Seq<char>| #[trigger] dependencies_of_id(a, x) == dependencies_of_id(b, x) by {
        if exists|i: int| 0 <= i < a.len() && a[i].id@ == x {
            let i = choose|i: int| 0 <= i < a.len() && a[i].id@ == x;
            assert(b[i].id@ == x);
            lemma_first_with(a, x, i);
            lemma_first_with(b, x, i);
            let fa = first_with(a, x);
            let fb = first_with(b, x);
            if fa < fb {
                assert(b[fa].id@ == a[fa].id@);
            } else if fb < fa {
                assert(a[fb].id@ == b[fb].id@);
            }
        } else {
            assert(!exists|i: int| 0 <= i < b.len() && b[i].id@ == x) by {
                if exists|i: int| 0 <= i < b.len() && b[i].id@ == x {
                    let i = choose|i: int| 0 <= i < b.len() && b[i].id@ == x;
                    assert(a[i].id@ == x);
                }
            }
        }
    }
    assert forall|t: Set<Seq<char>>| #[trigger] closed_under_dependencies(a, t) == closed_under_dependencies(b, t) by {
        if closed_under_dependencies(a, t) {
            assert forall|x: Seq<char>| #[trigger] t.contains(x) implies dependencies_of_id(b, x).subset_of(t) by {
                assert(dependencies_of_id(a, x) == dependencies_of_id(b, x));
            }
        }
        if closed_under_dependencies(b, t) {
            assert forall|x: Seq<char>| #[trigger] t.contains(x) implies dependencies_of_id(a, x).subset_of(t) by {
                assert(dependencies_of_id(a, x) == dependencies_of_id(b, x));
            }
        }
    }
    assert forall|i: int, x: Seq<char>| 0 <= i < a.len() implies #[trigger] provider_of(a, i, x) == provider_of(b, i, x) by {
        assert(a[i].dependencies@ == b[i].dependencies@);
        if provider_of(a, i, x) {
            assert forall|t: Set<Seq<char>>|
                #![trigger closed_under_dependencies(b, t)]
                b[i].dependencies@.subset_of(t) && closed_under_dependencies(b, t) implies t.contains(x) by {
                assert(closed_under_dependencies(a, t));
            }
        }
        if provider_of(b, i, x) {
            assert forall|t: Set<Seq<char>>|
                #![trigger closed_under_dependencies(a, t)]
                a[i].dependencies@.subset_of(t) && closed_under_dependencies(a, t) implies t.contains(x) by {
                assert(closed_under_dependencies(b, t));
            }
        }
    }
}

/// The IDs that the failed calls of `calls` made before position `q` of a
/// pass keep: every provider of each failed Mod.
pub open spec fn kept_before(entries: Seq<HostEntry>, calls: Seq<(usize, bool)>, pos: Seq<int>, q: int) -> Set<Seq<char>> {
    Set::new(
        |x: Seq<char>|
            exists|c: int| 0 <= c < calls.len() && pos[c] < q && !(#[trigger] calls[c]).1 && provider_of(entries, calls[c].0 as int, x),
    )
}

/// Every call of a pass succeeded.
pub open spec fn all_succeeded(calls: Seq<(usize, bool)>) -> bool {
    forall|c: int| 0 <= c < calls.len() ==> (#[trigger] calls[c]).1
}

/// `calls`, made at positions `pos` of `order`, are the calls of a cleanup
/// pass: in order, and at each position exactly when that entry is due,
/// given what the earlier failures keep.
pub open spec fn pass_positions(
    step: Cleanup,
    entries: Seq<HostEntry>,
    order: Seq<usize>,
    calls: Seq<(usize, bool)>,
    pos: Seq<int>,
) -> bool {
    &&& pos.len() == calls.len()
    &&& forall|c: int| 0 <= c < calls.len() ==> 0 <= #[trigger] pos[c] < order.len() && order[pos[c]] == calls[c].0
    &&& forall|c: int, d: int| 0 <= c < d < calls.len() ==> #[trigger] pos[c] < #[trigger] pos[d]
    &&& forall|q: int|
        0 <= q < order.len() ==> ((exists|c: int| 0 <= c < calls.len() && #[trigger] pos[c] == q) <==> cleanup_due(
            step,
            entries[order[q] as int],
            kept_before(entries, calls, pos, q),
        ))
}

/// `calls` are the calls that a cleanup pass over `order` makes, starting
/// from `entries`: each entry in turn, exactly when it is due, where a
/// failed call keeps every Mod it depends on, however many steps away, for
/// the rest of the pass.
pub open spec fn pass_made(step: Cleanup, entries: Seq<HostEntry>, order: Seq<usize>, calls: Seq<(usize, bool)>) -> bool {
    exists|pos: Seq<int>| pass_positions(step, entries, order, calls, pos)
}

/// One position of a cleanup pass keeps the record of its calls exact.
proof fn lemma_pass_step(
    step: Cleanup,
    entries: Seq<HostEntry>,
    order: Seq<usize>,
    calls0: Seq<(usize, bool)>,
    pos0: Seq<int>,
    calls: Seq<(usize, bool)>,
    pos: Seq<int>,
    k: int,
    called: bool,
    ok: bool,
)
    requires
        0 <= k < order.len(),
        pos0.len() == calls0.len(),
        forall|c: int| 0 <= c < calls0.len() ==> 0 <= #[trigger] pos0[c] < k && order[pos0[c]] == calls0[c].0,
        forall|c: int, d: int| 0 <= c < d < calls0.len() ==> #[trigger] pos0[c] < #[trigger] pos0[d],
        forall|q: int|
            0 <= q < k ==> ((exists|c: int| 0 <= c < calls0.len() && #[trigger] pos0[c] == q) <==> cleanup_due(
                step,
                entries[order[q] as int],
                kept_before(entries, calls0, pos0, q),
            )),
        called == cleanup_due(step, entries[order[k] as int], kept_before(entries, calls0, pos0, k)),
        called ==> calls == calls0.push((order[k], ok)) && pos == pos0.push(k),
        !called ==> calls == calls0 && pos == pos0,
    ensures
        pos.len() == calls.len(),
        forall|c: int| 0 <= c < calls.len() ==> 0 <= #[trigger] pos[c] < k + 1 && order[pos[c]] == calls[c].0,
        forall|c: int, d: int| 0 <= c < d < calls.len() ==> #[trigger] pos[c] < #[trigger] pos[d],
        forall|q: int|
            0 <= q < k + 1 ==> ((exists|c: int| 0 <= c < calls.len() && #[trigger] pos[c] == q) <==> cleanup_due(
                step,
                entries[order[q] as int],
                kept_before(entries, calls, pos, q),
            )),
        forall|x: Seq<char>| #[trigger] kept_before(entries, calls, pos, k + 1).contains(x) == (kept_before(
            entries,
            calls0,
            pos0,
            k,
        ).contains(x) || (called && !ok && provider_of(entries, order[k] as int, x))),
        (forall|c: int| 0 <= c < calls.len() ==> (#[trigger] calls[c]).1) == ((forall|c: int|
            0 <= c < calls0.len() ==> (#[trigger] calls0[c]).1) && (called ==> ok)),
{
    assert forall|c: int| 0 <= c < calls0.len() implies calls[c] == calls0[c] && pos[c] == pos0[c] by {}
    assert forall|q: int| 0 <= q <= k implies #[trigger] kept_before(entries, calls, pos, q) == kept_before(entries, calls0, pos0, q) by {
        assert forall|x: Seq<char>| kept_before(entries, calls, pos, q).contains(x) == kept_before(entries, calls0, pos0, q).contains(
            x,
        ) by {
            if kept_before(entries, calls, pos, q).contains(x) {
                let c = choose|c: int| 0 <= c < calls.len() && pos[c] < q && !(#[trigger] calls[c]).1 && provider_of(entries, calls[c].0 as int, x);
                if c < calls0.len() {
                    assert(calls0[c] == calls[c]);
                }
            }
            if kept_before(entries, calls0, pos0, q).contains(x) {
                let c = choose|c: int| 0 <= c < calls0.len() && pos0[c] < q && !(#[trigger] calls0[c]).1 && provider_of(entries, calls0[c].0 as int, x);
                assert(calls[c] == calls0[c]);
            }
        }
        assert(kept_before(entries, calls, pos, q) =~= kept_before(entries, calls0, pos0, q));
    }
    assert forall|q: int| 0 <= q < k + 1 implies ((exists|c: int| 0 <= c < calls.len() && #[trigger] pos[c] == q) <==> cleanup_due(
        step,
        entries[order[q] as int],
        kept_before(entries, calls, pos, q),
    )) by {
        if exists|c: int| 0 <= c < calls.len() && #[trigger] pos[c] == q {
            let c = choose|c: int| 0 <= c < calls.len() && #[trigger] pos[c] == q;
            if c < calls0.len() {
                assert(pos0[c] == q);
            }
        }
        if q < k && exists|c: int| 0 <= c < calls0.len() && #[trigger] pos0[c] == q {
            let c = choose|c: int| 0 <= c < calls0.len() && #[trigger] pos0[c] == q;
            assert(pos[c] == q);
        }
        if q == k && called {
            assert(pos[calls0.len() as int] == k);
        }
    }
    assert forall|x: Seq<char>| #[trigger] kept_before(entries, calls, pos, k + 1).contains(x) == (kept_before(
        entries,
        calls0,
        pos0,
        k,
    ).contains(x) || (called && !ok && provider_of(entries, order[k] as int, x))) by {
        if kept_before(entries, calls, pos, k + 1).contains(x) {
            let c = choose|c: int| 0 <= c < calls.len() && pos[c] < k + 1 && !(#[trigger] calls[c]).1 && provider_of(entries, calls[c].0 as int, x);
            if c < calls0.len() {
                assert(calls0[c] == calls[c]);
            }
        }
        if kept_before(entries, calls0, pos0, k).contains(x) {
            let c = choose|c: int| 0 <= c < calls0.len() && pos0[c] < k && !(#[trigger] calls0[c]).1 && provider_of(entries, calls0[c].0 as int, x);
            assert(calls[c] == calls0[c]);
        }
        if called && !ok && provider_of(entries, order[k] as int, x) {
            let c = calls0.len() as int;
            assert(calls[c] == (order[k], ok));
        }
    }
    if called {
        assert(calls[calls0.len() as int] == (order[k], ok));
    }
}

/// Once a call of a cleanup pass fails, no Mod that the failed one depends
/// on, directly or through others, is called later in the pass.
pub proof fn pass_spares_providers(
    step: Cleanup,
    entries: Seq<HostEntry>,
    order: Seq<usize>,
    calls: Seq<(usize, bool)>,
    c: int,
    d: int,
)
    requires
        pass_made(step, entries, order, calls),
        0 <= c < d < calls.len(),
        !calls[c].1,
    ensures
        !provider_of(entries, calls[c].0 as int, entries[calls[d].0 as int].id@),
{
    let pos = choose|pos: Seq<int>| pass_positions(step, entries, order, calls, pos);
    let q = pos[d];
    assert(pos[c] < pos[d]);
    if provider_of(entries, calls[c].0 as int, entries[calls[d].0 as int].id@) {
        assert(kept_before(entries, calls, pos, q).contains(entries[order[q] as int].id@));
        assert(exists|e: int| 0 <= e < calls.len() && #[trigger] pos[e] == q);
    }
}

/// A cleanup pass calls every entry of its order that was due when the pass
/// began and that no failed call depends on.
pub proof fn pass_calls_the_unaffected(
    step: Cleanup,
    entries: Seq<HostEntry>,
    order: Seq<usize>,
    calls: Seq<(usize, bool)>,
    q: int,
)
    requires
        pass_made(step, entries, order, calls),
        0 <= q < order.len(),
        cleanup_due(step, entries[order[q] as int], Set::empty()),
        forall|c: int| 0 <= c < calls.len() && !(#[trigger] calls[c]).1 ==> !provider_of(entries, calls[c].0 as int, entries[order[q] as int].id@),
    ensures
        exists|c: int| 0 <= c < calls.len() && calls[c].0 == order[q],
{
    let pos = choose|pos: Seq<int>| pass_positions(step, entries, order, calls, pos);
    assert(!kept_before(entries, calls, pos, q).contains(entries[order[q] as int].id@));
    assert(cleanup_due(step, entries[order[q] as int], kept_before(entries, calls, pos, q)));
    let c = choose|c: int| 0 <= c < calls.len() && #[trigger] pos[c] == q;
    assert(calls[c].0 == order[q]);
}

/// The session's lifecycle still accepts its launch.
pub open spec fn launch_open(l: Lifecycle) -> bool {
    !l.startup_failed && !l.shutting_down && !l.launch_finished && l.next_phase == PHASE_CHECK
}

/// The launch runs at most once: once it has begun, whatever the provider
/// answered, no further launch is accepted.
pub proof fn launch_runs_once(started: Lifecycle, answered: Lifecycle)
    requires
        started.launch_finished,
        answered.launch_finished == started.launch_finished,
    ensures
        !launch_open(started),
        !launch_open(answered),
{
}

/// Cleanup never calls a Mod twice for a step it completed: an entry that
/// has stopped is not due to stop, one that has detached is not due to
/// detach, and one that prepared its release is not due to prepare it
/// again, whatever is retained. An entry that did not take part in startup
/// is never due.
pub proof fn completed_steps_are_not_repeated(e: HostEntry, retained: Set<Seq<char>>)
    ensures
        e.stopped ==> !cleanup_due(Cleanup::Stop, e, retained),
        e.detached ==> !cleanup_due(Cleanup::Detach, e, retained),
        e.release_prepared ==> !cleanup_due(Cleanup::PrepareRelease, e, retained),
        !e.participated ==> !cleanup_due(Cleanup::Stop, e, retained) && !cleanup_due(Cleanup::Detach, e, retained)
            && !cleanup_due(Cleanup::PrepareRelease, e, retained),
        retained.contains(e.id@) ==> !cleanup_due(Cleanup::Stop, e, retained) && !cleanup_due(Cleanup::Detach, e, retained)
            && !cleanup_due(Cleanup::PrepareRelease, e, retained),
        !e.stopped ==> !cleanup_due(Cleanup::Detach, e, retained),
{
}

/// A Mod that took part in startup and that no failure keeps is due for
/// every step it has not completed, detaching only once it has stopped.
pub proof fn pending_steps_are_due(e: HostEntry, retained: Set<Seq<char>>)
    requires
        e.participated,
        !retained.contains(e.id@),
    ensures
        !e.stopped ==> cleanup_due(Cleanup::Stop, e, retained),
        e.stopped && !e.detached ==> cleanup_due(Cleanup::Detach, e, retained),
        !e.release_prepared ==> cleanup_due(Cleanup::PrepareRelease, e, retained),
{
}

/// A step that succeeded for an entry leaves it not due for that step: a
/// retried pass does not call it again.
pub proof fn succeeded_steps_are_not_repeated(step: Cleanup, e: HostEntry, retained: Set<Seq<char>>)
    requires
        match step {
            Cleanup::Stop => e.stopped,
            Cleanup::Detach => e.detached,
            Cleanup::PrepareRelease => e.release_prepared,
        },
    ensures
        !cleanup_due(step, e, retained),
{
}

} // verus!
