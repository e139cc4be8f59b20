//! Dependency resolution: choose one version of each required Mod and of
//! everything it depends on, then order providers before their consumers.

use vstd::prelude::*;
use crate::keyed::{Duplicate, IdMap, IdSet, has_key, keys_sorted, value_for, lemma_value_at};
use crate::manifest::{Candidate, manifest_problem, same_candidate};
use crate::text::{joined, push_str, seq_less, string_of, string_views};
use crate::version::{semver_matches, semver_order, Version, VersionReq};

verus! {

/// How one Mod was selected in configuration.
pub struct Selection {
    /// `Some(false)` disables the Mod even when something requires it;
    /// `Some(true)` enables it as a root.
    pub enabled: Option<bool>,
    /// An extra constraint on the chosen version.
    pub version: Option<VersionReq>,
}

impl Duplicate for Selection {
    fn duplicate(&self) -> (r: Selection) {
        Selection {
            enabled: self.enabled,
            version: match &self.version {
                Some(v) => Some(v.duplicate()),
                None => None,
            },
        }
    }
}

/// The outcome of a successful resolution.
pub struct Resolved {
    /// Each provider precedes its consumers. One candidate per Mod ID.
    pub mods: Vec<Candidate>,
}

// ---------------------------------------------------------------------------
// The meaning of a selection
// ---------------------------------------------------------------------------

/// Whether configuration explicitly disables `id`.
pub open spec fn disabled(sels: Seq<(Seq<char>, Selection)>, id: Seq<char>) -> bool {
    has_key(sels, id) && value_for(sels, id).enabled == Some(false)
}

/// Whether configuration explicitly enables `id`.
pub open spec fn enabled(sels: Seq<(Seq<char>, Selection)>, id: Seq<char>) -> bool {
    has_key(sels, id) && value_for(sels, id).enabled == Some(true)
}

/// Whether `version` meets the version that configuration selects for `id`.
pub open spec fn selection_allows(sels: Seq<(Seq<char>, Selection)>, id: Seq<char>, version: Seq<
    char,
>) -> bool {
    has_key(sels, id) && value_for(sels, id).version is Some ==> semver_matches(
        value_for(sels, id).version.unwrap()@,
        version,
    )
}

/// The requirement that configuration places on a root: its selected
/// version, or "*".
pub open spec fn root_requirement(sels: Seq<(Seq<char>, Selection)>, id: Seq<char>) -> Seq<char> {
    if has_key(sels, id) && value_for(sels, id).version is Some {
        value_for(sels, id).version.unwrap()@
    } else {
        "*"@
    }
}

/// The Mods that must be present: everything required, every default that
/// is not explicitly disabled, and everything explicitly enabled.
pub open spec fn is_root(
    sels: Seq<(Seq<char>, Selection)>,
    defaults: Set<Seq<char>>,
    required: Set<Seq<char>>,
    id: Seq<char>,
) -> bool {
    required.contains(id) || (defaults.contains(id) && !disabled(sels, id)) || enabled(sels, id)
}

/// The dependencies of a candidate, as (ID, requirement) entries.
pub open spec fn deps_of(c: Candidate) -> Seq<(Seq<char>, VersionReq)> {
    c.manifest.dependencies.spec_entries()
}

/// `c` is one of `cands`.
pub open spec fn among(c: Candidate, cands: Seq<Candidate>) -> bool {
    exists|j: int| 0 <= j < cands.len() && same_candidate(c, #[trigger] cands[j])
}

/// The outcome `mods` meets every constraint: it comes from the candidates,
/// holds one version per ID, includes every root under the root's
/// requirement, respects explicit disabling and selected versions, and lists
/// each dependency, at a matching version, before its consumer.
pub open spec fn valid_resolution(
    cands: Seq<Candidate>,
    sels: Seq<(Seq<char>, Selection)>,
    defaults: Set<Seq<char>>,
    required: Set<Seq<char>>,
    mods: Seq<Candidate>,
) -> bool {
    &&& forall|i: int| 0 <= i < mods.len() ==> #[trigger] among(mods[i], cands)
    &&& forall|i: int, k: int|
        0 <= i < k < mods.len() ==> (#[trigger] mods[i]).manifest.id@ != (#[trigger] mods[k]).manifest.id@
    &&& forall|id: Seq<char>|
        is_root(sels, defaults, required, id) ==> exists|i: int|
            0 <= i < mods.len() && (#[trigger] mods[i]).manifest.id@ == id && semver_matches(
                root_requirement(sels, id),
                mods[i].manifest.version@,
            )
    &&& forall|i: int|
        0 <= i < mods.len() ==> !disabled(sels, (#[trigger] mods[i]).manifest.id@) && selection_allows(
            sels,
            mods[i].manifest.id@,
            mods[i].manifest.version@,
        )
    &&& forall|i: int, d: Seq<char>|
        0 <= i < mods.len() && #[trigger] has_key(deps_of(mods[i]), d) ==> exists|k: int|
            0 <= k < i && (#[trigger] mods[k]).manifest.id@ == d && semver_matches(
                value_for(deps_of(mods[i]), d)@,
                mods[k].manifest.version@,
            )
}

/// Every Mod of `mods` is a root or a dependency of a Mod listed after it:
/// only the roots and what they need, directly or through other Mods, are
/// loaded.
pub open spec fn only_needed(
    sels: Seq<(Seq<char>, Selection)>,
    defaults: Set<Seq<char>>,
    required: Set<Seq<char>>,
    mods: Seq<Candidate>,
) -> bool {
    forall|i: int|
        0 <= i < mods.len() ==> is_root(sels, defaults, required, (#[trigger] mods[i]).manifest.id@) || exists|k: int|
            i < k < mods.len() && has_key(deps_of(#[trigger] mods[k]), mods[i].manifest.id@)
}

/// Some Mod of `mods` is the candidate `c`.
pub open spec fn picked(mods: Seq<Candidate>, c: Candidate) -> bool {
    exists|i: int| 0 <= i < mods.len() && same_candidate(#[trigger] mods[i], c)
}

/// `c` is one of the candidates that `trail` names.
pub open spec fn in_trail(cands: Seq<Candidate>, trail: Seq<usize>, c: Candidate) -> bool {
    exists|p: int| 0 <= p < trail.len() && same_candidate(c, cands[(#[trigger] trail[p]) as int])
}

/// After the first `m` choices of `trail`, Mod `y` waits for its version:
/// it is a root or a dependency of an earlier choice, and not chosen yet.
pub open spec fn root_awaiting(
    cands: Seq<Candidate>,
    sels: Seq<(Seq<char>, Selection)>,
    defaults: Set<Seq<char>>,
    required: Set<Seq<char>>,
    trail: Seq<usize>,
    m: int,
    y: Seq<char>,
) -> bool {
    &&& (is_root(sels, defaults, required, y) || exists|p: int|
        0 <= p < m && has_key(deps_of(cands[(#[trigger] trail[p]) as int]), y))
    &&& forall|p: int| 0 <= p < m ==> cands[(#[trigger] trail[p]) as int].manifest.id@ != y
}

/// `trail` lists the candidates of `mods` in the order their versions were
/// chosen: first the least root ID, then each time the least ID that a root
/// or a dependency of an earlier choice names and that is not chosen yet,
/// until none is left. Each is at least as new as what any valid resolution
/// that agrees with the earlier choices picks for that Mod; in particular no
/// valid resolution has a newer version of the least root.
pub open spec fn newest_choices(
    cands: Seq<Candidate>,
    sels: Seq<(Seq<char>, Selection)>,
    defaults: Set<Seq<char>>,
    required: Set<Seq<char>>,
    mods: Seq<Candidate>,
    trail: Seq<usize>,
) -> bool {
    &&& forall|p: int| 0 <= p < trail.len() ==> (#[trigger] trail[p]) < cands.len() && picked(mods, cands[trail[p] as int])
    &&& forall|i: int| 0 <= i < mods.len() ==> in_trail(cands, trail, #[trigger] mods[i])
    &&& forall|m: int, other: Seq<Candidate>|
        #![trigger valid_resolution(cands, sels, defaults, required, other), trail[m]]
        0 <= m < trail.len() && valid_resolution(cands, sels, defaults, required, other) && (forall|p: int|
            0 <= p < m ==> picked(other, cands[(#[trigger] trail[p]) as int])) ==> forall|i: int|
            0 <= i < other.len() && (#[trigger] other[i]).manifest.id@ == cands[trail[m] as int].manifest.id@ ==> same_candidate(
                other[i],
                cands[trail[m] as int],
            ) || semver_order(cands[trail[m] as int].manifest.version@, other[i].manifest.version@) == 1
    &&& forall|m: int|
        0 <= m < trail.len() ==> root_awaiting(cands, sels, defaults, required, trail, m, cands[(#[trigger] trail[m]) as int].manifest.id@)
    &&& forall|m: int, y: Seq<char>|
        0 <= m < trail.len() && #[trigger] root_awaiting(cands, sels, defaults, required, trail, m, y) ==> y
            == cands[trail[m] as int].manifest.id@ || seq_less(cands[trail[m] as int].manifest.id@, y)
    &&& forall|y: Seq<char>| !#[trigger] root_awaiting(cands, sels, defaults, required, trail, trail.len() as int, y)
}

/// The versions of `mods` were chosen newest first, as `newest_choices` says.
pub open spec fn newest_versions(
    cands: Seq<Candidate>,
    sels: Seq<(Seq<char>, Selection)>,
    defaults: Set<Seq<char>>,
    required: Set<Seq<char>>,
    mods: Seq<Candidate>,
) -> bool {
    exists|trail: Seq<usize>| newest_choices(cands, sels, defaults, required, mods, trail)
}

/// Every Mod of `mods` whose configuration sets a version requirement has a
/// version that meets it, whether the Mod is enabled, a root or only a
/// dependency.
pub open spec fn honours_selected_versions(sels: Seq<(Seq<char>, Selection)>, mods: Seq<Candidate>) -> bool {
    forall|i: int|
        0 <= i < mods.len() && has_key(sels, (#[trigger] mods[i]).manifest.id@) && value_for(sels, mods[i].manifest.id@).version
            is Some ==> semver_matches(value_for(sels, mods[i].manifest.id@).version.unwrap()@, mods[i].manifest.version@)
}

/// A valid resolution honours every configured version requirement, also
/// that of a Mod that is only a dependency and not explicitly enabled.
pub proof fn resolutions_honour_selected_versions(
    cands: Seq<Candidate>,
    sels: Seq<(Seq<char>, Selection)>,
    defaults: Set<Seq<char>>,
    required: Set<Seq<char>>,
    mods: Seq<Candidate>,
)
    requires
        valid_resolution(cands, sels, defaults, required, mods),
    ensures
        honours_selected_versions(sels, mods),
{
}

// ---------------------------------------------------------------------------
// Counting
// ---------------------------------------------------------------------------

/// How many of `items` fail `present`.
pub open spec fn count_missing(items: Seq<Seq<char>>, present: spec_fn(Seq<char>) -> bool) -> nat
    decreases items.len(),
{
    if items.len() == 0 {
        0
    } else {
        count_missing(items.drop_last(), present) + (if present(items.last()) {
            0nat
        } else {
            1nat
        })
    }
}

/// Adding members never increases the count, and strictly decreases it when
/// one of `items` becomes present.
pub proof fn lemma_count_missing(
    items: Seq<Seq<char>>,
    before: spec_fn(Seq<char>) -> bool,
    after: spec_fn(Seq<char>) -> bool,
    x: Seq<char>,
)
    requires
        forall|s: Seq<char>| #[trigger] before(s) ==> after(s),
    ensures
        count_missing(items, after) <= count_missing(items, before),
        items.contains(x) && !before(x) && after(x) ==> count_missing(items, after) < count_missing(
            items,
            before,
        ),
    decreases items.len(),
{
    if items.len() > 0 {
        lemma_count_missing(items.drop_last(), before, after, x);
        if items.contains(x) && !before(x) && after(x) {
            if items.last() != x {
                let i = choose|i: int| 0 <= i < items.len() && items[i] == x;
                assert(items.drop_last()[i] == x);
            }
        }
    }
}

// ---------------------------------------------------------------------------
// Available versions
// ---------------------------------------------------------------------------

/// The IDs of the candidates.
pub open spec fn ids_of(cands: Seq<Candidate>) -> Seq<Seq<char>> {
    cands.map_values(|c: Candidate| c.manifest.id@)
}

/// The versions of the candidates.
pub open spec fn versions_in(cands: Seq<Candidate>) -> Seq<Seq<char>> {
    cands.map_values(|c: Candidate| c.manifest.version@)
}

/// `list` names candidates with ID `id` below `bound`, newest first by
/// version order.
pub open spec fn newest_first(ids: Seq<Seq<char>>, vers: Seq<Seq<char>>, id: Seq<char>, list: Seq<usize>, bound: int) -> bool {
    &&& forall|t: int| 0 <= t < list.len() ==> (#[trigger] list[t]) < bound && list[t] < ids.len() && ids[list[t] as int] == id
    &&& forall|t: int, u: int|
        0 <= t < u < list.len() ==> semver_order(vers[(#[trigger] list[t]) as int], vers[(#[trigger] list[u]) as int]) == 1
}

/// Every ID's entry lists its candidates newest first.
pub open spec fn available_ok(cands: Seq<Candidate>, avail: Seq<(Seq<char>, Vec<usize>)>) -> bool {
    forall|id: Seq<char>| #[trigger] has_key(avail, id) ==> newest_first(ids_of(cands), versions_in(cands), id, value_for(avail, id)@, cands.len() as int)
}

/// Two candidates of one Mod whose versions compare equal.
pub open spec fn duplicate_versions(cands: Seq<Candidate>) -> bool {
    exists|j: int, k: int|
        0 <= j < cands.len() && 0 <= k < cands.len() && j != k && (#[trigger] cands[j]).manifest.id@
            == (#[trigger] cands[k]).manifest.id@ && semver_order(
            cands[j].manifest.version@,
            cands[k].manifest.version@,
        ) != 1 && semver_order(cands[k].manifest.version@, cands[j].manifest.version@) != 1
}

fn copy_indices(v: &Vec<usize>) -> (r: Vec<usize>)
    ensures
        r@ == v@,
{
    let mut r: Vec<usize> = Vec::new();
    let mut i: usize = 0;
    while i < v.len()
        invariant
            i <= v@.len(),
            r@ == v@.subrange(0, i as int),
        decreases v.len() - i,
    {
        r.push(v[i]);
        i = i + 1;
    }
    assert(r@ =~= v@);
    r
}

/// "<id> <version>: multiple implementation sources".
fn duplicate_message(id: &str, version: &Version) -> (r: String)
    ensures
        r@ == id@ + " "@ + version@ + ": multiple implementation sources"@,
{
    let mut out: Vec<char> = Vec::new();
    push_str(&mut out, id);
    push_str(&mut out, " ");
    push_str(&mut out, version.as_str());
    push_str(&mut out, ": multiple implementation sources");
    string_of(&out)
}

proof fn lemma_insert_newest_first(
    ids: Seq<Seq<char>>,
    vers: Seq<Seq<char>>,
    id: Seq<char>,
    before: Seq<usize>,
    k: int,
    j: usize,
)
    requires
        newest_first(ids, vers, id, before, j as int),
        0 <= k <= before.len(),
        j < ids.len(),
        ids[j as int] == id,
        forall|t: int| 0 <= t < k ==> semver_order(vers[(#[trigger] before[t]) as int], vers[j as int]) == 1,
        forall|u: int| k <= u < before.len() ==> semver_order(vers[j as int], vers[(#[trigger] before[u]) as int]) == 1,
    ensures
        newest_first(ids, vers, id, before.insert(k, j), j + 1),
{
    let list = before.insert(k, j);
    assert forall|t: int, u: int| 0 <= t < u < list.len() implies semver_order(
        vers[(#[trigger] list[t]) as int],
        vers[(#[trigger] list[u]) as int],
    ) == 1 by {
        let tt = if t < k { t } else { t - 1 };
        let uu = if u < k { u } else { u - 1 };
        if t < k {
            assert(list[t] == before[t]);
        } else if t > k {
            assert(list[t] == before[t - 1]);
        } else {
            assert(list[t] == j);
        }
        if u < k {
            assert(list[u] == before[u]);
        } else if u > k {
            assert(list[u] == before[u - 1]);
        } else {
            assert(list[u] == j);
        }
        if t != k && u != k {
            assert(tt < uu);
        }
    }
    assert forall|t: int| 0 <= t < list.len() implies (#[trigger] list[t]) < j + 1 && list[t] < ids.len()
        && ids[list[t] as int] == id by {
        if t < k {
            assert(list[t] == before[t]);
        } else if t > k {
            assert(list[t] == before[t - 1]);
        }
    }
}

proof fn lemma_newest_first_bound(ids: Seq<Seq<char>>, vers: Seq<Seq<char>>, id: Seq<char>, list: Seq<usize>, a: int, b: int)
    requires
        newest_first(ids, vers, id, list, a),
        a <= b,
    ensures
        newest_first(ids, vers, id, list, b),
{
}

/// Inserts candidate `j` into the newest-first list of its ID.
fn insert_by_order(cands: &Vec<Candidate>, existing: Vec<usize>, j: usize) -> (r: Result<
    Vec<usize>,
    (),
>)
    requires
        j < cands@.len(),
        newest_first(ids_of(cands@), versions_in(cands@), cands@[j as int].manifest.id@, existing@, j as int),
    ensures
        r matches Ok(list) ==> newest_first(ids_of(cands@), versions_in(cands@), cands@[j as int].manifest.id@, list@, j + 1),
        r matches Ok(list) ==> list@.contains(j) && forall|t: int| 0 <= t < existing@.len() ==> list@.contains(#[trigger] existing@[t]),
        r is Err ==> duplicate_versions(cands@),
{
    let ghost ids = ids_of(cands@);
    let ghost vers = versions_in(cands@);
    let ghost id = cands@[j as int].manifest.id@;
    let version = &cands[j].manifest.version;
    let mut k: usize = 0;
    while k < existing.len() && cands[existing[k]].manifest.version.compare(version) == 1
        invariant
            k <= existing@.len(),
            j < cands@.len(),
            ids == ids_of(cands@),
            vers == versions_in(cands@),
            version@ == vers[j as int],
            newest_first(ids, vers, id, existing@, j as int),
            forall|t: int| 0 <= t < k ==> semver_order(vers[(#[trigger] existing@[t]) as int], vers[j as int]) == 1,
        decreases existing.len() - k,
    {
        k = k + 1;
    }
    if k < existing.len() {
        let newer = version.compare(&cands[existing[k]].manifest.version);
        if newer != 1 {
            proof {
                let other = existing@[k as int] as int;
                assert(ids[other] == id);
                assert(cands@[other].manifest.id@ == cands@[j as int].manifest.id@);
            }
            return Err(());
        }
        proof {
            assert forall|u: int| k <= u < existing@.len() implies semver_order(
                vers[j as int],
                vers[(#[trigger] existing@[u]) as int],
            ) == 1 by {
                if u > k {
                    assert(semver_order(vers[existing@[k as int] as int], vers[existing@[u] as int]) == 1);
                }
            }
        }
    }
    let mut list = existing;
    let ghost before = list@;
    list.insert(k, j);
    proof {
        lemma_insert_newest_first(ids, vers, id, before, k as int, j);
        assert(list@ == before.insert(k as int, j));
        assert(list@[k as int] == j);
        assert forall|t: int| 0 <= t < before.len() implies list@.contains(#[trigger] before[t]) by {
            if t < k {
                assert(list@[t] == before[t]);
            } else {
                assert(list@[t + 1] == before[t]);
            }
        }
    }
    Ok(list)
}

/// Every candidate below `bound` is listed under its ID.
pub open spec fn lists_complete(cands: Seq<Candidate>, avail: Seq<(Seq<char>, Vec<usize>)>, bound: int) -> bool {
    forall|i: int| 0 <= i < bound ==> has_key(avail, #[trigger] ids_of(cands)[i]) && value_for(avail, ids_of(cands)[i])@.contains(i as usize)
}

/// Every ID's entry lists its candidates below `bound`, newest first.
pub open spec fn grouped_below(cands: Seq<Candidate>, avail: Seq<(Seq<char>, Vec<usize>)>, bound: int) -> bool {
    forall|id: Seq<char>| #[trigger] has_key(avail, id) ==> newest_first(ids_of(cands), versions_in(cands), id, value_for(avail, id)@, bound)
}

/// Lists that hold every candidate under its ID, newest first, leave no
/// two candidates of one Mod whose versions compare equal.
proof fn lemma_grouped_distinct(cands: Seq<Candidate>, avail: Seq<(Seq<char>, Vec<usize>)>)
    requires
        available_ok(cands, avail),
        lists_complete(cands, avail, cands.len() as int),
        cands.len() <= usize::MAX,
    ensures
        !duplicate_versions(cands),
{
    if duplicate_versions(cands) {
        let (j, k) = choose|j: int, k: int|
            0 <= j < cands.len() && 0 <= k < cands.len() && j != k && (#[trigger] cands[j]).manifest.id@
                == (#[trigger] cands[k]).manifest.id@ && semver_order(
                cands[j].manifest.version@,
                cands[k].manifest.version@,
            ) != 1 && semver_order(cands[k].manifest.version@, cands[j].manifest.version@) != 1;
        let id = ids_of(cands)[j];
        assert(ids_of(cands)[k] == id);
        let list = value_for(avail, id)@;
        assert(has_key(avail, id) && list.contains(j as usize));
        assert(list.contains(k as usize));
        let t = choose|t: int| 0 <= t < list.len() && list[t] == j as usize;
        let u = choose|u: int| 0 <= u < list.len() && list[u] == k as usize;
        assert(newest_first(ids_of(cands), versions_in(cands), id, list, cands.len() as int));
        assert(versions_in(cands)[j] == cands[j].manifest.version@);
        assert(versions_in(cands)[k] == cands[k].manifest.version@);
        assert(j as usize != k as usize);
        if t < u {
            assert(semver_order(versions_in(cands)[list[t] as int], versions_in(cands)[list[u] as int]) == 1);
        } else {
            assert(semver_order(versions_in(cands)[list[u] as int], versions_in(cands)[list[t] as int]) == 1);
        }
        assert(false);
    }
}

/// Groups candidate indices by ID, newest first. Two versions of one Mod with
/// equal versions are refused: they would be two sources for one
/// package. The refusal names the first such Mod in ID order, at its newest
/// duplicated version.
fn group_by_id(cands: &Vec<Candidate>) -> (r: Result<IdMap<Vec<usize>>, String>)
    ensures
        r matches Ok(a) ==> available_ok(cands@, a.spec_entries()) && lists_complete(cands@, a.spec_entries(), cands@.len() as int),
        r is Err <==> duplicate_versions(cands@),
{
    let mut avail: IdMap<Vec<usize>> = IdMap::new();
    // For each Mod with two sources of one version, its newest such version.
    let mut clashes: IdMap<usize> = IdMap::new();
    let mut j: usize = 0;
    while j < cands.len()
        invariant
            j <= cands@.len(),
            grouped_below(cands@, avail.spec_entries(), j as int),
            clashes.spec_entries().len() > 0 ==> duplicate_versions(cands@),
            clashes.spec_entries().len() == 0 ==> lists_complete(cands@, avail.spec_entries(), j as int),
            forall|x: Seq<char>| #[trigger] has_key(clashes.spec_entries(), x) ==> value_for(clashes.spec_entries(), x) < cands@.len(),
        decreases cands.len() - j,
    {
        let id = &cands[j].manifest.id;
        let existing: Vec<usize> = match avail.get(id.as_str()) {
            Some(list) => copy_indices(list),
            None => Vec::new(),
        };
        let ghost existing_view = existing@;
        proof {
            if has_key(avail.spec_entries(), id@) {
                assert(existing_view == value_for(avail.spec_entries(), id@)@);
            }
        }
        match insert_by_order(cands, existing, j) {
            Ok(list) => {
                let ghost old_avail = avail.spec_entries();
                let ghost list_view = list@;
                avail.insert(id.clone(), list);
                proof {
                    if clashes.spec_entries().len() == 0 {
                        assert forall|i: int| 0 <= i < j + 1 implies has_key(avail.spec_entries(), #[trigger] ids_of(cands@)[i])
                            && value_for(avail.spec_entries(), ids_of(cands@)[i])@.contains(i as usize) by {
                            if i < j {
                                if ids_of(cands@)[i] == id@ {
                                    let t = choose|t: int| 0 <= t < existing_view.len() && existing_view[t] == i as usize;
                                    assert(list_view.contains(existing_view[t]));
                                }
                            } else {
                                assert(ids_of(cands@)[i] == id@);
                            }
                        }
                    }
                    assert forall|x: Seq<char>| #[trigger] has_key(avail.spec_entries(), x) implies newest_first(
                        ids_of(cands@), versions_in(cands@),
                        x,
                        value_for(avail.spec_entries(), x)@,
                        j + 1,
                    ) by {
                        if x != id@ {
                            assert(has_key(old_avail, x));
                            lemma_newest_first_bound(ids_of(cands@), versions_in(cands@), x, value_for(old_avail, x)@, j as int, j + 1);
                        }
                    }
                }
            },
            Err(()) => {
                let newer = match clashes.get(id.as_str()) {
                    Some(previous) => cands[j].manifest.version.compare(&cands[*previous].manifest.version) == 1,
                    None => true,
                };
                if newer {
                    clashes.insert(id.clone(), j);
                }
                proof {
                    assert forall|x: Seq<char>| #[trigger] has_key(avail.spec_entries(), x) implies newest_first(
                        ids_of(cands@), versions_in(cands@),
                        x,
                        value_for(avail.spec_entries(), x)@,
                        j + 1,
                    ) by {
                        lemma_newest_first_bound(ids_of(cands@), versions_in(cands@), x, value_for(avail.spec_entries(), x)@, j as int, j + 1);
                    }
                }
            },
        }
        j = j + 1;
    }
    if clashes.len() > 0 {
        let first = *clashes.value_at(0);
        clashes.sorted_fact();
        proof {
            lemma_value_at(clashes.spec_entries(), 0);
            assert(has_key(clashes.spec_entries(), clashes.spec_entries()[0].0));
        }
        return Err(duplicate_message(clashes.key_at(0).as_str(), &cands[first].manifest.version));
    }
    proof {
        lemma_grouped_distinct(cands@, avail.spec_entries());
    }
    Ok(avail)
}

// ---------------------------------------------------------------------------
// Ordering a selection
// ---------------------------------------------------------------------------

/// The dependency maps of the candidates.
pub open spec fn deps_in(cands: Seq<Candidate>) -> Seq<Seq<(Seq<char>, VersionReq)>> {
    cands.map_values(|c: Candidate| c.manifest.dependencies.spec_entries())
}

/// Each selected ID names a candidate with that ID.
pub open spec fn picks_ok(ids: Seq<Seq<char>>, sel: Seq<(Seq<char>, usize)>) -> bool {
    forall|x: Seq<char>| #[trigger] has_key(sel, x) ==> value_for(sel, x) < ids.len() && ids[value_for(sel, x) as int] == x
}

/// Every dependency of a selected candidate is selected.
pub open spec fn deps_selected(deps: Seq<Seq<(Seq<char>, VersionReq)>>, sel: Seq<(Seq<char>, usize)>) -> bool {
    forall|x: Seq<char>, d: Seq<char>|
        #[trigger] has_key(sel, x) && #[trigger] has_key(deps[value_for(sel, x) as int], d) ==> has_key(sel, d)
}

/// `ordered` lists selected candidates, each ID once, each after the
/// providers it depends on.
pub open spec fn ordered_ok(
    ids: Seq<Seq<char>>,
    deps: Seq<Seq<(Seq<char>, VersionReq)>>,
    sel: Seq<(Seq<char>, usize)>,
    ordered: Seq<usize>,
) -> bool {
    &&& forall|t: int| 0 <= t < ordered.len() ==> (#[trigger] ordered[t]) < ids.len() && has_key(sel, ids[ordered[t] as int])
        && value_for(sel, ids[ordered[t] as int]) == ordered[t]
    &&& forall|t: int, u: int| 0 <= t < u < ordered.len() ==> ids[(#[trigger] ordered[t]) as int] != ids[(#[trigger] ordered[u]) as int]
    &&& forall|t: int, d: Seq<char>|
        0 <= t < ordered.len() && #[trigger] has_key(deps[(#[trigger] ordered[t]) as int], d) ==> exists|u: int|
            0 <= u < t && ids[(#[trigger] ordered[u]) as int] == d
}

/// As `ordered_ok`, with `visited` holding exactly the IDs of `ordered`.
pub open spec fn order_ok(
    ids: Seq<Seq<char>>,
    deps: Seq<Seq<(Seq<char>, VersionReq)>>,
    sel: Seq<(Seq<char>, usize)>,
    visited: IdSet,
    ordered: Seq<usize>,
) -> bool {
    &&& ordered_ok(ids, deps, sel, ordered)
    &&& forall|x: Seq<char>| visited.has(x) <==> exists|t: int| 0 <= t < ordered.len() && ids[(#[trigger] ordered[t]) as int] == x
}

/// The selected IDs.
pub open spec fn selected_ids(sel: Seq<(Seq<char>, usize)>) -> Seq<Seq<char>> {
    sel.map_values(|e: (Seq<char>, usize)| e.0)
}

/// Each of `path` followed by " -> ".
pub open spec fn arrows(path: Seq<Seq<char>>) -> Seq<char>
    decreases path.len(),
{
    if path.len() == 0 {
        Seq::empty()
    } else {
        arrows(path.drop_last()) + path.last() + " -> "@
    }
}

/// The IDs of `stack` from `start` on (none when `start` is past its end).
pub open spec fn stack_from(stack: Seq<String>, start: int) -> Seq<Seq<char>> {
    if start <= stack.len() {
        string_views(stack).subrange(start, stack.len() as int)
    } else {
        Seq::empty()
    }
}

/// "dependency cycle: <stack[start]> -> ... -> <id>".
fn cycle_message(stack: &Vec<String>, start: usize, id: &str) -> (r: String)
    ensures
        r@ == "dependency cycle: "@ + arrows(stack_from(stack@, start as int)) + id@,
        r@ == cycle_text(stack_from(stack@, start as int), id@),
        unmet_message(r@),
{
    let mut out: Vec<char> = Vec::new();
    push_str(&mut out, "dependency cycle: ");
    let ghost prefix = out@;
    if start < stack.len() {
        let mut i: usize = start;
        assert(string_views(stack@).subrange(start as int, start as int) =~= Seq::<Seq<char>>::empty());
        while i < stack.len()
            invariant
                start <= i <= stack@.len(),
                prefix == "dependency cycle: "@,
                out@ == prefix + arrows(string_views(stack@).subrange(start as int, i as int)),
            decreases stack.len() - i,
        {
            let ghost part = string_views(stack@).subrange(start as int, i + 1);
            proof {
                assert(part.drop_last() =~= string_views(stack@).subrange(start as int, i as int));
                assert(part.last() == stack@[i as int]@);
            }
            push_str(&mut out, stack[i].as_str());
            push_str(&mut out, " -> ");
            proof {
                assert(out@ =~= prefix + arrows(part));
            }
            i = i + 1;
        }
    } else {
        proof {
            if start as int == stack@.len() {
                assert(string_views(stack@).subrange(start as int, stack@.len() as int) =~= Seq::<Seq<char>>::empty());
            }
            assert(arrows(stack_from(stack@, start as int)) =~= Seq::<char>::empty());
            assert(out@ =~= prefix + arrows(stack_from(stack@, start as int)));
        }
    }
    push_str(&mut out, id);
    let r = string_of(&out);
    proof {
        assert(r@ =~= cycle_text(stack_from(stack@, start as int), id@));
    }
    r
}

/// `rank` strictly decreases from each selected candidate to each of its
/// dependencies.
pub open spec fn ranked(deps: Seq<Seq<(Seq<char>, VersionReq)>>, sel: Seq<(Seq<char>, usize)>, rank: spec_fn(Seq<char>) -> nat) -> bool {
    forall|x: Seq<char>, d: Seq<char>|
        #[trigger] has_key(sel, x) && #[trigger] has_key(deps[value_for(sel, x) as int], d) ==> rank(d) < rank(x)
}

/// The dependencies of the selected candidates form no cycle.
pub open spec fn acyclic(deps: Seq<Seq<(Seq<char>, VersionReq)>>, sel: Seq<(Seq<char>, usize)>) -> bool {
    exists|rank: spec_fn(Seq<char>) -> nat| ranked(deps, sel, rank)
}

/// Ranks fall along the stack and below it to `id`.
pub open spec fn descending(rank: spec_fn(Seq<char>) -> nat, stack: Seq<String>, id: Seq<char>) -> bool {
    &&& forall|s: int, t: int| 0 <= s < t < stack.len() ==> rank(#[trigger] stack[t]@) < rank(#[trigger] stack[s]@)
    &&& forall|s: int| 0 <= s < stack.len() ==> rank(id) < rank(#[trigger] stack[s]@)
}

/// How many selected IDs are not on the stack.
pub open spec fn stack_measure(sel: Seq<(Seq<char>, usize)>, stack: Seq<String>) -> nat {
    count_missing(selected_ids(sel), |x: Seq<char>| crate::text::string_views(stack).contains(x))
}

/// The position of `id` on the stack.
fn stack_position(stack: &Vec<String>, id: &str) -> (r: Option<usize>)
    ensures
        r matches Some(i) ==> i < stack@.len() && stack@[i as int]@ == id@,
        r is None ==> !crate::text::string_views(stack@).contains(id@),
{
    let mut i: usize = 0;
    while i < stack.len()
        invariant
            i <= stack@.len(),
            forall|k: int| 0 <= k < i ==> stack@[k]@ != id@,
        decreases stack.len() - i,
    {
        if crate::text::same_text(stack[i].as_str(), id) {
            return Some(i);
        }
        i = i + 1;
    }
    proof {
        if crate::text::string_views(stack@).contains(id@) {
            let k = choose|k: int| 0 <= k < stack@.len() && crate::text::string_views(stack@)[k] == id@;
            assert(stack@[k]@ == id@);
        }
    }
    None
}

/// Depth-first visit: appends `id`'s providers and then `id` to `ordered`,
/// failing on a dependency cycle.
#[verifier::rlimit(100)]
fn visit(
    cands: &Vec<Candidate>,
    sel: &IdMap<usize>,
    id: &String,
    visited: &mut IdSet,
    stack: &mut Vec<String>,
    ordered: &mut Vec<usize>,
    Ghost(rank): Ghost<spec_fn(Seq<char>) -> nat>,
) -> (r: Result<(), String>)
    requires
        has_key(sel.spec_entries(), id@),
        picks_ok(ids_of(cands@), sel.spec_entries()),
        deps_selected(deps_in(cands@), sel.spec_entries()),
        order_ok(ids_of(cands@), deps_in(cands@), sel.spec_entries(), *old(visited), old(ordered)@),
        forall|s: int| 0 <= s < old(stack)@.len() ==> has_key(sel.spec_entries(), #[trigger] old(stack)@[s]@)
            && !old(visited).has(old(stack)@[s]@),
    ensures
        final(stack)@ == old(stack)@,
        ranked(deps_in(cands@), sel.spec_entries(), rank) && descending(rank, old(stack)@, id@) ==> r is Ok,
        r matches Err(m) ==> unmet_message(m@),
        r is Ok ==> {
            &&& order_ok(ids_of(cands@), deps_in(cands@), sel.spec_entries(), *final(visited), final(ordered)@)
            &&& final(visited).has(id@)
            &&& forall|x: Seq<char>| #[trigger] old(visited).has(x) ==> final(visited).has(x)
            &&& forall|x: Seq<char>| #[trigger] final(visited).has(x) ==> old(visited).has(x)
                || !crate::text::string_views(old(stack)@).contains(x)
        },
    decreases stack_measure(sel.spec_entries(), old(stack)@),
{
    let ghost ids = ids_of(cands@);
    let ghost deps = deps_in(cands@);
    let ghost entries = sel.spec_entries();
    if visited.contains(id.as_str()) {
        return Ok(());
    }
    if let Some(start) = stack_position(stack, id.as_str()) {
        proof {
            if descending(rank, stack@, id@) {
                assert(rank(id@) < rank(stack@[start as int]@));
            }
        }
        return Err(cycle_message(stack, start, id.as_str()));
    }
    let j: usize = *sel.get(id.as_str()).unwrap();
    let ghost stack0 = stack@;
    let ghost visited0 = *visited;
    stack.push(id.clone());
    proof {
        let before = |x: Seq<char>| crate::text::string_views(stack0).contains(x);
        let after = |x: Seq<char>| crate::text::string_views(stack@).contains(x);
        assert(crate::text::string_views(stack@) =~= crate::text::string_views(stack0).push(id@));
        assert forall|x: Seq<char>| #[trigger] before(x) implies after(x) by {
            let k = choose|k: int| 0 <= k < crate::text::string_views(stack0).len() && crate::text::string_views(stack0)[k] == x;
            assert(crate::text::string_views(stack@)[k] == x);
        }
        assert(after(id@)) by {
            assert(crate::text::string_views(stack@)[stack0.len() as int] == id@);
        }
        let w = choose|w: int| 0 <= w < entries.len() && #[trigger] entries[w].0 == id@;
        assert(selected_ids(entries)[w] == id@);
        lemma_count_missing(selected_ids(entries), before, after, id@);
        assert(stack_measure(entries, stack@) < stack_measure(entries, stack0));
    }
    let dependencies = &cands[j].manifest.dependencies;
    let mut k: usize = 0;
    while k < dependencies.len()
        invariant
            k <= dependencies.spec_entries().len(),
            dependencies.spec_entries() == deps[j as int],
            j < cands@.len(),
            ids == ids_of(cands@),
            deps == deps_in(cands@),
            entries == sel.spec_entries(),
            has_key(entries, id@),
            value_for(entries, id@) == j,
            picks_ok(ids, entries),
            deps_selected(deps, entries),
            stack@ == stack0.push(*id),
            stack0 == old(stack)@,
            visited0 == *old(visited),
            stack_measure(entries, stack@) < stack_measure(entries, stack0),
            !crate::text::string_views(stack0).contains(id@),
            !visited0.has(id@),
            forall|s: int| 0 <= s < stack0.len() ==> has_key(entries, #[trigger] stack0[s]@) && !visited0.has(stack0[s]@),
            order_ok(ids, deps, entries, *visited, ordered@),
            forall|x: Seq<char>| #[trigger] visited0.has(x) ==> visited.has(x),
            forall|x: Seq<char>| #[trigger] visited.has(x) ==> visited0.has(x) || !crate::text::string_views(stack@).contains(x),
            forall|m: int| 0 <= m < k ==> visited.has(#[trigger] dependencies.spec_entries()[m].0),
        decreases dependencies.spec_entries().len() - k,
    {
        let dependency = dependencies.key_at(k);
        proof {
            if ranked(deps, entries, rank) && descending(rank, stack0, id@) {
                assert(has_key(deps[value_for(entries, id@) as int], dependency@)) by {
                    assert(deps[j as int][k as int].0 == dependency@);
                }
                assert forall|s: int, t: int| 0 <= s < t < stack@.len() implies rank(#[trigger] stack@[t]@) < rank(#[trigger] stack@[s]@) by {
                    if t == stack0.len() {
                        assert(stack@[t] == *id);
                        assert(stack@[s] == stack0[s]);
                    } else {
                        assert(stack@[t] == stack0[t] && stack@[s] == stack0[s]);
                    }
                }
                assert forall|s: int| 0 <= s < stack@.len() implies rank(dependency@) < rank(#[trigger] stack@[s]@) by {
                    if s < stack0.len() {
                        assert(stack@[s] == stack0[s]);
                    }
                }
                assert(descending(rank, stack@, dependency@));
            }
        }
        proof {
            assert(has_key(deps[j as int], dependency@)) by {
                assert(deps[j as int][k as int].0 == dependency@);
            }
            assert(has_key(entries, dependency@));
            assert forall|s: int| 0 <= s < stack@.len() implies has_key(entries, #[trigger] stack@[s]@)
                && !visited.has(stack@[s]@) by {
                if s < stack0.len() {
                    assert(stack@[s] == stack0[s]);
                    if visited.has(stack@[s]@) {
                        assert(crate::text::string_views(stack@)[s] == stack@[s]@);
                    }
                } else {
                    assert(stack@[s] == *id);
                    if visited.has(id@) {
                        assert(crate::text::string_views(stack@)[s] == id@);
                    }
                }
            }
        }
        let ghost visited_before = *visited;
        let result = visit(cands, sel, dependency, visited, stack, ordered, Ghost(rank));
        if result.is_err() {
            stack.pop();
            proof {
                assert(stack@ =~= stack0);
            }
            return result;
        }
        k = k + 1;
    }
    stack.pop();
    proof {
        assert(stack@ =~= stack0);
    }
    let ghost ordered0 = ordered@;
    let ghost visited1 = *visited;
    proof {
        // `id` is still unvisited: only IDs off the stack were added.
        assert(!visited.has(id@)) by {
            if visited.has(id@) {
                assert(crate::text::string_views(stack0.push(*id))[stack0.len() as int] == id@);
            }
        }
    }
    visited.insert(id.clone());
    ordered.push(j);
    proof {
        let o = ordered@;
        assert(o == ordered0.push(j));
        assert forall|x: Seq<char>| visited.has(x) implies exists|t: int| 0 <= t < o.len() && ids[(#[trigger] o[t]) as int] == x by {
            if x == id@ {
                assert(ids[o[o.len() - 1] as int] == id@);
            } else {
                assert(visited1.has(x));
                let t = choose|t: int| 0 <= t < ordered0.len() && ids[(#[trigger] ordered0[t]) as int] == x;
                assert(o[t] == ordered0[t]);
            }
        }
        assert forall|x: Seq<char>| (exists|t: int| 0 <= t < o.len() && ids[(#[trigger] o[t]) as int] == x) implies visited.has(x) by {
            let t = choose|t: int| 0 <= t < o.len() && ids[(#[trigger] o[t]) as int] == x;
            if t < ordered0.len() {
                assert(o[t] == ordered0[t]);
            }
        }
        assert forall|t: int, u: int| 0 <= t < u < o.len() implies ids[(#[trigger] o[t]) as int] != ids[(#[trigger] o[u]) as int] by {
            if u == o.len() - 1 {
                assert(o[t] == ordered0[t]);
                if ids[o[t] as int] == id@ {
                    assert(visited1.has(id@));
                }
            } else {
                assert(o[t] == ordered0[t] && o[u] == ordered0[u]);
            }
        }
        assert forall|t: int, d: Seq<char>| 0 <= t < o.len() && #[trigger] has_key(deps[(#[trigger] o[t]) as int], d) implies exists|u: int|
            0 <= u < t && ids[(#[trigger] o[u]) as int] == d by {
            if t == o.len() - 1 {
                let m = choose|m: int| 0 <= m < deps[j as int].len() && #[trigger] deps[j as int][m].0 == d;
                assert(dependencies.spec_entries()[m].0 == d);
                assert(visited1.has(d));
                let u = choose|u: int| 0 <= u < ordered0.len() && ids[(#[trigger] ordered0[u]) as int] == d;
                assert(o[u] == ordered0[u]);
            } else {
                assert(o[t] == ordered0[t]);
                let u = choose|u: int| 0 <= u < t && ids[(#[trigger] ordered0[u]) as int] == d;
                assert(o[u] == ordered0[u]);
            }
        }
        assert forall|t: int| 0 <= t < o.len() implies (#[trigger] o[t]) < ids.len() && has_key(entries, ids[o[t] as int])
            && value_for(entries, ids[o[t] as int]) == o[t] by {
            if t < ordered0.len() {
                assert(o[t] == ordered0[t]);
            }
        }
        assert forall|x: Seq<char>| #[trigger] visited.has(x) implies visited0.has(x)
            || !crate::text::string_views(stack0).contains(x) by {
            if x != id@ && !visited0.has(x) {
                assert(visited1.has(x));
                if crate::text::string_views(stack0).contains(x) {
                    let w = choose|w: int| 0 <= w < stack0.len() && crate::text::string_views(stack0)[w] == x;
                    assert(crate::text::string_views(stack0.push(*id))[w] == x);
                }
            }
        }
    }
    Ok(())
}

/// Orders all selected candidates so that providers precede consumers,
/// visiting IDs in order; fails on a dependency cycle.
#[verifier::spinoff_prover]
#[verifier::rlimit(40)]
fn order_selected(cands: &Vec<Candidate>, sel: &IdMap<usize>) -> (r: Result<Vec<usize>, String>)
    requires
        picks_ok(ids_of(cands@), sel.spec_entries()),
        deps_selected(deps_in(cands@), sel.spec_entries()),
    ensures
        r matches Ok(ordered) ==> {
            &&& ordered_ok(ids_of(cands@), deps_in(cands@), sel.spec_entries(), ordered@)
            &&& forall|x: Seq<char>| #[trigger] has_key(sel.spec_entries(), x) ==> exists|t: int|
                0 <= t < ordered@.len() && ids_of(cands@)[(#[trigger] ordered@[t]) as int] == x
        },
        acyclic(deps_in(cands@), sel.spec_entries()) ==> r is Ok,
        r matches Err(m) ==> unmet_message(m@),
{
    let ghost ids = ids_of(cands@);
    let ghost deps = deps_in(cands@);
    let ghost entries = sel.spec_entries();
    let mut visited = IdSet::new();
    let mut stack: Vec<String> = Vec::new();
    let mut ordered: Vec<usize> = Vec::new();
    let ghost rank = choose|rank: spec_fn(Seq<char>) -> nat| ranked(deps, entries, rank);
    let mut k: usize = 0;
    proof {
        assert forall|x: Seq<char>| visited.has(x) <==> exists|t: int| 0 <= t < ordered@.len() && ids[(#[trigger] ordered@[t]) as int] == x by {
        }
    }
    while k < sel.len()
        invariant
            k <= entries.len(),
            ids == ids_of(cands@),
            deps == deps_in(cands@),
            entries == sel.spec_entries(),
            picks_ok(ids, entries),
            deps_selected(deps, entries),
            stack@.len() == 0,
            acyclic(deps, entries) ==> ranked(deps, entries, rank),
            order_ok(ids, deps, entries, visited, ordered@),
            forall|m: int| 0 <= m < k ==> visited.has(#[trigger] entries[m].0),
        decreases entries.len() - k,
    {
        let id = sel.key_at(k);
        proof {
            assert(has_key(entries, id@)) by {
                assert(entries[k as int].0 == id@);
            }
        }
        let ghost visited_before = visited;
        match visit(cands, sel, id, &mut visited, &mut stack, &mut ordered, Ghost(rank)) {
            Ok(()) => {},
            Err(message) => {
                proof {
                    assert(descending(rank, Seq::<String>::empty(), id@));
                }
                return Err(message);
            },
        }
        proof {
            assert forall|m: int| 0 <= m < k + 1 implies visited.has(#[trigger] entries[m].0) by {
                if m < k {
                    assert(visited_before.has(entries[m].0));
                }
            }
        }
        k = k + 1;
    }
    proof {
        assert forall|x: Seq<char>| #[trigger] has_key(entries, x) implies exists|t: int|
            0 <= t < ordered@.len() && ids[(#[trigger] ordered@[t]) as int] == x by {
            let m = choose|m: int| 0 <= m < entries.len() && #[trigger] entries[m].0 == x;
            assert(visited.has(entries[m].0));
        }
    }
    Ok(ordered)
}

// ---------------------------------------------------------------------------
// Choosing versions
// ---------------------------------------------------------------------------

/// A version requirement on `id`, and who placed it.
pub struct Constraint {
    pub id: String,
    pub from: String,
    pub version: VersionReq,
}

impl Duplicate for Constraint {
    fn duplicate(&self) -> (r: Constraint) {
        Constraint { id: self.id.clone(), from: self.from.clone(), version: self.version.duplicate() }
    }
}

/// Some constraint names `x`.
pub open spec fn constrained(cons: Seq<Constraint>, x: Seq<char>) -> bool {
    exists|t: int| 0 <= t < cons.len() && (#[trigger] cons[t]).id@ == x
}

/// Every selected ID, and every dependency of a selected candidate at its
/// required version, is among the constraints.
pub open spec fn covered(deps: Seq<Seq<(Seq<char>, VersionReq)>>, sel: Seq<(Seq<char>, usize)>, cons: Seq<Constraint>) -> bool {
    &&& forall|x: Seq<char>| #[trigger] has_key(sel, x) ==> constrained(cons, x)
    &&& forall|x: Seq<char>, d: Seq<char>|
        #[trigger] has_key(sel, x) && #[trigger] has_key(deps[value_for(sel, x) as int], d) ==> exists|t: int|
            0 <= t < cons.len() && (#[trigger] cons[t]).id@ == d && cons[t].version@ == value_for(deps[value_for(sel, x) as int], d)@
}

/// Constraint `t` holds: its ID is selected at a matching version that
/// configuration allows.
pub open spec fn constraint_holds(
    vers: Seq<Seq<char>>,
    sels: Seq<(Seq<char>, Selection)>,
    sel: Seq<(Seq<char>, usize)>,
    c: Constraint,
) -> bool {
    &&& has_key(sel, c.id@)
    &&& semver_matches(c.version@, vers[value_for(sel, c.id@) as int])
    &&& !disabled(sels, c.id@)
    &&& selection_allows(sels, c.id@, vers[value_for(sel, c.id@) as int])
}

/// Every constraint holds.
pub open spec fn satisfied(
    vers: Seq<Seq<char>>,
    sels: Seq<(Seq<char>, Selection)>,
    sel: Seq<(Seq<char>, usize)>,
    cons: Seq<Constraint>,
) -> bool {
    forall|t: int| 0 <= t < cons.len() ==> constraint_holds(vers, sels, sel, #[trigger] cons[t])
}

/// Every dependency of a selected candidate is selected at a matching version.
pub open spec fn closed_over(deps: Seq<Seq<(Seq<char>, VersionReq)>>, vers: Seq<Seq<char>>, sel: Seq<(Seq<char>, usize)>) -> bool {
    forall|x: Seq<char>, d: Seq<char>|
        #[trigger] has_key(sel, x) && #[trigger] has_key(deps[value_for(sel, x) as int], d) ==> has_key(sel, d)
            && semver_matches(value_for(deps[value_for(sel, x) as int], d)@, vers[value_for(sel, d) as int])
}

/// No selected ID is disabled, and each selected version is allowed.
pub open spec fn respected(vers: Seq<Seq<char>>, sels: Seq<(Seq<char>, Selection)>, sel: Seq<(Seq<char>, usize)>) -> bool {
    forall|x: Seq<char>| #[trigger] has_key(sel, x) ==> !disabled(sels, x) && selection_allows(sels, x, vers[value_for(sel, x) as int])
}

/// `b` keeps every choice of `a`.
pub open spec fn extends(a: Seq<(Seq<char>, usize)>, b: Seq<(Seq<char>, usize)>) -> bool {
    forall|x: Seq<char>| #[trigger] has_key(a, x) ==> has_key(b, x) && value_for(b, x) == value_for(a, x)
}

/// Some selected candidate depends on `x`.
pub open spec fn wanted(deps: Seq<Seq<(Seq<char>, VersionReq)>>, sel: Seq<(Seq<char>, usize)>, x: Seq<char>) -> bool {
    exists|y: Seq<char>| #[trigger] has_key(sel, y) && has_key(deps[value_for(sel, y) as int], x)
}

/// Every constraint from `base` on names a dependency of a selected candidate.
pub open spec fn traced(deps: Seq<Seq<(Seq<char>, VersionReq)>>, sel: Seq<(Seq<char>, usize)>, cons: Seq<Constraint>, base: int) -> bool {
    forall|t: int| base <= t < cons.len() ==> wanted(deps, sel, (#[trigger] cons[t]).id@)
}

/// One of the first `base` constraints names `x`.
pub open spec fn from_roots(cons: Seq<Constraint>, base: int, x: Seq<char>) -> bool {
    exists|t: int| 0 <= t < base && (#[trigger] cons[t]).id@ == x
}

/// How many candidates have an ID that is not yet selected.
pub open spec fn choice_measure(ids: Seq<Seq<char>>, sel: Seq<(Seq<char>, usize)>) -> nat {
    count_missing(ids, |x: Seq<char>| has_key(sel, x))
}

fn copy_constraints(v: &Vec<Constraint>) -> (r: Vec<Constraint>)
    ensures
        r@ == v@,
{
    let mut r: Vec<Constraint> = Vec::new();
    let mut i: usize = 0;
    while i < v.len()
        invariant
            i <= v@.len(),
            r@ == v@.subrange(0, i as int),
        decreases v.len() - i,
    {
        r.push(v[i].duplicate());
        i = i + 1;
    }
    assert(r@ =~= v@);
    r
}

/// The IDs that the constraints name.
fn constraint_keys(cons: &Vec<Constraint>) -> (r: IdSet)
    ensures
        forall|x: Seq<char>| r.has(x) <==> constrained(cons@, x),
{
    let mut keys = IdSet::new();
    let mut t: usize = 0;
    while t < cons.len()
        invariant
            t <= cons@.len(),
            forall|x: Seq<char>| keys.has(x) <==> constrained(cons@.subrange(0, t as int), x),
        decreases cons.len() - t,
    {
        let ghost before = keys;
        keys.insert(cons[t].id.clone());
        proof {
            let prefix = cons@.subrange(0, t + 1);
            assert forall|x: Seq<char>| keys.has(x) <==> constrained(prefix, x) by {
                if keys.has(x) {
                    if x == cons@[t as int].id@ {
                        assert(prefix[t as int] == cons@[t as int]);
                    } else {
                        assert(before.has(x));
                        let w = choose|w: int| 0 <= w < t && (#[trigger] cons@.subrange(0, t as int)[w]).id@ == x;
                        assert(prefix[w] == cons@.subrange(0, t as int)[w]);
                    }
                }
                if constrained(prefix, x) {
                    let w = choose|w: int| 0 <= w < prefix.len() && (#[trigger] prefix[w]).id@ == x;
                    if w < t {
                        assert(cons@.subrange(0, t as int)[w] == prefix[w]);
                    }
                }
            }
        }
        t = t + 1;
    }
    assert(cons@.subrange(0, cons@.len() as int) =~= cons@);
    keys
}

/// How one constraint is listed in a message: who requires it, and with
/// `with_versions` the requirement's canonical text.
pub open spec fn constraint_item(c: Constraint, with_versions: bool) -> Seq<char> {
    if with_versions {
        c.from@ + " requires "@ + c.version.shown()
    } else {
        c.from@
    }
}

/// The items of the constraints on `id`, in order.
pub open spec fn constraint_items(cons: Seq<Constraint>, id: Seq<char>, with_versions: bool) -> Seq<Seq<char>>
    decreases cons.len(),
{
    if cons.len() == 0 {
        Seq::empty()
    } else {
        let rest = constraint_items(cons.drop_last(), id, with_versions);
        if cons.last().id@ == id {
            rest.push(constraint_item(cons.last(), with_versions))
        } else {
            rest
        }
    }
}

/// The constraints on `id`, joined by ", ".
fn constraint_list(cons: &Vec<Constraint>, id: &str, with_versions: bool) -> (r: String)
    ensures
        r@ == joined(constraint_items(cons@, id@, with_versions), ", "@),
{
    let mut out: Vec<char> = Vec::new();
    let mut first = true;
    let mut t: usize = 0;
    while t < cons.len()
        invariant
            t <= cons@.len(),
            out@ == joined(constraint_items(cons@.take(t as int), id@, with_versions), ", "@),
            first == (constraint_items(cons@.take(t as int), id@, with_versions).len() == 0),
        decreases cons.len() - t,
    {
        let ghost before = constraint_items(cons@.take(t as int), id@, with_versions);
        proof {
            assert(cons@.take(t + 1).drop_last() =~= cons@.take(t as int));
            assert(cons@.take(t + 1).last() == cons@[t as int]);
        }
        if crate::text::same_text(cons[t].id.as_str(), id) {
            if !first {
                push_str(&mut out, ", ");
            }
            push_str(&mut out, cons[t].from.as_str());
            if with_versions {
                push_str(&mut out, " requires ");
                let shown = cons[t].version.to_text();
                push_str(&mut out, shown.as_str());
            }
            proof {
                let after = before.push(constraint_item(cons@[t as int], with_versions));
                assert(after.drop_last() =~= before);
                if before.len() == 0 {
                    assert(joined(after, ", "@) == after[0]);
                }
                assert(out@ =~= joined(after, ", "@));
            }
            first = false;
        }
        t = t + 1;
    }
    proof {
        assert(cons@.take(cons@.len() as int) =~= cons@);
    }
    string_of(&out)
}

/// The text that reports no compatible version of `id` under `cons`.
pub open spec fn conflict_text(id: Seq<char>, cons: Seq<Constraint>) -> Seq<char> {
    id + ": no compatible version ("@ + joined(constraint_items(cons, id, true), ", "@) + ")"@
}

/// The text that reports the explicitly disabled `id` and who requires it.
pub open spec fn disabled_text(id: Seq<char>, cons: Seq<Constraint>) -> Seq<char> {
    id + ": explicitly disabled, required by "@ + joined(constraint_items(cons, id, false), ", "@)
}

/// The text that reports a dependency cycle along `path` back to `id`.
pub open spec fn cycle_text(path: Seq<Seq<char>>, id: Seq<char>) -> Seq<char> {
    "dependency cycle: "@ + arrows(path) + id
}

/// `m` reports a plan that cannot be met: an ID with no compatible version,
/// an explicitly disabled ID that is required, or a dependency cycle.
pub open spec fn unmet_message(m: Seq<char>) -> bool {
    ||| exists|id: Seq<char>, cons: Seq<Constraint>| m == #[trigger] conflict_text(id, cons)
    ||| exists|id: Seq<char>, cons: Seq<Constraint>| m == #[trigger] disabled_text(id, cons)
    ||| exists|path: Seq<Seq<char>>, id: Seq<char>| m == #[trigger] cycle_text(path, id)
}

/// "<id>: no compatible version (<from> requires <version>, ...)".
fn conflict_message(cons: &Vec<Constraint>, id: &str) -> (r: String)
    ensures
        r@ == id@ + ": no compatible version ("@ + joined(constraint_items(cons@, id@, true), ", "@) + ")"@,
        r@ == conflict_text(id@, cons@),
        unmet_message(r@),
{
    let listed = constraint_list(cons, id, true);
    let mut out: Vec<char> = Vec::new();
    push_str(&mut out, id);
    push_str(&mut out, ": no compatible version (");
    push_str(&mut out, listed.as_str());
    push_str(&mut out, ")");
    string_of(&out)
}

/// "<id>: explicitly disabled, required by <from>, ...".
fn disabled_message(cons: &Vec<Constraint>, id: &str) -> (r: String)
    ensures
        r@ == id@ + ": explicitly disabled, required by "@ + joined(constraint_items(cons@, id@, false), ", "@),
        r@ == disabled_text(id@, cons@),
        unmet_message(r@),
{
    let listed = constraint_list(cons, id, false);
    let mut out: Vec<char> = Vec::new();
    push_str(&mut out, id);
    push_str(&mut out, ": explicitly disabled, required by ");
    push_str(&mut out, listed.as_str());
    string_of(&out)
}

/// Whether configuration explicitly disables `id`.
fn is_disabled(sels: &IdMap<Selection>, id: &str) -> (r: bool)
    ensures
        r == disabled(sels.spec_entries(), id@),
{
    match sels.get(id) {
        Some(selection) => selection.enabled == Some(false),
        None => false,
    }
}

/// Whether configuration allows `version` for `id`.
fn allowed_by_selection(sels: &IdMap<Selection>, id: &str, version: &Version) -> (r: bool)
    ensures
        r == selection_allows(sels.spec_entries(), id@, version@),
        has_key(sels.spec_entries(), id@) && value_for(sels.spec_entries(), id@).version is Some ==> r == semver_matches(
            value_for(sels.spec_entries(), id@).version.unwrap()@,
            version@,
        ),
        !(has_key(sels.spec_entries(), id@) && value_for(sels.spec_entries(), id@).version is Some) ==> r,
{
    match sels.get(id) {
        Some(selection) => match &selection.version {
            Some(requirement) => requirement.matches(version),
            None => true,
        },
        None => true,
    }
}

/// Whether candidate `j` meets every constraint on `id` and configuration.
fn candidate_fits(cands: &Vec<Candidate>, sels: &IdMap<Selection>, cons: &Vec<Constraint>, id: &str, j: usize) -> (r: bool)
    requires
        j < cands@.len(),
    ensures
        r == ((forall|t: int| 0 <= t < cons@.len() && (#[trigger] cons@[t]).id@ == id@ ==> semver_matches(
            cons@[t].version@,
            cands@[j as int].manifest.version@,
        )) && selection_allows(sels.spec_entries(), id@, cands@[j as int].manifest.version@)),
{
    let mut t: usize = 0;
    while t < cons.len()
        invariant
            t <= cons@.len(),
            j < cands@.len(),
            forall|u: int| 0 <= u < t && (#[trigger] cons@[u]).id@ == id@ ==> semver_matches(
                cons@[u].version@,
                cands@[j as int].manifest.version@,
            ),
        decreases cons.len() - t,
    {
        if crate::text::same_text(cons[t].id.as_str(), id) && !cons[t].version.matches(&cands[j].manifest.version) {
            return false;
        }
        t = t + 1;
    }
    allowed_by_selection(sels, id, &cands[j].manifest.version)
}

/// Constraint `c` is not disabled and, if its ID is selected, holds.
pub open spec fn constraint_ok(
    vers: Seq<Seq<char>>,
    sels: Seq<(Seq<char>, Selection)>,
    sel: Seq<(Seq<char>, usize)>,
    c: Constraint,
) -> bool {
    !disabled(sels, c.id@) && (has_key(sel, c.id@) ==> constraint_holds(vers, sels, sel, c))
}

/// Checks every constraint on `key` against the current choice.
fn check_key(
    cands: &Vec<Candidate>,
    sels: &IdMap<Selection>,
    sel: &IdMap<usize>,
    cons: &Vec<Constraint>,
    key: &str,
) -> (r: Result<(), String>)
    requires
        picks_ok(ids_of(cands@), sel.spec_entries()),
        constrained(cons@, key@),
    ensures
        r is Ok <==> forall|t: int| 0 <= t < cons@.len() && (#[trigger] cons@[t]).id@ == key@ ==> constraint_ok(
            versions_in(cands@),
            sels.spec_entries(),
            sel.spec_entries(),
            cons@[t],
        ),
        r matches Err(m) ==> unmet_message(m@),
{
    let ghost t0 = choose|t: int| 0 <= t < cons@.len() && (#[trigger] cons@[t]).id@ == key@;
    if is_disabled(sels, key) {
        proof {
            assert(!constraint_ok(versions_in(cands@), sels.spec_entries(), sel.spec_entries(), cons@[t0]));
        }
        return Err(disabled_message(cons, key));
    }
    match sel.get(key) {
        Some(j) => {
            let j = *j;
            if !candidate_fits(cands, sels, cons, key, j) {
                proof {
                    if !selection_allows(sels.spec_entries(), key@, cands@[j as int].manifest.version@) {
                        assert(!constraint_ok(versions_in(cands@), sels.spec_entries(), sel.spec_entries(), cons@[t0]));
                    } else {
                        let t = choose|t: int| 0 <= t < cons@.len() && (#[trigger] cons@[t]).id@ == key@ && !semver_matches(
                            cons@[t].version@,
                            cands@[j as int].manifest.version@,
                        );
                        assert(!constraint_ok(versions_in(cands@), sels.spec_entries(), sel.spec_entries(), cons@[t]));
                    }
                }
                return Err(conflict_message(cons, key));
            }
        },
        None => {},
    }
    Ok(())
}

/// `r` is `cons` followed by one constraint from `from` for each dependency
/// of candidate `j`, in ID order.
fn extend_constraints(cands: &Vec<Candidate>, cons: &Vec<Constraint>, j: usize) -> (r: Vec<Constraint>)
    requires
        j < cands@.len(),
    ensures
        r@.len() == cons@.len() + deps_in(cands@)[j as int].len(),
        r@.subrange(0, cons@.len() as int) == cons@,
        forall|m: int| 0 <= m < deps_in(cands@)[j as int].len() ==> (#[trigger] r@[cons@.len() + m]).id@ == deps_in(cands@)[j as int][m].0
            && r@[cons@.len() + m].version == deps_in(cands@)[j as int][m].1,
{
    let manifest = &cands[j].manifest;
    let mut from: Vec<char> = Vec::new();
    push_str(&mut from, manifest.id.as_str());
    push_str(&mut from, " ");
    push_str(&mut from, manifest.version.as_str());
    let from = string_of(&from);
    let mut out = copy_constraints(cons);
    let deps = &manifest.dependencies;
    let mut m: usize = 0;
    while m < deps.len()
        invariant
            m <= deps.spec_entries().len(),
            deps.spec_entries() == deps_in(cands@)[j as int],
            out@.len() == cons@.len() + m,
            out@.subrange(0, cons@.len() as int) == cons@,
            forall|k: int| 0 <= k < m ==> (#[trigger] out@[cons@.len() + k]).id@ == deps.spec_entries()[k].0
                && out@[cons@.len() + k].version == deps.spec_entries()[k].1,
        decreases deps.spec_entries().len() - m,
    {
        let ghost before = out@;
        out.push(Constraint { id: deps.key_at(m).clone(), from: from.clone(), version: deps.value_at(m).duplicate() });
        proof {
            assert(out@.subrange(0, cons@.len() as int) =~= before.subrange(0, cons@.len() as int));
            assert forall|k: int| 0 <= k < m + 1 implies (#[trigger] out@[cons@.len() + k]).id@ == deps.spec_entries()[k].0
                && out@[cons@.len() + k].version == deps.spec_entries()[k].1 by {
                if k < m {
                    assert(out@[cons@.len() + k] == before[cons@.len() + k]);
                }
            }
        }
        m = m + 1;
    }
    out
}


/// Once every constraint holds, the choice is closed under dependencies and
/// respects configuration.
proof fn lemma_complete(
    vers: Seq<Seq<char>>,
    deps: Seq<Seq<(Seq<char>, VersionReq)>>,
    sels: Seq<(Seq<char>, Selection)>,
    sel: Seq<(Seq<char>, usize)>,
    cons: Seq<Constraint>,
)
    requires
        covered(deps, sel, cons),
        satisfied(vers, sels, sel, cons),
    ensures
        closed_over(deps, vers, sel),
        respected(vers, sels, sel),
        deps_selected(deps, sel),
{
    assert forall|x: Seq<char>, d: Seq<char>|
        #[trigger] has_key(sel, x) && #[trigger] has_key(deps[value_for(sel, x) as int], d) implies has_key(sel, d)
            && semver_matches(value_for(deps[value_for(sel, x) as int], d)@, vers[value_for(sel, d) as int]) by {
        let t = choose|t: int|
            0 <= t < cons.len() && (#[trigger] cons[t]).id@ == d && cons[t].version@ == value_for(deps[value_for(sel, x) as int], d)@;
        assert(constraint_holds(vers, sels, sel, cons[t]));
    }
    assert forall|x: Seq<char>| #[trigger] has_key(sel, x) implies !disabled(sels, x) && selection_allows(sels, x, vers[value_for(sel, x) as int]) by {
        assert(constrained(cons, x));
        let t = choose|t: int| 0 <= t < cons.len() && (#[trigger] cons[t]).id@ == x;
        assert(constraint_holds(vers, sels, sel, cons[t]));
    }
}

/// Choosing candidate `j` for the unselected `id` keeps the choice well
/// formed, covered by the extended constraints, and strictly closer to done.
proof fn lemma_step(
    ids: Seq<Seq<char>>,
    deps: Seq<Seq<(Seq<char>, VersionReq)>>,
    sel: Seq<(Seq<char>, usize)>,
    next: Seq<(Seq<char>, usize)>,
    cons: Seq<Constraint>,
    cons2: Seq<Constraint>,
    id: Seq<char>,
    j: usize,
)
    requires
        picks_ok(ids, sel),
        covered(deps, sel, cons),
        constrained(cons, id),
        !has_key(sel, id),
        j < ids.len(),
        ids[j as int] == id,
        j < deps.len(),
        keys_sorted(deps[j as int]),
        has_key(next, id),
        value_for(next, id) == j,
        forall|k: Seq<char>| k != id ==> has_key(next, k) == has_key(sel, k),
        forall|k: Seq<char>| k != id && has_key(sel, k) ==> value_for(next, k) == value_for(sel, k),
        cons2.len() == cons.len() + deps[j as int].len(),
        cons2.subrange(0, cons.len() as int) == cons,
        forall|m: int| 0 <= m < deps[j as int].len() ==> (#[trigger] cons2[cons.len() + m]).id@ == deps[j as int][m].0
            && cons2[cons.len() + m].version == deps[j as int][m].1,
    ensures
        picks_ok(ids, next),
        covered(deps, next, cons2),
        extends(sel, next),
        choice_measure(ids, next) < choice_measure(ids, sel),
{
    assert forall|t: int| 0 <= t < cons.len() implies cons2[t] == cons[t] by {
        assert(cons2.subrange(0, cons.len() as int)[t] == cons2[t]);
    }
    assert forall|x: Seq<char>| #[trigger] has_key(next, x) implies constrained(cons2, x) by {
        let t = if x == id {
            choose|t: int| 0 <= t < cons.len() && (#[trigger] cons[t]).id@ == x
        } else {
            choose|t: int| 0 <= t < cons.len() && (#[trigger] cons[t]).id@ == x
        };
        assert(constrained(cons, x));
        assert(cons2[t] == cons[t]);
    }
    assert forall|x: Seq<char>, d: Seq<char>|
        #[trigger] has_key(next, x) && #[trigger] has_key(deps[value_for(next, x) as int], d) implies exists|t: int|
            0 <= t < cons2.len() && (#[trigger] cons2[t]).id@ == d && cons2[t].version@ == value_for(deps[value_for(next, x) as int], d)@ by {
        if x == id {
            let dj = deps[j as int];
            let m = choose|m: int| 0 <= m < dj.len() && #[trigger] dj[m].0 == d;
            crate::keyed::lemma_value_at(dj, m);
            assert(cons2[cons.len() + m].id@ == d);
        } else {
            assert(has_key(sel, x));
            let t = choose|t: int|
                0 <= t < cons.len() && (#[trigger] cons[t]).id@ == d && cons[t].version@ == value_for(deps[value_for(sel, x) as int], d)@;
            assert(cons2[t] == cons[t]);
        }
    }
    let before = |x: Seq<char>| has_key(sel, x);
    let after = |x: Seq<char>| has_key(next, x);
    assert forall|s: Seq<char>| #[trigger] before(s) implies after(s) by {
        if s != id {
            assert(has_key(sel, s));
        }
    }
    assert(ids.contains(id));
    lemma_count_missing(ids, before, after, id);
}

/// `a` is a complete choice that extends `sel` and meets `cons`: every
/// dependency of a chosen candidate is chosen at a matching version,
/// configuration is respected, and dependencies form no cycle.
pub open spec fn solves(
    ids: Seq<Seq<char>>,
    vers: Seq<Seq<char>>,
    deps: Seq<Seq<(Seq<char>, VersionReq)>>,
    sels: Seq<(Seq<char>, Selection)>,
    sel: Seq<(Seq<char>, usize)>,
    cons: Seq<Constraint>,
    a: Seq<(Seq<char>, usize)>,
) -> bool {
    &&& picks_ok(ids, a)
    &&& extends(sel, a)
    &&& satisfied(vers, sels, a, cons)
    &&& closed_over(deps, vers, a)
    &&& respected(vers, sels, a)
    &&& acyclic(deps, a)
}

/// Part of an acyclic choice is acyclic.
proof fn lemma_acyclic_part(deps: Seq<Seq<(Seq<char>, VersionReq)>>, sel: Seq<(Seq<char>, usize)>, a: Seq<(Seq<char>, usize)>)
    requires
        extends(sel, a),
        acyclic(deps, a),
    ensures
        acyclic(deps, sel),
{
    let rank = choose|rank: spec_fn(Seq<char>) -> nat| ranked(deps, a, rank);
    assert forall|x: Seq<char>, d: Seq<char>|
        #[trigger] has_key(sel, x) && #[trigger] has_key(deps[value_for(sel, x) as int], d) implies rank(d) < rank(x) by {
        assert(has_key(a, x) && value_for(a, x) == value_for(sel, x));
        assert(has_key(deps[value_for(a, x) as int], d));
    }
    assert(ranked(deps, sel, rank));
}

/// A providers-first order of the whole choice shows that it is acyclic.
proof fn lemma_ordered_acyclic(
    ids: Seq<Seq<char>>,
    deps: Seq<Seq<(Seq<char>, VersionReq)>>,
    sel: Seq<(Seq<char>, usize)>,
    ordered: Seq<usize>,
)
    requires
        ordered_ok(ids, deps, sel, ordered),
        forall|x: Seq<char>| #[trigger] has_key(sel, x) ==> exists|t: int|
            0 <= t < ordered.len() && ids[(#[trigger] ordered[t]) as int] == x,
    ensures
        acyclic(deps, sel),
{
    let rank = |x: Seq<char>| (choose|t: int| 0 <= t < ordered.len() && ids[(#[trigger] ordered[t]) as int] == x) as nat;
    assert forall|x: Seq<char>, d: Seq<char>|
        #[trigger] has_key(sel, x) && #[trigger] has_key(deps[value_for(sel, x) as int], d) implies rank(d) < rank(x) by {
        let t = choose|t: int| 0 <= t < ordered.len() && ids[(#[trigger] ordered[t]) as int] == x;
        assert(value_for(sel, ids[ordered[t] as int]) == ordered[t]);
        assert(has_key(deps[ordered[t] as int], d));
        let u = choose|u: int| 0 <= u < t && ids[(#[trigger] ordered[u]) as int] == d;
        let w = choose|w: int| 0 <= w < ordered.len() && ids[(#[trigger] ordered[w]) as int] == d;
        if w != u {
            if w < u {
                assert(ids[ordered[w] as int] != ids[ordered[u] as int]);
            } else {
                assert(ids[ordered[u] as int] != ids[ordered[w] as int]);
            }
        }
    }
    assert(ranked(deps, sel, rank));
}

/// A solution that chooses `j` for the unselected `id` also solves the next
/// step, which selects `j` and adds its dependencies' constraints.
proof fn lemma_solution_step(
    ids: Seq<Seq<char>>,
    vers: Seq<Seq<char>>,
    deps: Seq<Seq<(Seq<char>, VersionReq)>>,
    sels: Seq<(Seq<char>, Selection)>,
    sel: Seq<(Seq<char>, usize)>,
    next: Seq<(Seq<char>, usize)>,
    cons: Seq<Constraint>,
    cons2: Seq<Constraint>,
    id: Seq<char>,
    j: usize,
    a: Seq<(Seq<char>, usize)>,
)
    requires
        solves(ids, vers, deps, sels, sel, cons, a),
        has_key(a, id),
        value_for(a, id) == j,
        j < deps.len(),
        keys_sorted(deps[j as int]),
        has_key(next, id),
        value_for(next, id) == j,
        forall|k: Seq<char>| k != id ==> has_key(next, k) == has_key(sel, k),
        forall|k: Seq<char>| k != id && has_key(sel, k) ==> value_for(next, k) == value_for(sel, k),
        cons2.len() == cons.len() + deps[j as int].len(),
        cons2.subrange(0, cons.len() as int) == cons,
        forall|m: int| 0 <= m < deps[j as int].len() ==> (#[trigger] cons2[cons.len() + m]).id@ == deps[j as int][m].0
            && cons2[cons.len() + m].version == deps[j as int][m].1,
    ensures
        solves(ids, vers, deps, sels, next, cons2, a),
{
    assert forall|x: Seq<char>| #[trigger] has_key(next, x) implies has_key(a, x) && value_for(a, x) == value_for(next, x) by {
        if x != id {
            assert(has_key(sel, x));
        }
    }
    assert forall|t: int| 0 <= t < cons2.len() implies constraint_holds(vers, sels, a, #[trigger] cons2[t]) by {
        if t < cons.len() {
            assert(cons2.subrange(0, cons.len() as int)[t] == cons2[t]);
        } else {
            let m = t - cons.len();
            let dj = deps[j as int];
            assert(cons2[cons.len() + m].id@ == dj[m].0);
            lemma_value_at(dj, m);
            assert(has_key(deps[value_for(a, id) as int], dj[m].0));
        }
    }
}

/// Choosing `j` for `id` keeps every constraint traced back to a selected
/// candidate or to the first `base` ones.
proof fn lemma_traced_step(
    deps: Seq<Seq<(Seq<char>, VersionReq)>>,
    sel: Seq<(Seq<char>, usize)>,
    next: Seq<(Seq<char>, usize)>,
    cons: Seq<Constraint>,
    cons2: Seq<Constraint>,
    id: Seq<char>,
    j: usize,
    base: int,
)
    requires
        0 <= base <= cons.len(),
        traced(deps, sel, cons, base),
        extends(sel, next),
        has_key(next, id),
        value_for(next, id) == j,
        j < deps.len(),
        keys_sorted(deps[j as int]),
        cons2.len() == cons.len() + deps[j as int].len(),
        cons2.subrange(0, cons.len() as int) == cons,
        forall|m: int| 0 <= m < deps[j as int].len() ==> (#[trigger] cons2[cons.len() + m]).id@ == deps[j as int][m].0,
    ensures
        traced(deps, next, cons2, base),
        forall|x: Seq<char>| from_roots(cons2, base, x) ==> from_roots(cons, base, x),
{
    assert forall|t: int| 0 <= t < cons.len() implies cons2[t] == cons[t] by {
        assert(cons2.subrange(0, cons.len() as int)[t] == cons2[t]);
    }
    assert forall|t: int| base <= t < cons2.len() implies wanted(deps, next, (#[trigger] cons2[t]).id@) by {
        if t < cons.len() {
            assert(cons2[t] == cons[t]);
            assert(wanted(deps, sel, cons[t].id@));
            let y = choose|y: Seq<char>| #[trigger] has_key(sel, y) && has_key(deps[value_for(sel, y) as int], cons[t].id@);
            assert(has_key(next, y));
        } else {
            let m = t - cons.len();
            lemma_value_at(deps[j as int], m);
            assert(cons2[cons.len() + m].id@ == deps[j as int][m].0);
            assert(has_key(deps[value_for(next, id) as int], cons2[t].id@));
        }
    }
    assert forall|x: Seq<char>| from_roots(cons2, base, x) implies from_roots(cons, base, x) by {
        let t = choose|t: int| 0 <= t < base && (#[trigger] cons2[t]).id@ == x;
        assert(cons2[t] == cons[t]);
    }
}

/// `a` keeps `sel` and makes the first `m` choices of `trail`.
pub open spec fn agrees(ids: Seq<Seq<char>>, sel: Seq<(Seq<char>, usize)>, trail: Seq<usize>, m: int, a: Seq<(Seq<char>, usize)>) -> bool {
    &&& extends(sel, a)
    &&& forall|p: int| 0 <= p < m ==> has_key(a, ids[(#[trigger] trail[p]) as int]) && value_for(a, ids[trail[p] as int]) == trail[p]
}

/// `s` holds `sel` and the choices of `trail`, and nothing else.
pub open spec fn trail_covers(ids: Seq<Seq<char>>, sel: Seq<(Seq<char>, usize)>, trail: Seq<usize>, s: Seq<(Seq<char>, usize)>) -> bool {
    &&& forall|x: Seq<char>| #[trigger] has_key(s, x) ==> has_key(sel, x) || exists|p: int| 0 <= p < trail.len() && ids[(#[trigger] trail[p]) as int] == x
    &&& forall|p: int| 0 <= p < trail.len() ==> (#[trigger] trail[p]) < ids.len() && has_key(s, ids[trail[p] as int]) && value_for(s, ids[trail[p] as int]) == trail[p]
}

/// Candidate `j` is `c` or has a newer version.
pub open spec fn at_least_as_new(vers: Seq<Seq<char>>, j: usize, c: usize) -> bool {
    c == j || semver_order(vers[j as int], vers[c as int]) == 1
}

/// Each choice of `trail`, taken in order, is at least as new as what any
/// solution that agrees with the earlier choices picks for that ID.
pub open spec fn newest_trail(
    ids: Seq<Seq<char>>,
    vers: Seq<Seq<char>>,
    deps: Seq<Seq<(Seq<char>, VersionReq)>>,
    sels: Seq<(Seq<char>, Selection)>,
    sel: Seq<(Seq<char>, usize)>,
    cons: Seq<Constraint>,
    trail: Seq<usize>,
) -> bool {
    forall|m: int, a: Seq<(Seq<char>, usize)>|
        0 <= m < trail.len() && #[trigger] agrees(ids, sel, trail, m, a) && solves(ids, vers, deps, sels, sel, cons, a)
            ==> at_least_as_new(vers, trail[m], value_for(a, ids[trail[m] as int]))
}

/// `y` waits for a choice after the first `m` choices of `trail`: a
/// constraint or a dependency of an earlier choice names it, and it is
/// neither in `sel` nor chosen yet.
pub open spec fn awaiting(
    ids: Seq<Seq<char>>,
    deps: Seq<Seq<(Seq<char>, VersionReq)>>,
    sel: Seq<(Seq<char>, usize)>,
    cons: Seq<Constraint>,
    trail: Seq<usize>,
    m: int,
    y: Seq<char>,
) -> bool {
    &&& (constrained(cons, y) || exists|p: int| 0 <= p < m && has_key(deps[(#[trigger] trail[p]) as int], y))
    &&& !has_key(sel, y)
    &&& forall|p: int| 0 <= p < m ==> ids[(#[trigger] trail[p]) as int] != y
}

/// Each choice of `trail` takes the least ID awaiting a choice, and after
/// the last one nothing awaits.
pub open spec fn least_first(
    ids: Seq<Seq<char>>,
    deps: Seq<Seq<(Seq<char>, VersionReq)>>,
    sel: Seq<(Seq<char>, usize)>,
    cons: Seq<Constraint>,
    trail: Seq<usize>,
) -> bool {
    &&& forall|m: int| 0 <= m < trail.len() ==> awaiting(ids, deps, sel, cons, trail, m, ids[(#[trigger] trail[m]) as int])
    &&& forall|m: int, y: Seq<char>|
        0 <= m < trail.len() && #[trigger] awaiting(ids, deps, sel, cons, trail, m, y) ==> y == ids[trail[m] as int]
            || seq_less(ids[trail[m] as int], y)
    &&& forall|y: Seq<char>| !#[trigger] awaiting(ids, deps, sel, cons, trail, trail.len() as int, y)
}

/// Some trail leads from `sel` to `s`, taking the least awaiting ID at each
/// step and for it the newest version that the earlier choices allow.
pub open spec fn chosen_newest(
    ids: Seq<Seq<char>>,
    vers: Seq<Seq<char>>,
    deps: Seq<Seq<(Seq<char>, VersionReq)>>,
    sels: Seq<(Seq<char>, Selection)>,
    sel: Seq<(Seq<char>, usize)>,
    cons: Seq<Constraint>,
    s: Seq<(Seq<char>, usize)>,
) -> bool {
    exists|trail: Seq<usize>|
        trail_covers(ids, sel, trail, s) && newest_trail(ids, vers, deps, sels, sel, cons, trail) && least_first(
            ids,
            deps,
            sel,
            cons,
            trail,
        )
}

/// With nothing left to choose, the empty trail covers the choice.
proof fn lemma_empty_trail(
    ids: Seq<Seq<char>>,
    vers: Seq<Seq<char>>,
    deps: Seq<Seq<(Seq<char>, VersionReq)>>,
    sels: Seq<(Seq<char>, Selection)>,
    sel: Seq<(Seq<char>, usize)>,
    cons: Seq<Constraint>,
)
    requires
        forall|y: Seq<char>| constrained(cons, y) ==> has_key(sel, y),
    ensures
        chosen_newest(ids, vers, deps, sels, sel, cons, sel),
{
    let e = Seq::<usize>::empty();
    assert(trail_covers(ids, sel, e, sel));
    assert(newest_trail(ids, vers, deps, sels, sel, cons, e));
    assert(least_first(ids, deps, sel, cons, e));
}

/// After choosing `j` for `id`, what awaits after `m + 1` choices from `sel`
/// is what awaits after `m` choices of the rest from the extended choice.
proof fn lemma_awaiting_shift(
    ids: Seq<Seq<char>>,
    deps: Seq<Seq<(Seq<char>, VersionReq)>>,
    sel: Seq<(Seq<char>, usize)>,
    next: Seq<(Seq<char>, usize)>,
    cons: Seq<Constraint>,
    cons2: Seq<Constraint>,
    id: Seq<char>,
    j: usize,
    rest: Seq<usize>,
    m: int,
    y: Seq<char>,
)
    requires
        0 <= m <= rest.len(),
        ids[j as int] == id,
        j < deps.len(),
        has_key(next, id),
        forall|k: Seq<char>| k != id ==> has_key(next, k) == has_key(sel, k),
        cons2.len() == cons.len() + deps[j as int].len(),
        cons2.subrange(0, cons.len() as int) == cons,
        forall|q: int| 0 <= q < deps[j as int].len() ==> (#[trigger] cons2[cons.len() + q]).id@ == deps[j as int][q].0,
    ensures
        awaiting(ids, deps, sel, cons, seq![j].add(rest), m + 1, y) == awaiting(ids, deps, next, cons2, rest, m, y),
{
    let trail = seq![j].add(rest);
    assert(trail[0] == j);
    assert forall|p: int| 0 <= p < rest.len() implies trail[p + 1] == rest[p] by {}
    assert forall|t: int| 0 <= t < cons.len() implies cons2[t] == cons[t] by {
        assert(cons2.subrange(0, cons.len() as int)[t] == cons2[t]);
    }
    let c1 = constrained(cons, y) || exists|p: int| 0 <= p < m + 1 && has_key(deps[(#[trigger] trail[p]) as int], y);
    let c2 = constrained(cons2, y) || exists|p: int| 0 <= p < m && has_key(deps[(#[trigger] rest[p]) as int], y);
    if c1 {
        if constrained(cons, y) {
            let t = choose|t: int| 0 <= t < cons.len() && (#[trigger] cons[t]).id@ == y;
            assert(cons2[t].id@ == y);
        } else {
            let p = choose|p: int| 0 <= p < m + 1 && has_key(deps[(#[trigger] trail[p]) as int], y);
            if p == 0 {
                let q = choose|q: int| 0 <= q < deps[j as int].len() && #[trigger] deps[j as int][q].0 == y;
                assert(cons2[cons.len() + q].id@ == y);
            } else {
                assert(trail[p] == rest[p - 1]);
            }
        }
        assert(c2);
    }
    if c2 {
        if constrained(cons2, y) {
            let t = choose|t: int| 0 <= t < cons2.len() && (#[trigger] cons2[t]).id@ == y;
            if t < cons.len() {
                assert(cons[t].id@ == y);
            } else {
                let q = t - cons.len();
                assert(cons2[cons.len() + q].id@ == deps[j as int][q].0);
                assert(has_key(deps[trail[0] as int], y));
            }
        } else {
            let p = choose|p: int| 0 <= p < m && has_key(deps[(#[trigger] rest[p]) as int], y);
            assert(trail[p + 1] == rest[p]);
        }
        assert(c1);
    }
    let n1 = forall|p: int| 0 <= p < m + 1 ==> ids[(#[trigger] trail[p]) as int] != y;
    let n2 = forall|p: int| 0 <= p < m ==> ids[(#[trigger] rest[p]) as int] != y;
    if n1 {
        assert forall|p: int| 0 <= p < m implies ids[(#[trigger] rest[p]) as int] != y by {
            assert(trail[p + 1] == rest[p]);
        }
    }
    if n2 && y != id {
        assert forall|p: int| 0 <= p < m + 1 implies ids[(#[trigger] trail[p]) as int] != y by {
            if p > 0 {
                assert(trail[p] == rest[p - 1]);
            }
        }
    }
    if n1 {
        assert(ids[trail[0] as int] != y);
    }
}

/// Choosing the least awaiting `id` first, and then what the callee chose
/// in order, takes the least awaiting ID at every step.
proof fn lemma_order_step(
    ids: Seq<Seq<char>>,
    deps: Seq<Seq<(Seq<char>, VersionReq)>>,
    sel: Seq<(Seq<char>, usize)>,
    next: Seq<(Seq<char>, usize)>,
    cons: Seq<Constraint>,
    cons2: Seq<Constraint>,
    id: Seq<char>,
    j: usize,
    rest: Seq<usize>,
)
    requires
        ids[j as int] == id,
        j < deps.len(),
        constrained(cons, id),
        !has_key(sel, id),
        forall|y: Seq<char>| constrained(cons, y) && !has_key(sel, y) ==> y == id || seq_less(id, y),
        has_key(next, id),
        forall|k: Seq<char>| k != id ==> has_key(next, k) == has_key(sel, k),
        cons2.len() == cons.len() + deps[j as int].len(),
        cons2.subrange(0, cons.len() as int) == cons,
        forall|q: int| 0 <= q < deps[j as int].len() ==> (#[trigger] cons2[cons.len() + q]).id@ == deps[j as int][q].0,
        least_first(ids, deps, next, cons2, rest),
    ensures
        least_first(ids, deps, sel, cons, seq![j].add(rest)),
{
    let trail = seq![j].add(rest);
    assert(trail[0] == j);
    assert forall|m: int| 0 <= m < trail.len() implies awaiting(ids, deps, sel, cons, trail, m, ids[(#[trigger] trail[m]) as int]) by {
        if m > 0 {
            assert(trail[m] == rest[m - 1]);
            assert(awaiting(ids, deps, next, cons2, rest, m - 1, ids[rest[m - 1] as int]));
            lemma_awaiting_shift(ids, deps, sel, next, cons, cons2, id, j, rest, m - 1, ids[trail[m] as int]);
        }
    }
    assert forall|m: int, y: Seq<char>|
        0 <= m < trail.len() && #[trigger] awaiting(ids, deps, sel, cons, trail, m, y) implies y == ids[trail[m] as int]
            || seq_less(ids[trail[m] as int], y) by {
        if m > 0 {
            assert(trail[m] == rest[m - 1]);
            lemma_awaiting_shift(ids, deps, sel, next, cons, cons2, id, j, rest, m - 1, y);
            assert(awaiting(ids, deps, next, cons2, rest, m - 1, y));
        }
    }
    assert forall|y: Seq<char>| !#[trigger] awaiting(ids, deps, sel, cons, trail, trail.len() as int, y) by {
        lemma_awaiting_shift(ids, deps, sel, next, cons, cons2, id, j, rest, rest.len() as int, y);
        assert(!awaiting(ids, deps, next, cons2, rest, rest.len() as int, y));
    }
}

/// Choosing `j` for `id`, after every earlier entry of the newest-first
/// `list` proved impossible, and then the callee's trail, gives a trail
/// for this step.
proof fn lemma_trail_step(
    ids: Seq<Seq<char>>,
    vers: Seq<Seq<char>>,
    deps: Seq<Seq<(Seq<char>, VersionReq)>>,
    sels: Seq<(Seq<char>, Selection)>,
    sel: Seq<(Seq<char>, usize)>,
    next: Seq<(Seq<char>, usize)>,
    cons: Seq<Constraint>,
    cons2: Seq<Constraint>,
    id: Seq<char>,
    j: usize,
    list: Seq<usize>,
    i: int,
    rest: Seq<usize>,
    s: Seq<(Seq<char>, usize)>,
)
    requires
        0 <= i < list.len(),
        list[i] == j,
        newest_first(ids, vers, id, list, ids.len() as int),
        forall|c: usize| c < ids.len() && ids[c as int] == id ==> list.contains(c),
        forall|u: int, a2: Seq<(Seq<char>, usize)>|
            #![trigger solves(ids, vers, deps, sels, sel, cons, a2), list[u]]
            0 <= u < i && solves(ids, vers, deps, sels, sel, cons, a2) && has_key(a2, id) ==> value_for(a2, id) != list[u],
        constrained(cons, id),
        j < deps.len(),
        keys_sorted(deps[j as int]),
        has_key(next, id),
        value_for(next, id) == j,
        forall|k: Seq<char>| k != id ==> has_key(next, k) == has_key(sel, k),
        forall|k: Seq<char>| k != id && has_key(sel, k) ==> value_for(next, k) == value_for(sel, k),
        cons2.len() == cons.len() + deps[j as int].len(),
        cons2.subrange(0, cons.len() as int) == cons,
        forall|m: int| 0 <= m < deps[j as int].len() ==> (#[trigger] cons2[cons.len() + m]).id@ == deps[j as int][m].0
            && cons2[cons.len() + m].version == deps[j as int][m].1,
        extends(next, s),
        trail_covers(ids, next, rest, s),
        newest_trail(ids, vers, deps, sels, next, cons2, rest),
    ensures
        trail_covers(ids, sel, seq![j].add(rest), s),
        newest_trail(ids, vers, deps, sels, sel, cons, seq![j].add(rest)),
{
    let trail = seq![j].add(rest);
    assert(ids[j as int] == id) by {
        assert(list[i] == j);
    }
    assert forall|p: int| 0 <= p < trail.len() implies (#[trigger] trail[p]) < ids.len() && has_key(s, ids[trail[p] as int])
        && value_for(s, ids[trail[p] as int]) == trail[p] by {
        if p > 0 {
            assert(trail[p] == rest[p - 1]);
        }
    }
    assert forall|x: Seq<char>| #[trigger] has_key(s, x) implies has_key(sel, x) || exists|p: int|
        0 <= p < trail.len() && ids[(#[trigger] trail[p]) as int] == x by {
        if !has_key(next, x) {
            let p = choose|p: int| 0 <= p < rest.len() && ids[(#[trigger] rest[p]) as int] == x;
            assert(trail[p + 1] == rest[p]);
        } else if x == id {
            assert(trail[0] == j);
        }
    }
    assert forall|m: int, a: Seq<(Seq<char>, usize)>|
        0 <= m < trail.len() && #[trigger] agrees(ids, sel, trail, m, a) && solves(ids, vers, deps, sels, sel, cons, a)
            implies at_least_as_new(vers, trail[m], value_for(a, ids[trail[m] as int])) by {
        if m == 0 {
            let t = choose|t: int| 0 <= t < cons.len() && (#[trigger] cons[t]).id@ == id;
            assert(constraint_holds(vers, sels, a, cons[t]));
            let c = value_for(a, id);
            assert(c < ids.len() && ids[c as int] == id);
            assert(list.contains(c));
            let u = choose|u: int| 0 <= u < list.len() && list[u] == c;
            if u < i {
                assert(value_for(a, id) != list[u]);
            } else if u > i {
                assert(semver_order(vers[list[i] as int], vers[list[u] as int]) == 1);
            }
        } else {
            assert(trail[0] == j);
            assert(has_key(a, ids[trail[0] as int]) && value_for(a, ids[trail[0] as int]) == trail[0]);
            lemma_solution_step(ids, vers, deps, sels, sel, next, cons, cons2, id, j, a);
            assert forall|x: Seq<char>| #[trigger] has_key(next, x) implies has_key(a, x) && value_for(a, x) == value_for(next, x) by {
                if x != id {
                    assert(has_key(sel, x));
                }
            }
            assert forall|p: int| 0 <= p < m - 1 implies has_key(a, ids[(#[trigger] rest[p]) as int]) && value_for(a, ids[rest[p] as int]) == rest[p] by {
                assert(trail[p + 1] == rest[p]);
            }
            assert(agrees(ids, next, rest, m - 1, a));
            assert(trail[m] == rest[m - 1]);
        }
    }
}

/// Chooses a version for every constrained ID, newest compatible version
/// first, backtracking over earlier choices when a later constraint cannot
/// be met. Fails on an explicitly disabled ID, on a conflict, or when every
/// remaining choice leads to a dependency cycle.
#[verifier::spinoff_prover]
#[verifier::rlimit(100)]
fn choose_versions(
    cands: &Vec<Candidate>,
    avail: &IdMap<Vec<usize>>,
    sels: &IdMap<Selection>,
    sel: IdMap<usize>,
    cons: Vec<Constraint>,
    Ghost(base): Ghost<int>,
) -> (r: Result<IdMap<usize>, String>)
    requires
        available_ok(cands@, avail.spec_entries()),
        lists_complete(cands@, avail.spec_entries(), cands@.len() as int),
        picks_ok(ids_of(cands@), sel.spec_entries()),
        covered(deps_in(cands@), sel.spec_entries(), cons@),
        0 <= base <= cons@.len(),
        traced(deps_in(cands@), sel.spec_entries(), cons@, base),
    ensures
        r matches Ok(s) ==> forall|x: Seq<char>| #[trigger] has_key(s.spec_entries(), x) ==> from_roots(cons@, base, x)
            || wanted(deps_in(cands@), s.spec_entries(), x),
        r matches Ok(s) ==> chosen_newest(
            ids_of(cands@),
            versions_in(cands@),
            deps_in(cands@),
            sels.spec_entries(),
            sel.spec_entries(),
            cons@,
            s.spec_entries(),
        ),
        r matches Ok(s) ==> {
            &&& picks_ok(ids_of(cands@), s.spec_entries())
            &&& extends(sel.spec_entries(), s.spec_entries())
            &&& satisfied(versions_in(cands@), sels.spec_entries(), s.spec_entries(), cons@)
            &&& closed_over(deps_in(cands@), versions_in(cands@), s.spec_entries())
            &&& respected(versions_in(cands@), sels.spec_entries(), s.spec_entries())
            &&& acyclic(deps_in(cands@), s.spec_entries())
        },
        (exists|a: Seq<(Seq<char>, usize)>| solves(ids_of(cands@), versions_in(cands@), deps_in(cands@), sels.spec_entries(), sel.spec_entries(), cons@, a))
            ==> r is Ok,
        r matches Err(m) ==> unmet_message(m@),
    decreases choice_measure(ids_of(cands@), sel.spec_entries()),
{
    let ghost ids = ids_of(cands@);
    let ghost vers = versions_in(cands@);
    let ghost deps = deps_in(cands@);
    let ghost entries = sel.spec_entries();
    let ghost a = choose|a: Seq<(Seq<char>, usize)>| solves(ids, vers, deps, sels.spec_entries(), entries, cons@, a);
    let ghost solvable = solves(ids, vers, deps, sels.spec_entries(), entries, cons@, a);
    let keys = constraint_keys(&cons);
    let ghost kents = keys.map.spec_entries();
    let mut k: usize = 0;
    while k < keys.len()
        invariant
            k <= kents.len(),
            kents == keys.map.spec_entries(),
            forall|x: Seq<char>| keys.has(x) <==> constrained(cons@, x),
            entries == sel.spec_entries(),
            picks_ok(ids_of(cands@), entries),
            ids == ids_of(cands@),
            vers == versions_in(cands@),
            deps == deps_in(cands@),
            solvable == solves(ids, vers, deps, sels.spec_entries(), entries, cons@, a),
            forall|t: int| 0 <= t < cons@.len() && (exists|m: int| 0 <= m < k && #[trigger] kents[m].0 == (#[trigger] cons@[t]).id@)
                ==> constraint_ok(vers, sels.spec_entries(), entries, cons@[t]),
        decreases kents.len() - k,
    {
        let key = keys.id_at(k);
        proof {
            assert(keys.has(key@)) by {
                assert(kents[k as int].0 == key@);
            }
        }
        let checked = check_key(cands, sels, &sel, &cons, key.as_str());
        if checked.is_err() {
            proof {
                if solvable {
                    assert forall|t: int| 0 <= t < cons@.len() && (#[trigger] cons@[t]).id@ == key@ implies constraint_ok(
                        vers, sels.spec_entries(), entries, cons@[t]) by {
                        assert(constraint_holds(vers, sels.spec_entries(), a, cons@[t]));
                        if has_key(entries, key@) {
                            assert(has_key(a, key@) && value_for(a, key@) == value_for(entries, key@));
                        }
                    }
                }
            }
            return match checked {
                Err(message) => Err(message),
                Ok(()) => Ok(sel),
            };
        }
        proof {
            assert forall|t: int| 0 <= t < cons@.len() && (exists|m: int| 0 <= m < k + 1 && #[trigger] kents[m].0 == (#[trigger] cons@[t]).id@)
                implies constraint_ok(vers, sels.spec_entries(), entries, cons@[t]) by {
                let m = choose|m: int| 0 <= m < k + 1 && #[trigger] kents[m].0 == cons@[t].id@;
                if m == k {
                    assert(cons@[t].id@ == key@);
                }
            }
        }
        k = k + 1;
    }
    let mut k: usize = 0;
    while k < keys.len() && sel.contains(keys.id_at(k).as_str())
        invariant
            k <= kents.len(),
            kents == keys.map.spec_entries(),
            entries == sel.spec_entries(),
            forall|m: int| 0 <= m < k ==> has_key(entries, #[trigger] kents[m].0),
        decreases kents.len() - k,
    {
        k = k + 1;
    }
    proof {
        assert forall|t: int| 0 <= t < cons@.len() implies exists|m: int| 0 <= m < kents.len() && #[trigger] kents[m].0 == (#[trigger] cons@[t]).id@ by {
            assert(constrained(cons@, cons@[t].id@));
            assert(keys.has(cons@[t].id@));
        }
    }
    if k == keys.len() {
        proof {
            assert forall|t: int| 0 <= t < cons@.len() implies constraint_holds(vers, sels.spec_entries(), entries, #[trigger] cons@[t]) by {
                let m = choose|m: int| 0 <= m < kents.len() && #[trigger] kents[m].0 == cons@[t].id@;
                assert(has_key(entries, kents[m].0));
                assert(constraint_ok(vers, sels.spec_entries(), entries, cons@[t]));
            }
            lemma_complete(vers, deps, sels.spec_entries(), entries, cons@);
        }
        // A cycle may depend on the versions chosen, so it is refused here,
        // while other versions can still be tried.
        match order_selected(cands, &sel) {
            Ok(ordered) => {
                proof {
                    lemma_ordered_acyclic(ids, deps, entries, ordered@);
                    assert forall|x: Seq<char>| #[trigger] has_key(entries, x) implies from_roots(cons@, base, x)
                        || wanted(deps, entries, x) by {
                        assert(constrained(cons@, x));
                        let t = choose|t: int| 0 <= t < cons@.len() && (#[trigger] cons@[t]).id@ == x;
                        if t >= base {
                            assert(wanted(deps, entries, cons@[t].id@));
                        }
                    }
                }
            },
            Err(message) => {
                proof {
                    if solvable {
                        lemma_acyclic_part(deps, entries, a);
                    }
                }
                return Err(message);
            },
        }
        proof {
            assert forall|y: Seq<char>| constrained(cons@, y) implies has_key(entries, y) by {
                assert(keys.has(y));
                let m = choose|m: int| 0 <= m < kents.len() && #[trigger] kents[m].0 == y;
            }
            lemma_empty_trail(ids_of(cands@), versions_in(cands@), deps_in(cands@), sels.spec_entries(), sel.spec_entries(), cons@);
        }
        return Ok(sel);
    }
    let id = keys.id_at(k);
    keys.map.sorted_fact();
    proof {
        assert forall|y: Seq<char>| constrained(cons@, y) && !has_key(entries, y) implies y == id@ || seq_less(id@, y) by {
            assert(keys.has(y));
            let q = choose|q: int| 0 <= q < kents.len() && #[trigger] kents[q].0 == y;
            assert(kents[k as int].0 == id@);
            if q < k {
                assert(has_key(entries, kents[q].0));
            } else if q > k {
                assert(seq_less(kents[k as int].0, kents[q].0));
            }
        }
    }
    proof {
        assert(keys.has(id@)) by {
            assert(kents[k as int].0 == id@);
        }
        assert(constrained(cons@, id@));
    }
    let ghost chosen = value_for(a, id@);
    proof {
        if solvable {
            let t = choose|t: int| 0 <= t < cons@.len() && (#[trigger] cons@[t]).id@ == id@;
            assert(constraint_holds(vers, sels.spec_entries(), a, cons@[t]));
            assert(has_key(a, id@));
            assert(chosen < ids.len() && ids[chosen as int] == id@);
            assert(has_key(avail.spec_entries(), ids_of(cands@)[chosen as int]));
        }
    }
    let mut failure = conflict_message(&cons, id.as_str());
    let list: &Vec<usize> = match avail.get(id.as_str()) {
        Some(list) => list,
        None => {
            return Err(failure);
        },
    };
    proof {
        assert(newest_first(ids, vers, id@, list@, cands@.len() as int));
        if solvable {
            assert(list@.contains(chosen));
        }
        assert forall|c: usize| c < ids.len() && ids[c as int] == id@ implies list@.contains(c) by {
            assert(has_key(avail.spec_entries(), ids_of(cands@)[c as int]));
        }
    }
    let mut i: usize = 0;
    while i < list.len()
        invariant
            i <= list@.len(),
            unmet_message(failure@),
            forall|y: Seq<char>| constrained(cons@, y) && !has_key(entries, y) ==> y == id@ || seq_less(id@, y),
            newest_first(ids, vers, id@, list@, cands@.len() as int),
            ids == ids_of(cands@),
            vers == versions_in(cands@),
            deps == deps_in(cands@),
            entries == sel.spec_entries(),
            available_ok(cands@, avail.spec_entries()),
            picks_ok(ids, entries),
            covered(deps, entries, cons@),
            constrained(cons@, id@),
            !has_key(entries, id@),
            lists_complete(cands@, avail.spec_entries(), cands@.len() as int),
            solvable == solves(ids, vers, deps, sels.spec_entries(), entries, cons@, a),
            chosen == value_for(a, id@),
            solvable ==> has_key(a, id@) && list@.contains(chosen),
            forall|c: usize| c < ids.len() && ids[c as int] == id@ ==> list@.contains(c),
            forall|u: int, a2: Seq<(Seq<char>, usize)>|
                #![trigger solves(ids, vers, deps, sels.spec_entries(), entries, cons@, a2), list@[u]]
                0 <= u < i && solves(ids, vers, deps, sels.spec_entries(), entries, cons@, a2) && has_key(a2, id@)
                    ==> value_for(a2, id@) != list@[u],
            0 <= base <= cons@.len(),
            traced(deps, entries, cons@, base),
        decreases list@.len() - i,
    {
        let j = list[i];
        proof {
            assert(j < ids.len() && ids[j as int] == id@) by {
                assert(list@[i as int] == j);
            }
        }
        let fits = candidate_fits(cands, sels, &cons, id.as_str(), j);
        proof {
            assert forall|a2: Seq<(Seq<char>, usize)>|
                solves(ids, vers, deps, sels.spec_entries(), entries, cons@, a2) && has_key(a2, id@) && value_for(a2, id@) == j
                implies fits by {
                assert forall|t: int| 0 <= t < cons@.len() && (#[trigger] cons@[t]).id@ == id@ implies semver_matches(
                    cons@[t].version@,
                    cands@[j as int].manifest.version@,
                ) by {
                    assert(constraint_holds(vers, sels.spec_entries(), a2, cons@[t]));
                }
                let t = choose|t: int| 0 <= t < cons@.len() && (#[trigger] cons@[t]).id@ == id@;
                assert(constraint_holds(vers, sels.spec_entries(), a2, cons@[t]));
            }
        }
        if fits {
            let mut next = sel.duplicate();
            next.insert(id.clone(), j);
            let cons2 = extend_constraints(cands, &cons, j);
            cands[j].manifest.dependencies.sorted_fact();
            proof {
                lemma_step(ids, deps, entries, next.spec_entries(), cons@, cons2@, id@, j);
                lemma_traced_step(deps, entries, next.spec_entries(), cons@, cons2@, id@, j, base);
                if solvable && j == chosen {
                    lemma_solution_step(ids, vers, deps, sels.spec_entries(), entries, next.spec_entries(), cons@, cons2@, id@, j, a);
                }
            }
            let ghost next_entries = next.spec_entries();
            let ghost cons2_view = cons2@;
            match choose_versions(cands, avail, sels, next, cons2, Ghost(base)) {
                Ok(found) => {
                    proof {
                        let s = found.spec_entries();
                        let rest = choose|rest: Seq<usize>|
                            trail_covers(ids, next_entries, rest, s) && newest_trail(
                                ids,
                                vers,
                                deps,
                                sels.spec_entries(),
                                next_entries,
                                cons2_view,
                                rest,
                            ) && least_first(ids, deps, next_entries, cons2_view, rest);
                        lemma_order_step(ids, deps, entries, next_entries, cons@, cons2_view, id@, j, rest);
                        assert(list@[i as int] == j);
                        lemma_trail_step(
                            ids,
                            vers,
                            deps,
                            sels.spec_entries(),
                            entries,
                            next_entries,
                            cons@,
                            cons2_view,
                            id@,
                            j,
                            list@,
                            i as int,
                            rest,
                            s,
                        );
                        let trail = seq![j].add(rest);
                        assert(trail_covers(ids, entries, trail, s) && newest_trail(
                            ids,
                            vers,
                            deps,
                            sels.spec_entries(),
                            entries,
                            cons@,
                            trail,
                        ) && least_first(ids, deps, entries, cons@, trail));
                        assert forall|x: Seq<char>| #[trigger] has_key(s, x) implies from_roots(cons@, base, x)
                            || wanted(deps, s, x) by {
                            if from_roots(cons2@, base, x) {
                            }
                        }
                        assert forall|t: int| 0 <= t < cons@.len() implies constraint_holds(vers, sels.spec_entries(), s, #[trigger] cons@[t]) by {
                            assert(cons2@.subrange(0, cons@.len() as int)[t] == cons2@[t]);
                            assert(constraint_holds(vers, sels.spec_entries(), s, cons2@[t]));
                        }
                        assert forall|x: Seq<char>| #[trigger] has_key(entries, x) implies has_key(s, x) && value_for(s, x) == value_for(entries, x) by {
                            assert(has_key(next_entries, x));
                        }
                    }
                    return Ok(found);
                },
                Err(message) => {
                    proof {
                        assert forall|a2: Seq<(Seq<char>, usize)>|
                            solves(ids, vers, deps, sels.spec_entries(), entries, cons@, a2) && has_key(a2, id@) implies value_for(
                            a2,
                            id@,
                        ) != j by {
                            if value_for(a2, id@) == j {
                                lemma_solution_step(
                                    ids,
                                    vers,
                                    deps,
                                    sels.spec_entries(),
                                    entries,
                                    next_entries,
                                    cons@,
                                    cons2_view,
                                    id@,
                                    j,
                                    a2,
                                );
                            }
                        }
                    }
                    failure = message;
                },
            }
        }
        proof {
            assert(list@[i as int] == j);
            assert forall|u: int, a2: Seq<(Seq<char>, usize)>|
                #![trigger solves(ids, vers, deps, sels.spec_entries(), entries, cons@, a2), list@[u]]
                0 <= u < i + 1 && solves(ids, vers, deps, sels.spec_entries(), entries, cons@, a2) && has_key(a2, id@)
                    implies value_for(a2, id@) != list@[u] by {
                if u == i && value_for(a2, id@) == j {
                    assert(fits);
                }
            }
        }
        i = i + 1;
    }
    proof {
        if solvable {
            let u = choose|u: int| 0 <= u < list@.len() && list@[u] == chosen;
            assert(value_for(a, id@) != list@[u]);
        }
    }
    Err(failure)
}


// ---------------------------------------------------------------------------
// Resolution
// ---------------------------------------------------------------------------

/// Some candidate's manifest has a problem.
pub open spec fn some_problem(cands: Seq<Candidate>) -> bool {
    exists|i: int| 0 <= i < cands.len() && (#[trigger] manifest_problem(cands[i].manifest)) is Some
}

/// `m` is the problem of the first candidate whose manifest has one.
pub open spec fn first_problem(cands: Seq<Candidate>, m: Seq<char>) -> bool {
    exists|i: int|
        0 <= i < cands.len() && manifest_problem(cands[i].manifest) == Some(m) && forall|k: int|
            0 <= k < i ==> (#[trigger] manifest_problem(cands[k].manifest)) is None
}

/// The first candidate whose manifest has a problem, if any.
fn first_invalid(cands: &Vec<Candidate>) -> (r: Result<(), String>)
    ensures
        r is Ok <==> !some_problem(cands@),
        r matches Err(m) ==> first_problem(cands@, m@),
{
    let mut i: usize = 0;
    while i < cands.len()
        invariant
            i <= cands@.len(),
            forall|k: int| 0 <= k < i ==> (#[trigger] manifest_problem(cands@[k].manifest)) is None,
        decreases cands.len() - i,
    {
        match cands[i].manifest.validate() {
            Ok(()) => {},
            Err(message) => {
                return Err(message);
            },
        }
        i = i + 1;
    }
    Ok(())
}

/// The roots of a resolution: see `is_root`.
fn root_ids(selections: &IdMap<Selection>, defaults: &IdSet, required: &IdSet) -> (r: IdSet)
    ensures
        forall|x: Seq<char>| r.has(x) <==> is_root(selections.spec_entries(), defaults@, required@, x),
{
    let ghost sels = selections.spec_entries();
    let mut roots = IdSet::new();
    let mut k: usize = 0;
    while k < required.len()
        invariant
            k <= required.map.spec_entries().len(),
            forall|x: Seq<char>| roots.has(x) <==> exists|m: int| 0 <= m < k && (#[trigger] required.map.spec_entries()[m]).0 == x,
        decreases required.map.spec_entries().len() - k,
    {
        let ghost before = roots;
        roots.insert(required.id_at(k).clone());
        proof {
            assert forall|x: Seq<char>| roots.has(x) <==> exists|m: int| 0 <= m < k + 1 && (#[trigger] required.map.spec_entries()[m]).0 == x by {
                if roots.has(x) && x != required.map.spec_entries()[k as int].0 {
                    assert(before.has(x));
                }
            }
        }
        k = k + 1;
    }
    let mut k: usize = 0;
    while k < defaults.len()
        invariant
            k <= defaults.map.spec_entries().len(),
            sels == selections.spec_entries(),
            forall|x: Seq<char>| roots.has(x) <==> (required.has(x) || exists|m: int| 0 <= m < k && (#[trigger] defaults.map.spec_entries()[m]).0 == x && !disabled(sels, x)),
        decreases defaults.map.spec_entries().len() - k,
    {
        let id = defaults.id_at(k);
        let ghost before = roots;
        if !is_disabled(selections, id.as_str()) {
            roots.insert(id.clone());
        }
        proof {
            assert forall|x: Seq<char>| roots.has(x) <==> (required.has(x) || exists|m: int| 0 <= m < k + 1 && (#[trigger] defaults.map.spec_entries()[m]).0 == x && !disabled(sels, x)) by {
                if roots.has(x) && x != id@ {
                    assert(before.has(x));
                }
                if exists|m: int| 0 <= m < k + 1 && (#[trigger] defaults.map.spec_entries()[m]).0 == x && !disabled(sels, x) {
                    let m = choose|m: int| 0 <= m < k + 1 && (#[trigger] defaults.map.spec_entries()[m]).0 == x && !disabled(sels, x);
                    if m < k {
                        assert(before.has(x));
                    }
                }
            }
        }
        k = k + 1;
    }
    let mut k: usize = 0;
    while k < selections.len()
        invariant
            k <= sels.len(),
            sels == selections.spec_entries(),
            forall|x: Seq<char>| roots.has(x) <==> (required.has(x) || (defaults.has(x) && !disabled(sels, x)) || exists|m: int| 0 <= m < k && (#[trigger] sels[m]).0 == x && sels[m].1.enabled == Some(true)),
        decreases sels.len() - k,
    {
        let ghost before = roots;
        if selections.value_at(k).enabled == Some(true) {
            roots.insert(selections.key_at(k).clone());
        }
        proof {
            assert forall|x: Seq<char>| roots.has(x) <==> (required.has(x) || (defaults.has(x) && !disabled(sels, x)) || exists|m: int| 0 <= m < k + 1 && (#[trigger] sels[m]).0 == x && sels[m].1.enabled == Some(true)) by {
                if roots.has(x) && x != sels[k as int].0 {
                    assert(before.has(x));
                }
                if exists|m: int| 0 <= m < k + 1 && (#[trigger] sels[m]).0 == x && sels[m].1.enabled == Some(true) {
                    let m = choose|m: int| 0 <= m < k + 1 && (#[trigger] sels[m]).0 == x && sels[m].1.enabled == Some(true);
                    if m < k {
                        assert(before.has(x));
                    }
                }
            }
        }
        k = k + 1;
    }
    selections.sorted_fact();
    proof {
        assert forall|x: Seq<char>| roots.has(x) <==> is_root(sels, defaults@, required@, x) by {
            if exists|m: int| 0 <= m < sels.len() && (#[trigger] sels[m]).0 == x && sels[m].1.enabled == Some(true) {
                let m = choose|m: int| 0 <= m < sels.len() && (#[trigger] sels[m]).0 == x && sels[m].1.enabled == Some(true);
                lemma_value_at(sels, m);
            }
            if enabled(sels, x) {
                let m = choose|m: int| 0 <= m < sels.len() && (#[trigger] sels[m]).0 == x;
                lemma_value_at(sels, m);
            }
        }
    }
    roots
}

/// The version that configuration requires of `id`, or "*".
fn root_requirement_of(selections: &IdMap<Selection>, id: &str) -> (r: VersionReq)
    ensures
        r@ == root_requirement(selections.spec_entries(), id@),
{
    match selections.get(id) {
        Some(selection) => match &selection.version {
            Some(version) => version.duplicate(),
            None => VersionReq::star(),
        },
        None => VersionReq::star(),
    }
}

/// One constraint "from selection" for each root, in ID order.
fn root_constraints(selections: &IdMap<Selection>, roots: &IdSet) -> (r: Vec<Constraint>)
    ensures
        r@.len() == roots.map.spec_entries().len(),
        forall|t: int| 0 <= t < r@.len() ==> (#[trigger] r@[t]).id@ == roots.map.spec_entries()[t].0
            && r@[t].version@ == root_requirement(selections.spec_entries(), r@[t].id@),
{
    let mut cons: Vec<Constraint> = Vec::new();
    let mut k: usize = 0;
    while k < roots.len()
        invariant
            k <= roots.map.spec_entries().len(),
            cons@.len() == k,
            forall|t: int| 0 <= t < k ==> (#[trigger] cons@[t]).id@ == roots.map.spec_entries()[t].0
                && cons@[t].version@ == root_requirement(selections.spec_entries(), cons@[t].id@),
        decreases roots.map.spec_entries().len() - k,
    {
        let id = roots.id_at(k);
        let version = root_requirement_of(selections, id.as_str());
        cons.push(Constraint { id: id.clone(), from: "selection".to_owned(), version });
        k = k + 1;
    }
    cons
}

/// The candidates at the given indices, in order.
fn pick(cands: &Vec<Candidate>, ordered: &Vec<usize>) -> (r: Vec<Candidate>)
    requires
        forall|t: int| 0 <= t < ordered@.len() ==> (#[trigger] ordered@[t]) < cands@.len(),
    ensures
        r@.len() == ordered@.len(),
        forall|t: int| 0 <= t < r@.len() ==> same_candidate(#[trigger] r@[t], cands@[ordered@[t] as int]),
{
    let mut out: Vec<Candidate> = Vec::new();
    let mut t: usize = 0;
    while t < ordered.len()
        invariant
            t <= ordered@.len(),
            out@.len() == t,
            forall|u: int| 0 <= u < ordered@.len() ==> (#[trigger] ordered@[u]) < cands@.len(),
            forall|u: int| 0 <= u < t ==> same_candidate(#[trigger] out@[u], cands@[ordered@[u] as int]),
        decreases ordered@.len() - t,
    {
        out.push(cands[ordered[t]].duplicate());
        t = t + 1;
    }
    out
}

/// A choice that meets the root constraints and is ordered providers first
/// is a valid resolution.
proof fn lemma_valid(
    cands: Seq<Candidate>,
    sels: Seq<(Seq<char>, Selection)>,
    defaults: Set<Seq<char>>,
    required: Set<Seq<char>>,
    roots: IdSet,
    cons: Seq<Constraint>,
    s: Seq<(Seq<char>, usize)>,
    ordered: Seq<usize>,
    mods: Seq<Candidate>,
)
    requires
        forall|x: Seq<char>| roots.has(x) <==> is_root(sels, defaults, required, x),
        cons.len() == roots.map.spec_entries().len(),
        forall|t: int| 0 <= t < cons.len() ==> (#[trigger] cons[t]).id@ == roots.map.spec_entries()[t].0
            && cons[t].version@ == root_requirement(sels, cons[t].id@),
        picks_ok(ids_of(cands), s),
        satisfied(versions_in(cands), sels, s, cons),
        closed_over(deps_in(cands), versions_in(cands), s),
        respected(versions_in(cands), sels, s),
        ordered_ok(ids_of(cands), deps_in(cands), s, ordered),
        forall|x: Seq<char>| #[trigger] has_key(s, x) ==> exists|t: int|
            0 <= t < ordered.len() && ids_of(cands)[(#[trigger] ordered[t]) as int] == x,
        mods.len() == ordered.len(),
        forall|t: int| 0 <= t < mods.len() ==> same_candidate(#[trigger] mods[t], cands[ordered[t] as int]),
        forall|x: Seq<char>| #[trigger] has_key(s, x) ==> from_roots(cons, cons.len() as int, x) || wanted(deps_in(cands), s, x),
    ensures
        valid_resolution(cands, sels, defaults, required, mods),
        only_needed(sels, defaults, required, mods),
{
    let ids = ids_of(cands);
    let vers = versions_in(cands);
    let deps = deps_in(cands);
    assert forall|i: int| 0 <= i < mods.len() implies (#[trigger] mods[i]).manifest.id@ == ids[ordered[i] as int]
        && mods[i].manifest.version@ == vers[ordered[i] as int]
        && deps_of(mods[i]) == deps[ordered[i] as int]
        && has_key(s, mods[i].manifest.id@) && value_for(s, mods[i].manifest.id@) == ordered[i] by {
        assert(ordered[i] < ids.len());
    }
    assert forall|i: int| 0 <= i < mods.len() implies #[trigger] among(mods[i], cands) by {
        let j = ordered[i] as int;
        assert(j < ids.len());
        assert(same_candidate(mods[i], cands[j]));
    }
    assert forall|i: int, k: int| 0 <= i < k < mods.len() implies (#[trigger] mods[i]).manifest.id@ != (#[trigger] mods[k]).manifest.id@ by {
        assert(ids[ordered[i] as int] != ids[ordered[k] as int]);
    }
    assert forall|id: Seq<char>| is_root(sels, defaults, required, id) implies exists|i: int|
        0 <= i < mods.len() && (#[trigger] mods[i]).manifest.id@ == id && semver_matches(
            root_requirement(sels, id),
            mods[i].manifest.version@,
        ) by {
        assert(roots.has(id));
        let m = choose|m: int| 0 <= m < roots.map.spec_entries().len() && roots.map.spec_entries()[m].0 == id;
        assert(cons[m].id@ == id);
        assert(constraint_holds(vers, sels, s, cons[m]));
        let t = choose|t: int| 0 <= t < ordered.len() && ids[(#[trigger] ordered[t]) as int] == id;
        assert(mods[t].manifest.id@ == id);
    }
    assert forall|i: int| 0 <= i < mods.len() implies !disabled(sels, (#[trigger] mods[i]).manifest.id@) && selection_allows(
        sels,
        mods[i].manifest.id@,
        mods[i].manifest.version@,
    ) by {
        assert(has_key(s, mods[i].manifest.id@));
    }
    assert forall|i: int, d: Seq<char>|
        0 <= i < mods.len() && #[trigger] has_key(deps_of(mods[i]), d) implies exists|k: int|
            0 <= k < i && (#[trigger] mods[k]).manifest.id@ == d && semver_matches(
                value_for(deps_of(mods[i]), d)@,
                mods[k].manifest.version@,
            ) by {
        let x = mods[i].manifest.id@;
        assert(has_key(s, x));
        assert(has_key(deps[ordered[i] as int], d));
        assert(has_key(deps[value_for(s, x) as int], d));
        let u = choose|u: int| 0 <= u < i && ids[(#[trigger] ordered[u]) as int] == d;
        assert(mods[u].manifest.id@ == d);
        assert(value_for(s, d) == ordered[u]);
    }
    assert forall|i: int| 0 <= i < mods.len() implies is_root(sels, defaults, required, (#[trigger] mods[i]).manifest.id@)
        || exists|k: int| i < k < mods.len() && has_key(deps_of(#[trigger] mods[k]), mods[i].manifest.id@) by {
        let x = mods[i].manifest.id@;
        assert(has_key(s, x));
        if from_roots(cons, cons.len() as int, x) {
            let t = choose|t: int| 0 <= t < cons.len() && (#[trigger] cons[t]).id@ == x;
            assert(roots.map.spec_entries()[t].0 == x);
            assert(roots.has(x));
        } else {
            let y = choose|y: Seq<char>| #[trigger] has_key(s, y) && has_key(deps[value_for(s, y) as int], x);
            let k = choose|k: int| 0 <= k < ordered.len() && ids[(#[trigger] ordered[k]) as int] == y;
            assert(mods[k].manifest.id@ == y);
            assert(has_key(deps_of(mods[k]), x));
            let i2 = choose|i2: int|
                0 <= i2 < k && (#[trigger] mods[i2]).manifest.id@ == x && semver_matches(
                    value_for(deps_of(mods[k]), x)@,
                    mods[i2].manifest.version@,
                );
            if i2 != i {
                if i2 < i {
                    assert(mods[i2].manifest.id@ != mods[i].manifest.id@);
                } else {
                    assert(mods[i].manifest.id@ != mods[i2].manifest.id@);
                }
            }
        }
    }
}

/// In entries with distinct keys, the value for the key of entry `i` is that
/// entry's value.
proof fn lemma_value_distinct<V>(s: Seq<(Seq<char>, V)>, i: int)
    requires
        forall|p: int, q: int| 0 <= p < q < s.len() ==> (#[trigger] s[p]).0 != (#[trigger] s[q]).0,
        0 <= i < s.len(),
    ensures
        has_key(s, s[i].0),
        value_for(s, s[i].0) == s[i].1,
{
    let k = choose|k: int| 0 <= k < s.len() && #[trigger] s[k].0 == s[i].0;
    if k < i {
        assert(s[k].0 != s[i].0);
    } else if i < k {
        assert(s[i].0 != s[k].0);
    }
}

/// The candidate index behind `mods[i]`.
spec fn index_of(mods: Seq<Candidate>, cands: Seq<Candidate>, i: int) -> int {
    choose|j: int| 0 <= j < cands.len() && same_candidate(mods[i], #[trigger] cands[j])
}

/// A resolution read as a choice: each Mod's ID with the candidate index
/// that `pick` gives it.
spec fn choice_of(mods: Seq<Candidate>, pick: spec_fn(int) -> int) -> Seq<(Seq<char>, usize)> {
    Seq::new(mods.len(), |i: int| (mods[i].manifest.id@, pick(i) as usize))
}

/// A valid resolution, read as a choice of candidate indices, solves the
/// root constraints.
proof fn lemma_resolution_solves(
    cands: Seq<Candidate>,
    sels: Seq<(Seq<char>, Selection)>,
    defaults: Set<Seq<char>>,
    required: Set<Seq<char>>,
    roots: IdSet,
    cons: Seq<Constraint>,
    mods: Seq<Candidate>,
    pick: spec_fn(int) -> int,
)
    requires
        cands.len() <= usize::MAX,
        valid_resolution(cands, sels, defaults, required, mods),
        forall|x: Seq<char>| roots.has(x) <==> is_root(sels, defaults, required, x),
        cons.len() == roots.map.spec_entries().len(),
        forall|t: int| 0 <= t < cons.len() ==> (#[trigger] cons[t]).id@ == roots.map.spec_entries()[t].0
            && cons[t].version@ == root_requirement(sels, cons[t].id@),
        forall|i: int| 0 <= i < mods.len() ==> 0 <= #[trigger] pick(i) < cands.len() && same_candidate(mods[i], cands[pick(i)]),
    ensures
        solves(ids_of(cands), versions_in(cands), deps_in(cands), sels, Seq::empty(), cons, choice_of(mods, pick)),
        forall|i: int| 0 <= i < mods.len() ==> has_key(choice_of(mods, pick), #[trigger] mods[i].manifest.id@)
            && value_for(choice_of(mods, pick), mods[i].manifest.id@) == pick(i),
{
    let ids = ids_of(cands);
    let vers = versions_in(cands);
    let deps = deps_in(cands);
    let a = choice_of(mods, pick);
    assert forall|i: int| 0 <= i < mods.len() implies 0 <= #[trigger] pick(i) < cands.len()
        && ids[pick(i)] == mods[i].manifest.id@
        && vers[pick(i)] == mods[i].manifest.version@
        && deps[pick(i)] == deps_of(mods[i]) by {
        assert(same_candidate(mods[i], cands[pick(i)]));
    }
    assert forall|p: int, q: int| 0 <= p < q < a.len() implies (#[trigger] a[p]).0 != (#[trigger] a[q]).0 by {
        assert(mods[p].manifest.id@ != mods[q].manifest.id@);
    }
    assert forall|i: int| 0 <= i < mods.len() implies has_key(a, #[trigger] mods[i].manifest.id@)
        && value_for(a, mods[i].manifest.id@) == pick(i) by {
        lemma_value_distinct(a, i);
        assert(0 <= pick(i) < cands.len());
        assert(a[i].0 == mods[i].manifest.id@);
        assert(a[i].1 == pick(i) as usize);
    }
    assert forall|x: Seq<char>| #[trigger] has_key(a, x) implies exists|i: int| 0 <= i < mods.len() && (#[trigger] mods[i]).manifest.id@ == x by {
        let i = choose|i: int| 0 <= i < a.len() && #[trigger] a[i].0 == x;
        assert(mods[i].manifest.id@ == x);
    }
    assert(picks_ok(ids, a)) by {
        assert forall|x: Seq<char>| #[trigger] has_key(a, x) implies value_for(a, x) < ids.len() && ids[value_for(a, x) as int] == x by {
            let i = choose|i: int| 0 <= i < mods.len() && (#[trigger] mods[i]).manifest.id@ == x;
        }
    }
    assert(satisfied(vers, sels, a, cons)) by {
        assert forall|t: int| 0 <= t < cons.len() implies constraint_holds(vers, sels, a, #[trigger] cons[t]) by {
            let id = cons[t].id@;
            assert(roots.has(id));
            let i = choose|i: int|
                0 <= i < mods.len() && (#[trigger] mods[i]).manifest.id@ == id && semver_matches(
                    root_requirement(sels, id),
                    mods[i].manifest.version@,
                );
            assert(has_key(a, mods[i].manifest.id@));
        }
    }
    assert(closed_over(deps, vers, a)) by {
        assert forall|x: Seq<char>, d: Seq<char>|
            #[trigger] has_key(a, x) && #[trigger] has_key(deps[value_for(a, x) as int], d) implies has_key(a, d)
                && semver_matches(value_for(deps[value_for(a, x) as int], d)@, vers[value_for(a, d) as int]) by {
            let i = choose|i: int| 0 <= i < mods.len() && (#[trigger] mods[i]).manifest.id@ == x;
            assert(has_key(a, mods[i].manifest.id@));
            assert(has_key(deps_of(mods[i]), d));
            let k = choose|k: int|
                0 <= k < i && (#[trigger] mods[k]).manifest.id@ == d && semver_matches(
                    value_for(deps_of(mods[i]), d)@,
                    mods[k].manifest.version@,
                );
            assert(has_key(a, mods[k].manifest.id@));
        }
    }
    assert(respected(vers, sels, a)) by {
        assert forall|x: Seq<char>| #[trigger] has_key(a, x) implies !disabled(sels, x) && selection_allows(sels, x, vers[value_for(a, x) as int]) by {
            let i = choose|i: int| 0 <= i < mods.len() && (#[trigger] mods[i]).manifest.id@ == x;
            assert(has_key(a, mods[i].manifest.id@));
        }
    }
    let rank = |x: Seq<char>| (choose|i: int| 0 <= i < mods.len() && (#[trigger] mods[i]).manifest.id@ == x) as nat;
    assert(ranked(deps, a, rank)) by {
        assert forall|x: Seq<char>, d: Seq<char>|
            #[trigger] has_key(a, x) && #[trigger] has_key(deps[value_for(a, x) as int], d) implies rank(d) < rank(x) by {
            let i = choose|i: int| 0 <= i < mods.len() && (#[trigger] mods[i]).manifest.id@ == x;
            assert(has_key(a, mods[i].manifest.id@));
            assert(has_key(deps_of(mods[i]), d));
            let k = choose|k: int|
                0 <= k < i && (#[trigger] mods[k]).manifest.id@ == d && semver_matches(
                    value_for(deps_of(mods[i]), d)@,
                    mods[k].manifest.version@,
                );
            let i2 = choose|i: int| 0 <= i < mods.len() && (#[trigger] mods[i]).manifest.id@ == x;
            let k2 = choose|k: int| 0 <= k < mods.len() && (#[trigger] mods[k]).manifest.id@ == d;
            if i2 != i {
                if i2 < i {
                    assert(mods[i2].manifest.id@ != mods[i].manifest.id@);
                } else {
                    assert(mods[i].manifest.id@ != mods[i2].manifest.id@);
                }
            }
            if k2 != k {
                if k2 < k {
                    assert(mods[k2].manifest.id@ != mods[k].manifest.id@);
                } else {
                    assert(mods[k].manifest.id@ != mods[k2].manifest.id@);
                }
            }
        }
    }
    assert(solves(ids, vers, deps, sels, Seq::empty(), cons, a));
}

/// No valid resolution that agrees with the first `m` choices of the trail
/// picks a newer version than choice `m` for its Mod.
#[verifier::spinoff_prover]
proof fn lemma_newest_against(
    cands: Seq<Candidate>,
    sels: Seq<(Seq<char>, Selection)>,
    defaults: Set<Seq<char>>,
    required: Set<Seq<char>>,
    roots: IdSet,
    cons: Seq<Constraint>,
    s: Seq<(Seq<char>, usize)>,
    trail: Seq<usize>,
    m: int,
    other: Seq<Candidate>,
)
    requires
        cands.len() <= usize::MAX,
        forall|x: Seq<char>| roots.has(x) <==> is_root(sels, defaults, required, x),
        cons.len() == roots.map.spec_entries().len(),
        forall|t: int| 0 <= t < cons.len() ==> (#[trigger] cons[t]).id@ == roots.map.spec_entries()[t].0
            && cons[t].version@ == root_requirement(sels, cons[t].id@),
        trail_covers(ids_of(cands), Seq::empty(), trail, s),
        newest_trail(ids_of(cands), versions_in(cands), deps_in(cands), sels, Seq::empty(), cons, trail),
        0 <= m < trail.len(),
        valid_resolution(cands, sels, defaults, required, other),
        forall|p: int| 0 <= p < m ==> picked(other, cands[(#[trigger] trail[p]) as int]),
    ensures
        forall|i: int|
            0 <= i < other.len() && (#[trigger] other[i]).manifest.id@ == cands[trail[m] as int].manifest.id@ ==> same_candidate(
                other[i],
                cands[trail[m] as int],
            ) || semver_order(cands[trail[m] as int].manifest.version@, other[i].manifest.version@) == 1,
{
    let ids = ids_of(cands);
    let vers = versions_in(cands);
    let empty = Seq::<(Seq<char>, usize)>::empty();
    let earlier = |i: int| exists|p: int| 0 <= p < m && same_candidate(other[i], cands[(#[trigger] trail[p]) as int]);
    let pick = |i: int| if earlier(i) {
        trail[choose|p: int| 0 <= p < m && same_candidate(other[i], cands[(#[trigger] trail[p]) as int])] as int
    } else {
        index_of(other, cands, i)
    };
    assert forall|i: int| 0 <= i < other.len() implies 0 <= #[trigger] pick(i) < cands.len() && same_candidate(other[i], cands[pick(i)]) by {
        if !earlier(i) {
            assert(among(other[i], cands));
        }
    }
    lemma_resolution_solves(cands, sels, defaults, required, roots, cons, other, pick);
    let a = choice_of(other, pick);
    assert forall|p: int| 0 <= p < m implies has_key(a, ids[(#[trigger] trail[p]) as int]) && value_for(a, ids[trail[p] as int]) == trail[p] by {
        assert(picked(other, cands[trail[p] as int]));
        let i = choose|i: int| 0 <= i < other.len() && same_candidate(#[trigger] other[i], cands[trail[p] as int]);
        assert(earlier(i));
        let q = choose|q: int| 0 <= q < m && same_candidate(other[i], cands[(#[trigger] trail[q]) as int]);
        assert(has_key(a, other[i].manifest.id@) && value_for(a, other[i].manifest.id@) == pick(i));
        assert(ids[trail[q] as int] == ids[trail[p] as int]);
        assert(value_for(s, ids[trail[q] as int]) == trail[q]);
        assert(value_for(s, ids[trail[p] as int]) == trail[p]);
    }
    assert(agrees(ids, empty, trail, m, a));
    assert forall|i: int| 0 <= i < other.len() && (#[trigger] other[i]).manifest.id@ == cands[trail[m] as int].manifest.id@
        implies same_candidate(other[i], cands[trail[m] as int]) || semver_order(
        cands[trail[m] as int].manifest.version@,
        other[i].manifest.version@,
    ) == 1 by {
        assert(has_key(a, other[i].manifest.id@) && value_for(a, other[i].manifest.id@) == pick(i));
        assert(same_candidate(other[i], cands[pick(i)]));
        assert(at_least_as_new(vers, trail[m], value_for(a, ids[trail[m] as int])));
    }
}

/// At the top of a resolution, what awaits a choice is what the roots and
/// the earlier choices' dependencies name.
proof fn lemma_root_awaiting(
    cands: Seq<Candidate>,
    sels: Seq<(Seq<char>, Selection)>,
    defaults: Set<Seq<char>>,
    required: Set<Seq<char>>,
    roots: IdSet,
    cons: Seq<Constraint>,
    trail: Seq<usize>,
    m: int,
    y: Seq<char>,
)
    requires
        0 <= m <= trail.len(),
        forall|p: int| 0 <= p < trail.len() ==> (#[trigger] trail[p]) < cands.len(),
        forall|x: Seq<char>| roots.has(x) <==> is_root(sels, defaults, required, x),
        cons.len() == roots.map.spec_entries().len(),
        forall|t: int| 0 <= t < cons.len() ==> (#[trigger] cons[t]).id@ == roots.map.spec_entries()[t].0,
    ensures
        root_awaiting(cands, sels, defaults, required, trail, m, y) == awaiting(
            ids_of(cands),
            deps_in(cands),
            Seq::empty(),
            cons,
            trail,
            m,
            y,
        ),
{
    let ids = ids_of(cands);
    let deps = deps_in(cands);
    assert(constrained(cons, y) == is_root(sels, defaults, required, y)) by {
        if constrained(cons, y) {
            let t = choose|t: int| 0 <= t < cons.len() && (#[trigger] cons[t]).id@ == y;
            assert(roots.map.spec_entries()[t].0 == y);
            assert(roots.has(y));
        }
        if is_root(sels, defaults, required, y) {
            assert(roots.has(y));
            let t = choose|t: int| 0 <= t < roots.map.spec_entries().len() && #[trigger] roots.map.spec_entries()[t].0 == y;
            assert(cons[t].id@ == y);
        }
    }
    assert forall|p: int| 0 <= p < m implies deps[(#[trigger] trail[p]) as int] == deps_of(cands[trail[p] as int]) && ids[trail[p] as int]
        == cands[trail[p] as int].manifest.id@ by {}
    assert(!has_key(Seq::<(Seq<char>, usize)>::empty(), y));
}

/// The trail behind the chosen versions shows that the resolution took, at
/// each choice, the newest version that any valid resolution agreeing with
/// the earlier choices allows.
proof fn lemma_newest_versions(
    cands: Seq<Candidate>,
    sels: Seq<(Seq<char>, Selection)>,
    defaults: Set<Seq<char>>,
    required: Set<Seq<char>>,
    roots: IdSet,
    cons: Seq<Constraint>,
    s: Seq<(Seq<char>, usize)>,
    ordered: Seq<usize>,
    mods: Seq<Candidate>,
)
    requires
        cands.len() <= usize::MAX,
        forall|x: Seq<char>| roots.has(x) <==> is_root(sels, defaults, required, x),
        cons.len() == roots.map.spec_entries().len(),
        forall|t: int| 0 <= t < cons.len() ==> (#[trigger] cons[t]).id@ == roots.map.spec_entries()[t].0
            && cons[t].version@ == root_requirement(sels, cons[t].id@),
        picks_ok(ids_of(cands), s),
        ordered_ok(ids_of(cands), deps_in(cands), s, ordered),
        forall|x: Seq<char>| #[trigger] has_key(s, x) ==> exists|t: int|
            0 <= t < ordered.len() && ids_of(cands)[(#[trigger] ordered[t]) as int] == x,
        mods.len() == ordered.len(),
        forall|t: int| 0 <= t < mods.len() ==> same_candidate(#[trigger] mods[t], cands[ordered[t] as int]),
        chosen_newest(ids_of(cands), versions_in(cands), deps_in(cands), sels, Seq::empty(), cons, s),
    ensures
        newest_versions(cands, sels, defaults, required, mods),
{
    let ids = ids_of(cands);
    let vers = versions_in(cands);
    let deps = deps_in(cands);
    let empty = Seq::<(Seq<char>, usize)>::empty();
    let trail = choose|trail: Seq<usize>|
        trail_covers(ids, empty, trail, s) && newest_trail(ids, vers, deps, sels, empty, cons, trail) && least_first(
            ids,
            deps,
            empty,
            cons,
            trail,
        );
    assert forall|m: int, y: Seq<char>| 0 <= m <= trail.len() implies #[trigger] root_awaiting(
        cands,
        sels,
        defaults,
        required,
        trail,
        m,
        y,
    ) == awaiting(ids, deps, empty, cons, trail, m, y) by {
        lemma_root_awaiting(cands, sels, defaults, required, roots, cons, trail, m, y);
    }
    assert forall|p: int| 0 <= p < trail.len() implies (#[trigger] trail[p]) < cands.len() && picked(mods, cands[trail[p] as int]) by {
        let x = ids[trail[p] as int];
        assert(has_key(s, x));
        let t = choose|t: int| 0 <= t < ordered.len() && ids[(#[trigger] ordered[t]) as int] == x;
        assert(value_for(s, ids[ordered[t] as int]) == ordered[t]);
        assert(same_candidate(mods[t], cands[ordered[t] as int]));
    }
    assert forall|i: int| 0 <= i < mods.len() implies in_trail(cands, trail, #[trigger] mods[i]) by {
        let x = ids[ordered[i] as int];
        assert(ordered[i] < ids.len() && has_key(s, x) && value_for(s, x) == ordered[i]);
        assert(!has_key(empty, x));
        let p = choose|p: int| 0 <= p < trail.len() && ids[(#[trigger] trail[p]) as int] == x;
        assert(value_for(s, ids[trail[p] as int]) == trail[p]);
    }
    assert forall|m: int, other: Seq<Candidate>|
        #![trigger valid_resolution(cands, sels, defaults, required, other), trail[m]]
        0 <= m < trail.len() && valid_resolution(cands, sels, defaults, required, other) && (forall|p: int|
            0 <= p < m ==> picked(other, cands[(#[trigger] trail[p]) as int])) implies forall|i: int|
            0 <= i < other.len() && (#[trigger] other[i]).manifest.id@ == cands[trail[m] as int].manifest.id@ ==> same_candidate(
                other[i],
                cands[trail[m] as int],
            ) || semver_order(cands[trail[m] as int].manifest.version@, other[i].manifest.version@) == 1 by {
        lemma_newest_against(cands, sels, defaults, required, roots, cons, s, trail, m, other);
    }
    assert(newest_choices(cands, sels, defaults, required, mods, trail));
}

/// Resolves which Mods to load: every required Mod, every default that
/// configuration does not disable, and every Mod it enables, with their
/// dependencies. For each Mod the newest version that meets every
/// requirement is tried first, backtracking over earlier choices across
/// transitive constraints. Explicit disabling applies to required
/// dependencies too. Two candidates of one Mod with the same version are
/// refused. The result lists each provider before its consumers.
#[verifier::rlimit(40)]
pub fn resolve(
    candidates: &Vec<Candidate>,
    selections: &IdMap<Selection>,
    defaults: &IdSet,
    required: &IdSet,
) -> (r: Result<Resolved, String>)
    ensures
        some_problem(candidates@) ==> (r matches Err(m) && first_problem(candidates@, m@)),
        duplicate_versions(candidates@) ==> r is Err,
        r matches Ok(res) ==> valid_resolution(candidates@, selections.spec_entries(), defaults@, required@, res.mods@)
            && honours_selected_versions(selections.spec_entries(), res.mods@)
            && only_needed(selections.spec_entries(), defaults@, required@, res.mods@)
            && newest_versions(candidates@, selections.spec_entries(), defaults@, required@, res.mods@),
        !some_problem(candidates@) && !duplicate_versions(candidates@) && (exists|mods: Seq<Candidate>|
            valid_resolution(candidates@, selections.spec_entries(), defaults@, required@, mods)) ==> r is Ok,
        !some_problem(candidates@) && !duplicate_versions(candidates@) ==> (r matches Err(m) ==> unmet_message(m@)),
{
    first_invalid(candidates)?;
    let avail = group_by_id(candidates)?;
    let roots = root_ids(selections, defaults, required);
    let cons = root_constraints(selections, &roots);
    let sel: IdMap<usize> = IdMap::new();
    let ghost cons0 = cons@;
    proof {
        if exists|mods: Seq<Candidate>| valid_resolution(candidates@, selections.spec_entries(), defaults@, required@, mods) {
            let mods = choose|mods: Seq<Candidate>| valid_resolution(candidates@, selections.spec_entries(), defaults@, required@, mods);
            assert(candidates@.len() == candidates.len());
            let pick = |i: int| index_of(mods, candidates@, i);
            assert forall|i: int| 0 <= i < mods.len() implies 0 <= #[trigger] pick(i) < candidates@.len()
                && same_candidate(mods[i], candidates@[pick(i)]) by {
                assert(among(mods[i], candidates@));
            }
            lemma_resolution_solves(candidates@, selections.spec_entries(), defaults@, required@, roots, cons0, mods, pick);
            assert(sel.spec_entries() =~= Seq::empty());
        }
    }
    let chosen = choose_versions(candidates, &avail, selections, sel, cons, Ghost(cons0.len() as int))?;
    let ordered = order_selected(candidates, &chosen)?;
    let mods = pick(candidates, &ordered);
    proof {
        lemma_valid(
            candidates@,
            selections.spec_entries(),
            defaults@,
            required@,
            roots,
            cons0,
            chosen.spec_entries(),
            ordered@,
            mods@,
        );
        lemma_newest_versions(
            candidates@,
            selections.spec_entries(),
            defaults@,
            required@,
            roots,
            cons0,
            chosen.spec_entries(),
            ordered@,
            mods@,
        );
        resolutions_honour_selected_versions(candidates@, selections.spec_entries(), defaults@, required@, mods@);
    }
    Ok(Resolved { mods })
}

} // verus!
