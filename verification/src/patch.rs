//! Ownership of patched code spans: hook entries and explicit byte patches.
//!
//! A span is owned by one Mod from reservation until explicit release, so two
//! Mods can never patch overlapping bytes.

use vstd::prelude::*;
use crate::text::{hex, hex_digits, joined, push_chars, push_str, string_of, string_views};

verus! {

/// One reserved span `[start, end)` and the Mod that owns it.
pub struct Span {
    pub start: usize,
    pub end: usize,
    pub owner: String,
    pub description: String,
}

/// The abstract content of a reserved span.
pub struct SpanView {
    pub start: int,
    pub end: int,
    pub owner: Seq<char>,
    pub description: Seq<char>,
}

impl View for Span {
    type V = SpanView;

    open spec fn view(&self) -> SpanView {
        SpanView {
            start: self.start as int,
            end: self.end as int,
            owner: self.owner@,
            description: self.description@,
        }
    }
}

/// Whether `[start, end)` and a reserved span share a byte.
pub open spec fn overlaps(span: SpanView, start: int, end: int) -> bool {
    span.start < end && start < span.end
}

/// "<owner> (<name>)": how a span's owner and purpose are reported.
pub open spec fn describe(owner: Seq<char>, name: Seq<char>) -> Seq<char> {
    owner + " ("@ + name + ")"@
}

/// The message of a refused reservation.
pub open spec fn conflict_message(
    start: int,
    existing: Seq<char>,
    owner: Seq<char>,
    name: Seq<char>,
) -> Seq<char> {
    "patch conflict at 0x"@ + hex_digits(start as nat) + ": "@ + existing
        + " already occupies this range; requested by "@ + describe(owner, name)
}

/// The message of a refused hook target.
pub open spec fn hook_conflict_message(
    target: int,
    existing: Seq<char>,
    owner: Seq<char>,
    name: Seq<char>,
) -> Seq<char> {
    "hook conflict at 0x"@ + hex_digits(target as nat) + ": "@ + existing
        + " already owns the target; requested by "@ + describe(owner, name)
}

/// "<description> at 0x<start>" for each span that `owner` still holds, in
/// address order.
pub open spec fn remaining_spans(spans: Seq<SpanView>, owner: Seq<char>) -> Seq<Seq<char>>
    decreases spans.len(),
{
    if spans.len() == 0 {
        Seq::empty()
    } else {
        let rest = remaining_spans(spans.drop_last(), owner);
        let last = spans.last();
        if last.owner == owner {
            rest.push(last.description + " at 0x"@ + hex_digits(last.start as nat))
        } else {
            rest
        }
    }
}

/// `after` is `before` with `span` inserted at index `k`.
pub open spec fn inserted_at(before: Seq<SpanView>, after: Seq<SpanView>, k: int, span: SpanView) -> bool {
    after == before.insert(k, span)
}

/// The registry of all reserved spans in a process, and the Mod whose
/// installation is running.
pub struct PatchRegistry {
    pub spans: Vec<Span>,
    /// The owner of reservations made now: "internal" outside a Mod's
    /// installation.
    pub owner: String,
}

/// Ownership of a reserved byte-patch span. Release it only after the original
/// bytes have been restored; a failed edit keeps its span occupied.
#[derive(Debug)]
pub struct PatchReservation {
    pub start: usize,
}

impl PatchRegistry {
    pub open spec fn view_spans(&self) -> Seq<SpanView> {
        self.spans@.map_values(|s: Span| s@)
    }

    /// Spans are non-empty, in address order, and pairwise disjoint.
    pub open spec fn wf(&self) -> bool {
        &&& forall|i: int| 0 <= i < self.spans@.len() ==> self.spans@[i].start < self.spans@[i].end
        &&& forall|i: int, j: int|
            0 <= i < j < self.spans@.len() ==> self.spans@[i].end <= self.spans@[j].start
    }

    /// An empty registry, owned by "internal".
    pub fn new() -> (r: PatchRegistry)
        ensures
            r.wf(),
            r.spans@.len() == 0,
            r.owner@ == "internal"@,
    {
        PatchRegistry { spans: Vec::new(), owner: "internal".to_owned() }
    }

    /// The first span, in address order, that shares a byte with `[start, end)`.
    fn first_overlap(&self, start: usize, end: usize) -> (r: Option<usize>)
        ensures
            r matches Some(k) ==> k < self.spans@.len() && overlaps(self.spans@[k as int]@, start as int, end as int)
                && forall|i: int| 0 <= i < k ==> !overlaps(self.spans@[i]@, start as int, end as int),
            r is None ==> forall|i: int|
                0 <= i < self.spans@.len() ==> !overlaps(self.spans@[i]@, start as int, end as int),
    {
        let mut k: usize = 0;
        while k < self.spans.len()
            invariant
                k <= self.spans@.len(),
                forall|i: int| 0 <= i < k ==> !overlaps(self.spans@[i]@, start as int, end as int),
            decreases self.spans.len() - k,
        {
            if self.spans[k].start < end && start < self.spans[k].end {
                return Some(k);
            }
            k = k + 1;
        }
        None
    }

    /// The index at which a span starting at `start` keeps address order.
    fn insertion_point(&self, start: usize) -> (r: usize)
        requires
            self.wf(),
        ensures
            r <= self.spans@.len(),
            forall|i: int| 0 <= i < r ==> self.spans@[i].start < start,
            forall|i: int| r <= i < self.spans@.len() ==> self.spans@[i].start >= start,
    {
        let mut k: usize = 0;
        while k < self.spans.len() && self.spans[k].start < start
            invariant
                self.wf(),
                k <= self.spans@.len(),
                forall|i: int| 0 <= i < k ==> self.spans@[i].start < start,
            decreases self.spans.len() - k,
        {
            k = k + 1;
        }
        proof {
            assert forall|i: int| k <= i < self.spans@.len() implies self.spans@[i].start >= start by {
                if i > k {
                    assert(self.spans@[k as int].end <= self.spans@[i].start);
                    assert(self.spans@[k as int].start < self.spans@[k as int].end);
                }
            }
        }
        k
    }

    /// Records `[start, end)` for `owner` at the point that keeps address order.
    fn insert_span(&mut self, owner: &str, description: String, start: usize, end: usize)
        requires
            old(self).wf(),
            start < end,
            forall|i: int|
                0 <= i < old(self).spans@.len() ==> !overlaps(old(self).spans@[i]@, start as int, end as int),
        ensures
            final(self).wf(),
            final(self).owner == old(self).owner,
            exists|k: int|
                0 <= k <= old(self).spans@.len() && #[trigger] inserted_at(old(self).view_spans(), final(self).view_spans(), k, SpanView { start: start as int, end: end as int, owner: owner@, description: description@ }),
    {
        let k = self.insertion_point(start);
        let ghost described = description@;
        let span = Span { start, end, owner: owner.to_owned(), description };
        let ghost before = self.spans@;
        let ghost before_view = self.view_spans();
        self.spans.insert(k, span);
        proof {
            assert forall|i: int, j: int| 0 <= i < j < self.spans@.len() implies self.spans@[i].end
                <= self.spans@[j].start by {
                if j < k {
                } else if j == k {
                    assert(!overlaps(before[i]@, start as int, end as int));
                } else if i == k {
                    assert(!overlaps(before[j - 1]@, start as int, end as int));
                } else if i < k {
                } else {
                }
            }
            assert(self.view_spans() =~= before_view.insert(
                k as int,
                SpanView { start: start as int, end: end as int, owner: owner@, description: described },
            ));
            assert(inserted_at(
                before_view,
                self.view_spans(),
                k as int,
                SpanView { start: start as int, end: end as int, owner: owner@, description: described },
            ));
        }
    }

    /// Reserves `length` bytes from `start` for `owner`. Fails, leaving the
    /// registry unchanged, when the range is empty, wraps the address space, or
    /// overlaps a span that is still reserved.
    fn reserve_span(&mut self, owner: &str, name: &str, start: usize, length: usize) -> (r: Result<
        PatchReservation,
        String,
    >)
        requires
            old(self).wf(),
        ensures
            final(self).wf(),
            final(self).owner == old(self).owner,
            start + length > usize::MAX ==> (r matches Err(m) && m@ == "patch range overflows address space"@),
            start + length <= usize::MAX && length == 0 ==> (r matches Err(m) && m@
                == "cannot reserve an empty patch"@),
            r is Ok <==> (start + length <= usize::MAX && length > 0 && forall|i: int|
                0 <= i < old(self).spans@.len() ==> !overlaps(
                    old(self).spans@[i]@,
                    start as int,
                    start + length,
                )),
            r is Err ==> final(self).view_spans() == old(self).view_spans(),
            r matches Ok(p) ==> p.start == start && exists|k: int|
                0 <= k <= old(self).spans@.len() && #[trigger] inserted_at(old(self).view_spans(), final(self).view_spans(), k, SpanView {
                        start: start as int,
                        end: start + length,
                        owner: owner@,
                        description: describe(owner@, name@),
                    }),
            (start + length <= usize::MAX && length > 0) ==> (r matches Err(m) ==> exists|k: int|
                0 <= k < old(self).spans@.len() && overlaps(#[trigger] old(self).spans@[k]@, start as int, start + length)
                    && (forall|i: int| 0 <= i < k ==> !overlaps(old(self).spans@[i]@, start as int, start + length))
                    && m@ == conflict_message(start as int, old(self).spans@[k].description@, owner@, name@)),
    {
        proof {
            reveal_strlit("patch range overflows address space");
            reveal_strlit("cannot reserve an empty patch");
        }
        let end = match start.checked_add(length) {
            Some(end) => end,
            None => {
                return Err("patch range overflows address space".to_owned());
            },
        };
        if length == 0 {
            return Err("cannot reserve an empty patch".to_owned());
        }
        if let Some(k) = self.first_overlap(start, end) {
            let message = conflict_text(
                "patch conflict at 0x",
                start,
                self.spans[k].description.as_str(),
                " already occupies this range; requested by ",
                owner,
                name,
            );
            return Err(message);
        }
        let description = describe_text(owner, name);
        self.insert_span(owner, description, start, end);
        Ok(PatchReservation { start })
    }

    /// Claims a hook's entry byte for `owner`. The hooking backend does not
    /// report how many bytes it rewrites, so the entry alone is recorded.
    pub fn claim_hook_target(&mut self, owner: &str, name: &str, target: usize) -> (r: Result<(), String>)
        requires
            old(self).wf(),
            target < usize::MAX,
        ensures
            final(self).wf(),
            final(self).owner == old(self).owner,
            r is Ok <==> forall|i: int|
                0 <= i < old(self).spans@.len() ==> !overlaps(old(self).spans@[i]@, target as int, target + 1),
            r is Err ==> final(self).view_spans() == old(self).view_spans(),
            r is Ok ==> exists|k: int|
                0 <= k <= old(self).spans@.len() && #[trigger] inserted_at(old(self).view_spans(), final(self).view_spans(), k, SpanView {
                        start: target as int,
                        end: target + 1,
                        owner: owner@,
                        description: describe(owner@, name@),
                    }),
            r matches Err(m) ==> exists|k: int|
                0 <= k < old(self).spans@.len() && overlaps(#[trigger] old(self).spans@[k]@, target as int, target + 1)
                    && (forall|i: int| 0 <= i < k ==> !overlaps(old(self).spans@[i]@, target as int, target + 1))
                    && m@ == hook_conflict_message(target as int, old(self).spans@[k].description@, owner@, name@),
    {
        if let Some(k) = self.first_overlap(target, target + 1) {
            let message = conflict_text(
                "hook conflict at 0x",
                target,
                self.spans[k].description.as_str(),
                " already owns the target; requested by ",
                owner,
                name,
            );
            return Err(message);
        }
        let description = describe_text(owner, name);
        self.insert_span(owner, description, target, target + 1);
        Ok(())
    }

    /// Releases the span that starts at `start`, if one does.
    pub fn release_at(&mut self, start: usize)
        requires
            old(self).wf(),
        ensures
            final(self).wf(),
            final(self).owner == old(self).owner,
            forall|k: int| 0 <= k < old(self).spans@.len() && old(self).spans@[k].start == start ==> final(self).view_spans() == old(self).view_spans().remove(k),
            (forall|k: int| 0 <= k < old(self).spans@.len() ==> old(self).spans@[k].start != start)
                ==> final(self).view_spans() == old(self).view_spans(),
    {
        let mut k: usize = 0;
        while k < self.spans.len()
            invariant
                self.wf(),
                k <= self.spans@.len(),
                self.spans@ == old(self).spans@,
                self.owner == old(self).owner,
                forall|i: int| 0 <= i < k ==> self.spans@[i].start != start,
            decreases self.spans.len() - k,
        {
            if self.spans[k].start == start {
                let ghost before = self.spans@;
                let ghost before_view = self.view_spans();
                self.spans.remove(k);
                proof {
                    assert(self.view_spans() =~= before_view.remove(k as int));
                    assert forall|j: int| 0 <= j < before.len() && before[j].start == start implies j
                        == k by {
                        if j < k {
                        } else if j > k {
                            assert(before[k as int].end <= before[j].start);
                        }
                    }
                }
                return;
            }
            k = k + 1;
        }
    }

    /// Detects a partially installed group: fails, listing each span that
    /// `owner` still holds, unless it holds none.
    pub fn ensure_released(&self, owner: &str) -> (r: Result<(), String>)
        ensures
            r is Ok <==> forall|i: int| 0 <= i < self.spans@.len() ==> self.spans@[i].owner@ != owner@,
            r matches Err(m) ==> m@ == "Hook cleanup incomplete: "@ + joined(
                remaining_spans(self.view_spans(), owner@),
                ", "@,
            ),
    {
        let mut parts: Vec<String> = Vec::new();
        let mut k: usize = 0;
        while k < self.spans.len()
            invariant
                k <= self.spans@.len(),
                string_views(parts@) == remaining_spans(self.view_spans().subrange(0, k as int), owner@),
                parts@.len() == 0 <==> forall|i: int| 0 <= i < k ==> self.spans@[i].owner@ != owner@,
            decreases self.spans.len() - k,
        {
            let ghost prefix = self.view_spans().subrange(0, k + 1);
            assert(prefix.drop_last() =~= self.view_spans().subrange(0, k as int));
            if crate::text::same_text(self.spans[k].owner.as_str(), owner) {
                let mut item: Vec<char> = Vec::new();
                push_str(&mut item, self.spans[k].description.as_str());
                push_str(&mut item, " at 0x");
                let digits = hex(self.spans[k].start as u64);
                push_chars(&mut item, &digits);
                proof {
                    reveal_strlit(" at 0x");
                }
                let item = string_of(&item);
                let ghost old_parts = parts@;
                parts.push(item);
                assert(string_views(parts@) =~= string_views(old_parts).push(item@));
            }
            k = k + 1;
        }
        assert(self.view_spans().subrange(0, self.spans@.len() as int) =~= self.view_spans());
        if parts.len() == 0 {
            Ok(())
        } else {
            let listed = crate::text::join_strings(&parts, ", ");
            let mut message: Vec<char> = Vec::new();
            push_str(&mut message, "Hook cleanup incomplete: ");
            push_str(&mut message, listed.as_str());
            proof {
                reveal_strlit("Hook cleanup incomplete: ");
            }
            Err(string_of(&message))
        }
    }
}

impl PatchReservation {
    /// Reserves `length` bytes from `start` for the registry's current owner,
    /// under `name`. Fails, leaving the registry unchanged, when the range is
    /// empty, wraps the address space, or overlaps a span that is still
    /// reserved; the refusal names the first such span's owner.
    pub fn reserve(registry: &mut PatchRegistry, name: &str, start: usize, length: usize) -> (r: Result<
        PatchReservation,
        String,
    >)
        requires
            old(registry).wf(),
        ensures
            final(registry).wf(),
            final(registry).owner == old(registry).owner,
            start + length > usize::MAX ==> (r matches Err(m) && m@ == "patch range overflows address space"@),
            start + length <= usize::MAX && length == 0 ==> (r matches Err(m) && m@
                == "cannot reserve an empty patch"@),
            r is Ok <==> (start + length <= usize::MAX && length > 0 && forall|i: int|
                0 <= i < old(registry).spans@.len() ==> !overlaps(
                    old(registry).spans@[i]@,
                    start as int,
                    start + length,
                )),
            r is Err ==> final(registry).view_spans() == old(registry).view_spans(),
            r matches Ok(p) ==> p.start == start && exists|k: int|
                0 <= k <= old(registry).spans@.len() && #[trigger] inserted_at(old(registry).view_spans(), final(registry).view_spans(), k, SpanView {
                        start: start as int,
                        end: start + length,
                        owner: old(registry).owner@,
                        description: describe(old(registry).owner@, name@),
                    }),
            (start + length <= usize::MAX && length > 0) ==> (r matches Err(m) ==> exists|k: int|
                0 <= k < old(registry).spans@.len() && overlaps(#[trigger] old(registry).spans@[k]@, start as int, start + length)
                    && (forall|i: int| 0 <= i < k ==> !overlaps(old(registry).spans@[i]@, start as int, start + length))
                    && m@ == conflict_message(start as int, old(registry).spans@[k].description@, old(registry).owner@, name@)),
    {
        let owner = registry.owner.clone();
        registry.reserve_span(owner.as_str(), name, start, length)
    }

    /// Releases this reservation, after the original bytes were restored;
    /// its bytes may be reserved again.
    pub fn release(self, registry: &mut PatchRegistry)
        requires
            old(registry).wf(),
        ensures
            final(registry).wf(),
            final(registry).owner == old(registry).owner,
            forall|k: int|
                0 <= k < old(registry).spans@.len() && old(registry).spans@[k].start == self.start
                    ==> final(registry).view_spans() == old(registry).view_spans().remove(k),
            (forall|k: int| 0 <= k < old(registry).spans@.len() ==> old(registry).spans@[k].start != self.start)
                ==> final(registry).view_spans() == old(registry).view_spans(),
    {
        registry.release_at(self.start);
    }
}

/// Runs `install` with `owner` as the registry's owner, so that the spans it
/// reserves are attributed to that Mod, then restores the previous owner.
pub fn with_owner<R, F: FnOnce(PatchRegistry) -> (PatchRegistry, R)>(
    registry: PatchRegistry,
    owner: &str,
    install: F,
) -> (r: (PatchRegistry, R))
    requires
        forall|p: PatchRegistry| p.spans == registry.spans && p.owner@ == owner@ ==> install.requires((p,)),
    ensures
        exists|p: PatchRegistry, q: PatchRegistry|
            #![trigger install.ensures((p,), (q, r.1))]
            p.spans == registry.spans && p.owner@ == owner@ && install.ensures((p,), (q, r.1)) && r.0.spans == q.spans
                && r.0.owner == registry.owner,
{
    let PatchRegistry { spans, owner: previous } = registry;
    let inner = PatchRegistry { spans, owner: owner.to_owned() };
    let ghost passed = inner;
    assert(inner.owner@ == owner@);
    let (after, result) = install(inner);
    let ghost returned = after;
    let PatchRegistry { spans, owner: _ } = after;
    let r = (PatchRegistry { spans, owner: previous }, result);
    assert(install.ensures((passed,), (returned, r.1)));
    r
}

/// "<owner> (<name>)".
fn describe_text(owner: &str, name: &str) -> (r: String)
    ensures
        r@ == describe(owner@, name@),
{
    let mut out: Vec<char> = Vec::new();
    push_str(&mut out, owner);
    push_str(&mut out, " (");
    push_str(&mut out, name);
    push_str(&mut out, ")");
    proof {
        reveal_strlit(" (");
        reveal_strlit(")");
    }
    string_of(&out)
}

fn conflict_text(
    lead: &str,
    address: usize,
    existing: &str,
    middle: &str,
    owner: &str,
    name: &str,
) -> (r: String)
    ensures
        r@ == lead@ + hex_digits(address as nat) + ": "@ + existing@ + middle@ + describe(owner@, name@),
{
    let mut out: Vec<char> = Vec::new();
    push_str(&mut out, lead);
    let digits = hex(address as u64);
    push_chars(&mut out, &digits);
    push_str(&mut out, ": ");
    push_str(&mut out, existing);
    push_str(&mut out, middle);
    let described = describe_text(owner, name);
    push_str(&mut out, described.as_str());
    proof {
        reveal_strlit(": ");
    }
    string_of(&out)
}

/// Collapses independent cleanup failures into one result: success when there
/// are none, otherwise every message joined by "; ".
pub fn errors_result(errors: &Vec<String>) -> (r: Result<(), String>)
    ensures
        r is Ok <==> errors@.len() == 0,
        r matches Err(m) ==> m@ == joined(string_views(errors@), "; "@),
{
    if errors.len() == 0 {
        Ok(())
    } else {
        Err(crate::text::join_strings(errors, "; "))
    }
}

/// A reservation shuts out every overlapping request until it is released.
pub proof fn reserved_spans_exclude_overlaps(registry: PatchRegistry, start: int, end: int, k: int)
    requires
        registry.wf(),
        0 <= k < registry.spans@.len(),
        overlaps(registry.spans@[k]@, start, end),
    ensures
        !(forall|i: int| 0 <= i < registry.spans@.len() ==> !overlaps(registry.spans@[i]@, start, end)),
{
}

/// Once a span is released, the same bytes can be reserved again: no other
/// span overlaps them.
pub proof fn released_span_is_free(registry: PatchRegistry, k: int)
    requires
        registry.wf(),
        0 <= k < registry.spans@.len(),
    ensures
        forall|i: int|
            0 <= i < registry.view_spans().remove(k).len() ==> !overlaps(
                #[trigger] registry.view_spans().remove(k)[i],
                registry.spans@[k].start as int,
                registry.spans@[k].end as int,
            ),
{
    let rest = registry.view_spans().remove(k);
    assert forall|i: int| 0 <= i < rest.len() implies !overlaps(
        #[trigger] rest[i],
        registry.spans@[k].start as int,
        registry.spans@[k].end as int,
    ) by {
        let j = if i < k { i } else { i + 1 };
        assert(rest[i] == registry.spans@[j]@);
    }
}

} // verus!
