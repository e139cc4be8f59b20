//! Mod package metadata: IDs, portable relative paths and manifests.

use vstd::prelude::*;
use crate::keyed::{Duplicate, IdMap, has_key, keys_sorted};
use crate::text::{chars_of, push_chars, push_str, signed_decimal, signed, string_of, seq_less,
    lemma_seq_less_irreflexive, lemma_seq_less_asymmetric};
use crate::version::{Version, VersionReq, semver_order};

verus! {

impl Duplicate for VersionReq {
    fn duplicate(&self) -> (r: VersionReq) {
        VersionReq::duplicate(self)
    }
}

/// ASCII letters and digits.
pub open spec fn is_ascii_alphanumeric(c: char) -> bool {
    ('0' <= c && c <= '9') || ('a' <= c && c <= 'z') || ('A' <= c && c <= 'Z')
}

/// A Mod ID: starts with an ASCII letter or digit and holds only ASCII
/// letters, digits, '.', '_' and '-'.
pub open spec fn valid_id(id: Seq<char>) -> bool {
    &&& id.len() > 0
    &&& is_ascii_alphanumeric(id[0])
    &&& forall|i: int|
        0 <= i < id.len() ==> is_ascii_alphanumeric(#[trigger] id[i]) || id[i] == '.' || id[i] == '_'
            || id[i] == '-'
}

/// The message for an invalid ID.
pub open spec fn invalid_id_message(id: Seq<char>) -> Seq<char> {
    "Mod ID 无效："@ + id
}

fn alphanumeric(c: char) -> (r: bool)
    ensures
        r == is_ascii_alphanumeric(c),
{
    ('0' <= c && c <= '9') || ('a' <= c && c <= 'z') || ('A' <= c && c <= 'Z')
}

fn message_with(lead: &str, subject: &str) -> (r: String)
    ensures
        r@ == lead@ + subject@,
{
    let mut out: Vec<char> = Vec::new();
    push_str(&mut out, lead);
    push_str(&mut out, subject);
    string_of(&out)
}

fn message_around(subject: &str, tail: &str) -> (r: String)
    ensures
        r@ == subject@ + tail@,
{
    let mut out: Vec<char> = Vec::new();
    push_str(&mut out, subject);
    push_str(&mut out, tail);
    string_of(&out)
}

/// Checks a Mod ID.
pub fn validate_id(id: &str) -> (r: Result<(), String>)
    ensures
        r is Ok <==> valid_id(id@),
        r matches Err(m) ==> m@ == invalid_id_message(id@),
{
    proof {
        reveal_strlit("Mod ID 无效：");
    }
    let chars = chars_of(id);
    let mut ok = chars.len() > 0 && alphanumeric(chars[0]);
    let mut i: usize = 0;
    while i < chars.len()
        invariant
            chars@ == id@,
            i <= chars@.len(),
            ok == (chars@.len() > 0 && is_ascii_alphanumeric(chars@[0]) && forall|j: int|
                0 <= j < i ==> is_ascii_alphanumeric(#[trigger] chars@[j]) || chars@[j] == '.'
                    || chars@[j] == '_' || chars@[j] == '-'),
        decreases chars.len() - i,
    {
        let c = chars[i];
        if !(alphanumeric(c) || c == '.' || c == '_' || c == '-') {
            ok = false;
        }
        i = i + 1;
    }
    if ok {
        Ok(())
    } else {
        Err(message_with("Mod ID 无效：", id))
    }
}

/// The '/'-separated parts of a path.
pub open spec fn path_parts(s: Seq<char>) -> Seq<Seq<char>>
    decreases s.len(),
{
    if s.len() == 0 {
        seq![Seq::empty()]
    } else {
        let parts = path_parts(s.drop_last());
        if s.last() == '/' {
            parts.push(Seq::empty())
        } else {
            parts.update(parts.len() - 1, parts.last().push(s.last()))
        }
    }
}

/// A part that a portable path must not contain: empty, "." or "..".
pub open spec fn bad_part(part: Seq<char>) -> bool {
    part.len() == 0 || part == seq!['.'] || part == seq!['.', '.']
}

/// A portable relative path inside a package: non-empty, without '\\' or
/// ':', and without empty, "." or ".." parts. Such a path never names a root,
/// a drive, or a place outside its base directory, on any platform.
pub open spec fn valid_relative_path(s: Seq<char>) -> bool {
    &&& s.len() > 0
    &&& forall|i: int| 0 <= i < s.len() ==> #[trigger] s[i] != '\\' && s[i] != ':'
    &&& forall|i: int| 0 <= i < path_parts(s).len() ==> !bad_part(#[trigger] path_parts(s)[i])
}

/// The message for an invalid package path.
pub open spec fn invalid_path_message(s: Seq<char>) -> Seq<char> {
    "Mod 包的相对路径无效："@ + s
}

/// A path has at least one part.
pub proof fn lemma_parts_exist(s: Seq<char>)
    ensures
        path_parts(s).len() >= 1,
{
    lemma_path_parts_nonempty(s);
}

proof fn lemma_path_parts_nonempty(s: Seq<char>)
    ensures
        path_parts(s).len() >= 1,
    decreases s.len(),
{
    if s.len() > 0 {
        lemma_path_parts_nonempty(s.drop_last());
    }
}

/// Some finished (not last) part is bad.
pub open spec fn bad_finished_part(parts: Seq<Seq<char>>) -> bool {
    exists|k: int| 0 <= k < parts.len() - 1 && bad_part(#[trigger] parts[k])
}

fn is_bad_part(part: &Vec<char>) -> (r: bool)
    ensures
        r == bad_part(part@),
{
    let r = part.len() == 0 || (part.len() == 1 && part[0] == '.') || (part.len() == 2 && part[0]
        == '.' && part[1] == '.');
    proof {
        if part@ =~= seq!['.'] {
            assert(part@.len() == 1 && part@[0] == '.');
        }
        if part@ =~= seq!['.', '.'] {
            assert(part@.len() == 2 && part@[0] == '.' && part@[1] == '.');
        }
        if part@.len() == 1 && part@[0] == '.' {
            assert(part@ =~= seq!['.']);
        }
        if part@.len() == 2 && part@[0] == '.' && part@[1] == '.' {
            assert(part@ =~= seq!['.', '.']);
        }
    }
    r
}

/// Checks a path stored in a package, using portable rules on every platform.
pub fn relative_path(path: &str) -> (r: Result<&str, String>)
    ensures
        r is Ok <==> valid_relative_path(path@),
        r matches Ok(p) ==> p@ == path@,
        r matches Err(m) ==> m@ == invalid_path_message(path@),
{
    proof {
        reveal_strlit("Mod 包的相对路径无效：");
    }
    let chars = chars_of(path);
    // `bad` records a forbidden character or a finished bad part so far;
    // `part` is the current, unfinished part.
    let mut bad_char = false;
    let mut bad_done = false;
    let mut part: Vec<char> = Vec::new();
    let mut i: usize = 0;
    proof {
        assert(chars@.subrange(0, 0) =~= Seq::<char>::empty());
        assert(path_parts(Seq::<char>::empty()) =~= seq![Seq::<char>::empty()]);
    }
    while i < chars.len()
        invariant
            chars@ == path@,
            i <= chars@.len(),
            path_parts(chars@.subrange(0, i as int)).last() == part@,
            path_parts(chars@.subrange(0, i as int)).len() >= 1,
            bad_char == (exists|j: int| 0 <= j < i && (#[trigger] chars@[j] == '\\' || chars@[j] == ':')),
            bad_done == bad_finished_part(path_parts(chars@.subrange(0, i as int))),
        decreases chars.len() - i,
    {
        let c = chars[i];
        let ghost prefix = chars@.subrange(0, i as int);
        let ghost next = chars@.subrange(0, i + 1);
        let ghost parts = path_parts(prefix);
        proof {
            assert(next.drop_last() =~= prefix);
            lemma_path_parts_nonempty(prefix);
        }
        if c == '\\' || c == ':' {
            bad_char = true;
        }
        if c == '/' {
            let finished_bad = is_bad_part(&part);
            proof {
                let after = path_parts(next);
                assert(after == parts.push(Seq::<char>::empty()));
                if bad_finished_part(after) {
                    let k = choose|k: int| 0 <= k < after.len() - 1 && bad_part(#[trigger] after[k]);
                    if k < parts.len() - 1 {
                        assert(after[k] == parts[k]);
                    } else {
                        assert(after[k] == part@);
                    }
                }
                if bad_finished_part(parts) {
                    let k = choose|k: int| 0 <= k < parts.len() - 1 && bad_part(#[trigger] parts[k]);
                    assert(after[k] == parts[k]);
                }
                if finished_bad {
                    assert(after[parts.len() - 1] == part@);
                }
            }
            bad_done = bad_done || finished_bad;
            part = Vec::new();
        } else {
            part.push(c);
            proof {
                let after = path_parts(next);
                assert(after == parts.update(parts.len() - 1, parts.last().push(c)));
                if bad_finished_part(after) {
                    let k = choose|k: int| 0 <= k < after.len() - 1 && bad_part(#[trigger] after[k]);
                    assert(after[k] == parts[k]);
                }
                if bad_finished_part(parts) {
                    let k = choose|k: int| 0 <= k < parts.len() - 1 && bad_part(#[trigger] parts[k]);
                    assert(after[k] == parts[k]);
                }
            }
        }
        i = i + 1;
    }
    let last_bad = is_bad_part(&part);
    proof {
        assert(chars@.subrange(0, i as int) =~= chars@);
        let parts = path_parts(chars@);
        if !(bad_char || bad_done || last_bad || chars@.len() == 0) {
            assert forall|k: int| 0 <= k < parts.len() implies !bad_part(#[trigger] parts[k]) by {
                if k < parts.len() - 1 {
                } else {
                    assert(parts[k] == part@);
                }
            }
        }
        if last_bad {
            assert(parts[parts.len() - 1] == part@);
        }
        if bad_done {
            let k = choose|k: int| 0 <= k < parts.len() - 1 && bad_part(#[trigger] parts[k]);
        }
    }
    if bad_char || bad_done || last_bad || chars.len() == 0 {
        Err(message_with("Mod 包的相对路径无效：", path))
    } else {
        Ok(path)
    }
}

/// Whether a Mod provides native code or only data.
#[derive(Clone, Copy, Debug, PartialEq, Eq, Structural)]
pub enum Kind {
    Native,
    Data,
}

/// Where a selected package version comes from.
#[derive(Clone, Debug, PartialEq, Eq)]
pub enum Source {
    /// Compiled into the host.
    Builtin,
    /// The directory that holds this version's mod.toml.
    Directory(String),
}

/// The contents of a package's mod.toml.
pub struct Manifest {
    pub schema: u32,
    pub id: String,
    pub name: String,
    pub version: Version,
    pub kind: Kind,
    pub entry: Option<String>,
    pub dependencies: IdMap<VersionReq>,
}

/// Whether a name has a character other than white space.
pub open spec fn has_visible(name: Seq<char>) -> bool {
    exists|i: int| 0 <= i < name.len() && !crate::export::is_white_space(#[trigger] name[i])
}

/// The first problem of a manifest, in the order the checks run.
pub open spec fn manifest_problem(m: Manifest) -> Option<Seq<char>> {
    let deps = m.dependencies.spec_entries();
    if m.schema != 1 {
        Some(m.id@ + "：不支持 mod.toml 的 schema 版本 "@ + signed_decimal(m.schema as int))
    } else if !valid_id(m.id@) {
        Some(invalid_id_message(m.id@))
    } else if !has_visible(m.name@) {
        Some(m.id@ + "：缺少显示名称"@)
    } else if exists|i: int| 0 <= i < deps.len() && !valid_id(#[trigger] deps[i].0) {
        let i = choose|i: int|
            0 <= i < deps.len() && !valid_id(#[trigger] deps[i].0) && forall|j: int|
                0 <= j < i ==> valid_id(#[trigger] deps[j].0);
        Some(invalid_id_message(deps[i].0))
    } else {
        match m.entry {
            Some(entry) => if !valid_relative_path(entry@) {
                Some(invalid_path_message(entry@))
            } else if m.kind == Kind::Data {
                Some(m.id@ + "：数据 Mod 不能设置 DLL 入口（entry）"@)
            } else {
                None
            },
            None => None,
        }
    }
}

/// The first dependency with an invalid ID, if any.
fn first_invalid_dependency(deps: &IdMap<VersionReq>) -> (r: Option<usize>)
    ensures
        r matches Some(i) ==> i < deps.spec_entries().len() && !valid_id(deps.spec_entries()[i as int].0)
            && forall|j: int| 0 <= j < i ==> valid_id(#[trigger] deps.spec_entries()[j].0),
        r is None ==> forall|j: int|
            0 <= j < deps.spec_entries().len() ==> valid_id(#[trigger] deps.spec_entries()[j].0),
{
    let mut i: usize = 0;
    while i < deps.len()
        invariant
            i <= deps.spec_entries().len(),
            forall|j: int| 0 <= j < i ==> valid_id(#[trigger] deps.spec_entries()[j].0),
        decreases deps.spec_entries().len() - i,
    {
        if validate_id(deps.key_at(i).as_str()).is_err() {
            return Some(i);
        }
        i = i + 1;
    }
    None
}

fn has_visible_char(name: &str) -> (r: bool)
    ensures
        r == has_visible(name@),
{
    let chars = chars_of(name);
    let mut i: usize = 0;
    while i < chars.len()
        invariant
            chars@ == name@,
            i <= chars@.len(),
            forall|j: int| 0 <= j < i ==> crate::export::is_white_space(#[trigger] chars@[j]),
        decreases chars.len() - i,
    {
        let u = chars[i] as u32;
        let white = (0x09 <= u && u <= 0x0d) || u == 0x20 || u == 0x85 || u == 0xa0 || u == 0x1680
            || (0x2000 <= u && u <= 0x200a) || u == 0x2028 || u == 0x2029 || u == 0x202f || u
            == 0x205f || u == 0x3000;
        if !white {
            proof {
                assert(!crate::export::is_white_space(chars@[i as int]));
            }
            return true;
        }
        i = i + 1;
    }
    false
}

impl Manifest {
    /// Checks the manifest, reporting its first problem.
    pub fn validate(&self) -> (r: Result<(), String>)
        ensures
            r is Ok <==> manifest_problem(*self) is None,
            r matches Err(m) ==> manifest_problem(*self) == Some(m@),
    {
        proof {
            reveal_strlit("：不支持 mod.toml 的 schema 版本 ");
            reveal_strlit("：缺少显示名称");
            reveal_strlit("：数据 Mod 不能设置 DLL 入口（entry）");
        }
        if self.schema != 1 {
            let mut out: Vec<char> = Vec::new();
            push_str(&mut out, self.id.as_str());
            push_str(&mut out, "：不支持 mod.toml 的 schema 版本 ");
            let digits = signed(self.schema as i64);
            push_chars(&mut out, &digits);
            return Err(string_of(&out));
        }
        validate_id(self.id.as_str())?;
        if !has_visible_char(self.name.as_str()) {
            return Err(message_around(self.id.as_str(), "：缺少显示名称"));
        }
        match first_invalid_dependency(&self.dependencies) {
            Some(i) => {
                let result = validate_id(self.dependencies.key_at(i).as_str());
                proof {
                    let deps = self.dependencies.spec_entries();
                    let chosen = choose|k: int|
                        0 <= k < deps.len() && !valid_id(#[trigger] deps[k].0) && forall|j: int|
                            0 <= j < k ==> valid_id(#[trigger] deps[j].0);
                    assert(chosen == i as int) by {
                        if chosen < i {
                        } else if chosen > i {
                            assert(valid_id(deps[i as int].0));
                        }
                    }
                }
                return result;
            },
            None => {},
        }
        match &self.entry {
            Some(entry) => {
                relative_path(entry.as_str())?;
                if self.kind == Kind::Data {
                    return Err(message_around(self.id.as_str(), "：数据 Mod 不能设置 DLL 入口（entry）"));
                }
            },
            None => {},
        }
        Ok(())
    }

    /// A copy of this manifest.
    pub fn duplicate(&self) -> (r: Manifest)
        ensures
            same_manifest(r, *self),
    {
        Manifest {
            schema: self.schema,
            id: self.id.clone(),
            name: self.name.clone(),
            version: self.version.duplicate(),
            kind: self.kind,
            entry: match &self.entry {
                Some(e) => Some(e.clone()),
                None => None,
            },
            dependencies: self.dependencies.duplicate(),
        }
    }
}

/// Two manifests with the same contents.
pub open spec fn same_manifest(a: Manifest, b: Manifest) -> bool {
    &&& a.schema == b.schema
    &&& a.id@ == b.id@
    &&& a.name@ == b.name@
    &&& a.version == b.version
    &&& a.kind == b.kind
    &&& a.entry == b.entry
    &&& a.dependencies.spec_entries() == b.dependencies.spec_entries()
}

/// One available version of a Mod and where it comes from.
pub struct Candidate {
    pub manifest: Manifest,
    pub source: Source,
}

/// Two candidates with the same contents and source.
pub open spec fn same_candidate(a: Candidate, b: Candidate) -> bool {
    same_manifest(a.manifest, b.manifest) && a.source == b.source
}

impl Candidate {
    /// A package compiled into the host, after checking its manifest.
    pub fn builtin(manifest: Manifest) -> (r: Result<Candidate, String>)
        ensures
            r is Ok <==> manifest_problem(manifest) is None,
            r matches Err(m) ==> manifest_problem(manifest) == Some(m@),
            r matches Ok(c) ==> c.manifest == manifest && c.source == Source::Builtin,
    {
        manifest.validate()?;
        Ok(Candidate { manifest, source: Source::Builtin })
    }

    /// A copy of this candidate.
    pub fn duplicate(&self) -> (r: Candidate)
        ensures
            same_candidate(r, *self),
    {
        Candidate {
            manifest: self.manifest.duplicate(),
            source: match &self.source {
                Source::Builtin => Source::Builtin,
                Source::Directory(path) => Source::Directory(path.clone()),
            },
        }
    }
}

/// A native package loaded from a directory must name its DLL entry.
pub fn require_native_entry(manifest: &Manifest) -> (r: Result<(), String>)
    ensures
        r is Ok <==> !(manifest.kind == Kind::Native && manifest.entry is None),
        r matches Err(m) ==> m@ == manifest.id@ + "：原生 Mod 包必须设置入口字段 entry"@,
{
    if manifest.kind == Kind::Native && manifest.entry.is_none() {
        return Err(message_around(manifest.id.as_str(), "：原生 Mod 包必须设置入口字段 entry"));
    }
    Ok(())
}

/// A package directory `<id>/<version>` must be named after its manifest;
/// `shown` is how the directory is named in the refusal.
pub fn check_package_directory(id_dir: &str, version_dir: &str, manifest: &Manifest, shown: &str) -> (r: Result<(), String>)
    ensures
        r is Ok <==> id_dir@ == manifest.id@ && version_dir@ == manifest.version@,
        r matches Err(m) ==> m@ == shown@ + "：Mod 包目录必须与 mod.toml 中的 id/version 一致"@,
{
    if !crate::text::same_text(id_dir, manifest.id.as_str()) || !crate::text::same_text(version_dir, manifest.version.as_str()) {
        return Err(message_around(shown, "：Mod 包目录必须与 mod.toml 中的 id/version 一致"));
    }
    Ok(())
}

/// Whether `a` is listed before `b` when packages are discovered: by ID in
/// string order, then by version order.
pub open spec fn listed_before(a: Candidate, b: Candidate) -> bool {
    seq_less(a.manifest.id@, b.manifest.id@) || (a.manifest.id@ == b.manifest.id@ && semver_order(
        a.manifest.version@,
        b.manifest.version@,
    ) == -1)
}

/// Whether `a` is listed before `b`; then `b` is not listed before `a`.
fn is_listed_before(a: &Candidate, b: &Candidate) -> (r: bool)
    ensures
        r == listed_before(*a, *b),
        r ==> !listed_before(*b, *a),
{
    proof {
        lemma_seq_less_irreflexive(a.manifest.id@);
    }
    if crate::text::text_less(a.manifest.id.as_str(), b.manifest.id.as_str()) {
        proof {
            lemma_seq_less_asymmetric(a.manifest.id@, b.manifest.id@);
        }
        true
    } else if crate::text::same_text(a.manifest.id.as_str(), b.manifest.id.as_str()) {
        a.manifest.version.compare(&b.manifest.version) == -1
    } else {
        false
    }
}

/// Orders discovered packages by ID, then by version: the result holds the
/// same candidates, and no candidate is listed before the one in front of it.
pub fn order_candidates(candidates: Vec<Candidate>) -> (r: Vec<Candidate>)
    ensures
        r@.to_multiset() == candidates@.to_multiset(),
        forall|i: int| 0 <= i < r@.len() - 1 ==> !listed_before(#[trigger] r@[i + 1], r@[i]),
{
    broadcast use vstd::seq_lib::group_to_multiset_ensures;

    let mut rest = candidates;
    let mut out: Vec<Candidate> = Vec::new();
    while rest.len() > 0
        invariant
            rest@.to_multiset().add(out@.to_multiset()) == candidates@.to_multiset(),
            forall|i: int| 0 <= i < out@.len() - 1 ==> !listed_before(#[trigger] out@[i + 1], out@[i]),
        decreases rest.len(),
    {
        let ghost before_pop = rest@;
        let x = rest.pop().unwrap();
        proof {
            assert(before_pop.subrange(0, before_pop.len() - 1) =~= before_pop.remove(before_pop.len() - 1));
        }
        let mut k: usize = out.len();
        while k > 0 && is_listed_before(&x, &out[k - 1])
            invariant
                k <= out@.len(),
                forall|i: int| 0 <= i < out@.len() - 1 ==> !listed_before(#[trigger] out@[i + 1], out@[i]),
                forall|j: int| k <= j < out@.len() ==> listed_before(x, #[trigger] out@[j]) && !listed_before(out@[j], x),
            decreases k,
        {
            k = k - 1;
        }
        let ghost before_insert = out@;
        out.insert(k, x);
        proof {
            broadcast use vstd::multiset::group_multiset_axioms;

            before_insert.insert_ensures(k as int, x);
            vstd::seq_lib::to_multiset_insert(before_insert, k as int, x);
            vstd::seq_lib::to_multiset_remove(before_pop, before_pop.len() - 1);
            assert(before_pop[before_pop.len() - 1] == x);
            assert(before_pop.contains(x));
            vstd::seq_lib::to_multiset_contains(before_pop, x);
            assert(rest@.to_multiset() == before_pop.to_multiset().remove(x));
            assert(out@.to_multiset() == before_insert.to_multiset().insert(x));
            assert(rest@.to_multiset().add(out@.to_multiset()) =~= before_pop.to_multiset().add(before_insert.to_multiset()));
            assert forall|i: int| 0 <= i < out@.len() - 1 implies !listed_before(#[trigger] out@[i + 1], out@[i]) by {
                if i + 1 < k {
                    assert(out@[i + 1] == before_insert[i + 1] && out@[i] == before_insert[i]);
                } else if i + 1 == k {
                } else if i == k {
                    assert(out@[i + 1] == before_insert[i]);
                } else {
                    assert(out@[i + 1] == before_insert[i] && out@[i] == before_insert[i - 1]);
                }
            }
        }
    }
    out
}

} // verus!
