//! Portable package archives: the export receipt (pack.toml), the checks on
//! archive entry names, and the consistency of an import with its receipt.
//!
//! Reading and writing ZIP files and TOML text happens around this module;
//! it decides what an archive may contain.

use vstd::prelude::*;
use crate::keyed::IdSet;
use crate::manifest::{Candidate, Source, valid_id, invalid_id_message, validate_id, relative_path,
    valid_relative_path, invalid_path_message, path_parts, manifest_problem};
use crate::text::{chars_of, push_chars, push_str, signed, signed_decimal, string_of};
use crate::version::{Version, semver_version_valid};

verus! {

/// An export receipt: the exact versions selected when an archive was made.
/// It is not another source of runtime configuration.
#[derive(Debug)]
pub struct Pack {
    pub schema: u32,
    pub mods: Vec<PackEntry>,
}

/// One exported Mod version. A built-in one is recorded but supplied by the
/// host, not by the archive.
#[derive(Debug)]
pub struct PackEntry {
    pub id: String,
    pub version: Version,
    pub builtin: bool,
}

/// Whether a flag is unset; such a `builtin` is left out of pack.toml.
pub fn is_false(value: &bool) -> (r: bool)
    ensures
        r == !*value,
{
    !*value
}

/// Entry `i` of a receipt is refused: its ID is invalid or repeats an
/// earlier entry's.
pub open spec fn entry_refused(mods: Seq<PackEntry>, i: int) -> bool {
    !valid_id(mods[i].id@) || exists|k: int| 0 <= k < i && (#[trigger] mods[k]).id@ == mods[i].id@
}

/// Why entry `i` of a receipt is refused.
pub open spec fn entry_message(mods: Seq<PackEntry>, i: int) -> Seq<char> {
    if !valid_id(mods[i].id@) {
        invalid_id_message(mods[i].id@)
    } else {
        mods[i].id@ + "：pack.toml 中重复选择了同一 Mod"@
    }
}

/// The message for an unsupported receipt schema.
pub open spec fn pack_schema_message(schema: u32) -> Seq<char> {
    "不支持 pack.toml 的 schema 版本 "@ + signed_decimal(schema as int)
}

impl Pack {
    /// Checks a parsed receipt: schema 1, valid IDs, each Mod once. Reports
    /// the schema, else the first refused entry.
    pub fn check(&self) -> (r: Result<(), String>)
        ensures
            self.schema != 1 ==> (r matches Err(m) && m@ == pack_schema_message(self.schema)),
            self.schema == 1 ==> (r is Ok <==> forall|i: int| 0 <= i < self.mods@.len() ==> !entry_refused(self.mods@, i)),
            self.schema == 1 ==> (r matches Err(m) ==> exists|i: int|
                0 <= i < self.mods@.len() && entry_refused(self.mods@, i) && m@ == entry_message(self.mods@, i)
                    && forall|k: int| 0 <= k < i ==> !entry_refused(self.mods@, k)),
    {
        if self.schema != 1 {
            let mut out: Vec<char> = Vec::new();
            push_str(&mut out, "不支持 pack.toml 的 schema 版本 ");
            let digits = signed(self.schema as i64);
            push_chars(&mut out, &digits);
            return Err(string_of(&out));
        }
        let mut ids = IdSet::new();
        let mut i: usize = 0;
        while i < self.mods.len()
            invariant
                self.schema == 1,
                i <= self.mods@.len(),
                forall|k: int| 0 <= k < i ==> !entry_refused(self.mods@, k),
                forall|x: Seq<char>| ids.has(x) <==> exists|k: int| 0 <= k < i && (#[trigger] self.mods@[k]).id@ == x,
            decreases self.mods.len() - i,
        {
            let id = &self.mods[i].id;
            match validate_id(id.as_str()) {
                Ok(()) => {},
                Err(message) => {
                    proof {
                        assert(!valid_id(self.mods@[i as int].id@));
                        assert(entry_refused(self.mods@, i as int));
                        assert(message@ == entry_message(self.mods@, i as int));
                    }
                    return Err(message);
                },
            }
            if ids.contains(id.as_str()) {
                let mut out: Vec<char> = Vec::new();
                push_str(&mut out, id.as_str());
                push_str(&mut out, "：pack.toml 中重复选择了同一 Mod");
                proof {
                    let k = choose|k: int| 0 <= k < i && (#[trigger] self.mods@[k]).id@ == id@;
                    assert(entry_refused(self.mods@, i as int));
                }
                return Err(string_of(&out));
            }
            let ghost before = ids;
            ids.insert(id.clone());
            proof {
                assert forall|x: Seq<char>| ids.has(x) <==> exists|k: int| 0 <= k < i + 1 && (#[trigger] self.mods@[k]).id@ == x by {
                    if x != id@ {
                        if exists|k: int| 0 <= k < i + 1 && (#[trigger] self.mods@[k]).id@ == x {
                            let k = choose|k: int| 0 <= k < i + 1 && (#[trigger] self.mods@[k]).id@ == x;
                            assert(k < i);
                        }
                    }
                }
            }
            i = i + 1;
        }
        Ok(())
    }
}

/// The (ID, version) pairs that a receipt expects the archive to supply:
/// those of its entries that are not built in.
pub open spec fn expected_pairs(mods: Seq<PackEntry>) -> Set<(Seq<char>, Seq<char>)> {
    Set::new(|p: (Seq<char>, Seq<char>)| exists|i: int| 0 <= i < mods.len() && !mods[i].builtin && (#[trigger] mods[i]).id@ == p.0 && mods[i].version@ == p.1)
}

/// The (ID, version) pairs of the packages found in an archive.
pub open spec fn found_pairs(cands: Seq<Candidate>) -> Set<(Seq<char>, Seq<char>)> {
    Set::new(|p: (Seq<char>, Seq<char>)| exists|i: int| 0 <= i < cands.len() && (#[trigger] cands[i]).manifest.id@ == p.0 && cands[i].manifest.version@ == p.1)
}

/// Whether some candidate has this ID and version.
fn found(cands: &Vec<Candidate>, id: &String, version: &Version) -> (r: bool)
    ensures
        r == found_pairs(cands@).contains((id@, version@)),
{
    let mut i: usize = 0;
    while i < cands.len()
        invariant
            i <= cands@.len(),
            forall|k: int| 0 <= k < i ==> !((#[trigger] cands@[k]).manifest.id@ == id@ && cands@[k].manifest.version@ == version@),
        decreases cands.len() - i,
    {
        if crate::text::same_text(cands[i].manifest.id.as_str(), id.as_str()) && cands[i].manifest.version.same(version) {
            return true;
        }
        i = i + 1;
    }
    false
}

/// Whether some entry that is not built in has this ID and version.
fn expected(mods: &Vec<PackEntry>, id: &String, version: &Version) -> (r: bool)
    ensures
        r == expected_pairs(mods@).contains((id@, version@)),
{
    let mut i: usize = 0;
    while i < mods.len()
        invariant
            i <= mods@.len(),
            forall|k: int| 0 <= k < i ==> !(!mods@[k].builtin && (#[trigger] mods@[k]).id@ == id@ && mods@[k].version@ == version@),
        decreases mods.len() - i,
    {
        if !mods[i].builtin && crate::text::same_text(mods[i].id.as_str(), id.as_str()) && mods[i].version.same(version) {
            return true;
        }
        i = i + 1;
    }
    false
}

/// Checks that an archive holds exactly the packages that its receipt
/// lists, apart from built-in ones.
pub fn validate_pack(pack: &Pack, candidates: &Vec<Candidate>) -> (r: Result<(), String>)
    ensures
        r is Ok <==> expected_pairs(pack.mods@) == found_pairs(candidates@),
        r matches Err(m) ==> m@ == "pack.toml 中选择的 Mod 及版本与 ZIP 包内的 Mod 清单不一致"@,
{
    proof {
        reveal_strlit("pack.toml 中选择的 Mod 及版本与 ZIP 包内的 Mod 清单不一致");
    }
    let ghost want = expected_pairs(pack.mods@);
    let ghost have = found_pairs(candidates@);
    let mut same = true;
    let mut i: usize = 0;
    while i < pack.mods.len()
        invariant
            i <= pack.mods@.len(),
            want == expected_pairs(pack.mods@),
            have == found_pairs(candidates@),
            same ==> forall|k: int| 0 <= k < i && !pack.mods@[k].builtin ==> have.contains(((#[trigger] pack.mods@[k]).id@, pack.mods@[k].version@)),
            !same ==> want != have,
        decreases pack.mods.len() - i,
    {
        let entry = &pack.mods[i];
        if !entry.builtin && !found(candidates, &entry.id, &entry.version) {
            proof {
                assert(want.contains((entry.id@, entry.version@)));
            }
            same = false;
        }
        i = i + 1;
    }
    let mut j: usize = 0;
    while j < candidates.len()
        invariant
            j <= candidates@.len(),
            want == expected_pairs(pack.mods@),
            have == found_pairs(candidates@),
            same ==> forall|k: int| 0 <= k < pack.mods@.len() && !pack.mods@[k].builtin ==> have.contains(((#[trigger] pack.mods@[k]).id@, pack.mods@[k].version@)),
            same ==> forall|k: int| 0 <= k < j ==> want.contains(((#[trigger] candidates@[k]).manifest.id@, candidates@[k].manifest.version@)),
            !same ==> want != have,
        decreases candidates.len() - j,
    {
        let c = &candidates[j];
        if !expected(&pack.mods, &c.manifest.id, &c.manifest.version) {
            proof {
                assert(have.contains((c.manifest.id@, c.manifest.version@)));
            }
            same = false;
        }
        j = j + 1;
    }
    if same {
        proof {
            assert forall|p: (Seq<char>, Seq<char>)| want.contains(p) <==> have.contains(p) by {
                if want.contains(p) {
                    let k = choose|k: int| 0 <= k < pack.mods@.len() && !pack.mods@[k].builtin && (#[trigger] pack.mods@[k]).id@ == p.0 && pack.mods@[k].version@ == p.1;
                }
                if have.contains(p) {
                    let k = choose|k: int| 0 <= k < candidates@.len() && (#[trigger] candidates@[k]).manifest.id@ == p.0 && candidates@[k].manifest.version@ == p.1;
                }
            }
            assert(want =~= have);
        }
        Ok(())
    } else {
        Err("pack.toml 中选择的 Mod 及版本与 ZIP 包内的 Mod 清单不一致".to_owned())
    }
}

/// `s` without its trailing '/' characters.
pub open spec fn trim_slashes(s: Seq<char>) -> Seq<char>
    decreases s.len(),
{
    if s.len() > 0 && s.last() == '/' {
        trim_slashes(s.drop_last())
    } else {
        s
    }
}

/// ASCII letters in lower case; other characters unchanged.
pub open spec fn ascii_lower(s: Seq<char>) -> Seq<char> {
    s.map_values(|c: char| if 'A' <= c && c <= 'Z' { ((c as u32) + 32) as char } else { c })
}

/// A Unix mode that marks a symbolic link.
pub open spec fn symlink_mode(mode: Option<u32>) -> bool {
    mode matches Some(m) && (m & 0o170000u32) == 0o120000u32
}

/// The message for an archive path outside "mods/<id>/<version>/<file>".
pub open spec fn layout_message(name: Seq<char>) -> Seq<char> {
    "ZIP 包内路径必须采用 mods/id/version/file 格式："@ + name
}

/// How an archive entry is checked, in order: a portable relative path;
/// unique among the entries regardless of ASCII case; not a symbolic link;
/// then, unless it is the receipt file, a directory or file under
/// "mods/<id>/<version>/" with a valid ID and version.
pub open spec fn entry_problem(name: Seq<char>, is_dir: bool, mode: Option<u32>, seen: Set<Seq<char>>) -> Option<Seq<char>> {
    let parts = path_parts(name);
    if !valid_relative_path(name) {
        Some(invalid_path_message(name))
    } else if seen.contains(ascii_lower(name)) {
        Some("ZIP 包内路径重复："@ + name)
    } else if symlink_mode(mode) {
        Some("ZIP 包不支持符号链接："@ + name)
    } else if name == "pack.toml"@ && !is_dir {
        None
    } else if parts[0] != "mods"@ || (!is_dir && parts.len() < 4) {
        Some(layout_message(name))
    } else if parts.len() > 1 && !valid_id(parts[1]) {
        Some(invalid_id_message(parts[1]))
    } else {
        None
    }
}

/// The version directory of an entry that passed the other checks, when it
/// has one.
pub open spec fn entry_version(name: Seq<char>) -> Option<Seq<char>> {
    if path_parts(name).len() > 2 {
        Some(path_parts(name)[2])
    } else {
        None
    }
}

/// The '/'-separated parts of `s`.
fn split_parts(s: &str) -> (r: Vec<String>)
    ensures
        crate::text::string_views(r@) == path_parts(s@),
{
    let chars = chars_of(s);
    let mut done: Vec<String> = Vec::new();
    let mut part: Vec<char> = Vec::new();
    let mut i: usize = 0;
    proof {
        assert(chars@.subrange(0, 0) =~= Seq::<char>::empty());
        assert(crate::text::string_views(done@).push(part@) =~= seq![Seq::<char>::empty()]);
    }
    while i < chars.len()
        invariant
            chars@ == s@,
            i <= chars@.len(),
            crate::text::string_views(done@).push(part@) == path_parts(chars@.subrange(0, i as int)),
        decreases chars.len() - i,
    {
        let c = chars[i];
        let ghost prefix = chars@.subrange(0, i as int);
        proof {
            assert(chars@.subrange(0, i + 1).drop_last() =~= prefix);
        }
        if c == '/' {
            let ghost before = done@;
            done.push(string_of(&part));
            part = Vec::new();
            proof {
                assert(crate::text::string_views(done@) =~= crate::text::string_views(before).push(crate::text::string_views(done@).last()));
            }
        } else {
            let ghost before = part@;
            part.push(c);
            proof {
                assert(crate::text::string_views(done@).push(part@) =~= crate::text::string_views(done@).push(before).update(
                    crate::text::string_views(done@).len() as int,
                    before.push(c),
                ));
            }
        }
        i = i + 1;
    }
    proof {
        assert(chars@.subrange(0, chars@.len() as int) =~= chars@);
    }
    let ghost before = done@;
    done.push(string_of(&part));
    proof {
        assert(crate::text::string_views(done@) =~= crate::text::string_views(before).push(part@));
    }
    done
}

/// `s` with ASCII letters in lower case.
fn lower_ascii(s: &Vec<char>) -> (r: String)
    ensures
        r@ == ascii_lower(s@),
{
    let mut out: Vec<char> = Vec::new();
    let mut i: usize = 0;
    while i < s.len()
        invariant
            i <= s@.len(),
            out@ == ascii_lower(s@.subrange(0, i as int)),
        decreases s.len() - i,
    {
        let c = s[i];
        let lower = if 'A' <= c && c <= 'Z' {
            let code = (c as u8) + 32;
            code as char
        } else {
            c
        };
        proof {
            assert(ascii_lower(s@.subrange(0, i + 1)) =~= ascii_lower(s@.subrange(0, i as int)).push(lower));
        }
        out.push(lower);
        i = i + 1;
    }
    proof {
        assert(s@.subrange(0, s@.len() as int) =~= s@);
    }
    string_of(&out)
}

/// `s` without its trailing '/' characters.
fn without_trailing_slashes(s: &str) -> (r: String)
    ensures
        r@ == trim_slashes(s@),
{
    let chars = chars_of(s);
    let mut k: usize = chars.len();
    proof {
        assert(chars@.subrange(0, k as int) =~= s@);
    }
    while k > 0 && chars[k - 1] == '/'
        invariant
            k <= chars@.len(),
            chars@ == s@,
            trim_slashes(chars@.subrange(0, k as int)) == trim_slashes(s@),
        decreases k,
    {
        proof {
            assert(chars@.subrange(0, k as int).drop_last() =~= chars@.subrange(0, k - 1));
        }
        k = k - 1;
    }
    let mut out: Vec<char> = Vec::new();
    let mut i: usize = 0;
    while i < k
        invariant
            i <= k,
            k <= chars@.len(),
            out@ == chars@.subrange(0, i as int),
        decreases k - i,
    {
        out.push(chars[i]);
        proof {
            assert(chars@.subrange(0, i + 1) =~= chars@.subrange(0, i as int).push(chars@[i as int]));
        }
        i = i + 1;
    }
    string_of(&out)
}

/// What an accepted archive entry is.
#[derive(Debug)]
pub enum ArchiveEntry {
    /// The export receipt, pack.toml.
    Receipt,
    /// A package directory or file to extract.
    Extract,
}

/// Checks one archive entry before import. `seen` collects the entries'
/// names in lower case, so that two entries differing only in ASCII case
/// are refused.
pub fn check_archive_entry(name: &str, is_dir: bool, unix_mode: Option<u32>, seen: &mut IdSet) -> (r: Result<
    ArchiveEntry,
    String,
>)
    ensures
        ({
            let trimmed = trim_slashes(name@);
            &&& entry_problem(trimmed, is_dir, unix_mode, old(seen)@) matches Some(m) ==> (r matches Err(e) && e@ == m)
            &&& entry_problem(trimmed, is_dir, unix_mode, old(seen)@) is None ==> (r is Ok <==> (trimmed == "pack.toml"@
                && !is_dir || !(entry_version(trimmed) matches Some(v) && !semver_version_valid(v))))
            &&& r matches Ok(e) ==> (e is Receipt <==> trimmed == "pack.toml"@ && !is_dir)
            &&& valid_relative_path(trimmed) ==> final(seen)@ == old(seen)@.insert(ascii_lower(trimmed))
            &&& !valid_relative_path(trimmed) ==> final(seen)@ == old(seen)@
        }),
{
    let trimmed = without_trailing_slashes(name);
    let checked = relative_path(trimmed.as_str());
    match checked {
        Ok(_) => {},
        Err(message) => {
            return Err(message);
        },
    }
    let chars = chars_of(trimmed.as_str());
    let lower = lower_ascii(&chars);
    let ghost before = *seen;
    let repeated = seen.contains(lower.as_str());
    seen.insert(lower);
    proof {
        assert(seen@ =~= before@.insert(ascii_lower(trimmed@)));
    }
    if repeated {
        let mut out: Vec<char> = Vec::new();
        push_str(&mut out, "ZIP 包内路径重复：");
        push_str(&mut out, trimmed.as_str());
        return Err(string_of(&out));
    }
    match unix_mode {
        Some(mode) => {
            if mode & 0o170000u32 == 0o120000u32 {
                let mut out: Vec<char> = Vec::new();
                push_str(&mut out, "ZIP 包不支持符号链接：");
                push_str(&mut out, trimmed.as_str());
                return Err(string_of(&out));
            }
        },
        None => {},
    }
    if crate::text::same_text(trimmed.as_str(), "pack.toml") && !is_dir {
        return Ok(ArchiveEntry::Receipt);
    }
    let parts = split_parts(trimmed.as_str());
    proof {
        crate::manifest::lemma_parts_exist(trimmed@);
        assert(parts@[0]@ == path_parts(trimmed@)[0]);
    }
    if !crate::text::same_text(parts[0].as_str(), "mods") || (!is_dir && parts.len() < 4) {
        let mut out: Vec<char> = Vec::new();
        push_str(&mut out, "ZIP 包内路径必须采用 mods/id/version/file 格式：");
        push_str(&mut out, trimmed.as_str());
        return Err(string_of(&out));
    }
    if parts.len() > 1 {
        proof {
            assert(parts@[1]@ == path_parts(trimmed@)[1]);
        }
        validate_id(parts[1].as_str())?;
    }
    if parts.len() > 2 {
        proof {
            assert(parts@[2]@ == path_parts(trimmed@)[2]);
        }
        match Version::parse(parts[2].as_str()) {
            Ok(_) => {},
            Err(error) => {
                let mut out: Vec<char> = Vec::new();
                push_str(&mut out, "Mod 包目录中的版本号无效：");
                push_str(&mut out, error.as_str());
                return Err(string_of(&out));
            },
        }
    }
    Ok(ArchiveEntry::Extract)
}

/// Candidate `i` cannot be exported: its manifest has a problem, or an
/// earlier candidate is another version of the same Mod.
pub open spec fn export_refused(selected: Seq<Candidate>, i: int) -> bool {
    manifest_problem(selected[i].manifest) is Some || exists|k: int|
        0 <= k < i && (#[trigger] selected[k]).manifest.id@ == selected[i].manifest.id@
}

/// Why candidate `i` cannot be exported.
pub open spec fn export_message(selected: Seq<Candidate>, i: int) -> Seq<char> {
    match manifest_problem(selected[i].manifest) {
        Some(m) => m,
        None => selected[i].manifest.id@ + "：每个 Mod 只能选择一个版本导出"@,
    }
}

/// The receipt for exporting exactly `selected`: one entry per candidate,
/// in order, marking built-in ones. Refuses the first candidate that cannot
/// be exported.
pub fn plan_export(selected: &Vec<Candidate>) -> (r: Result<Pack, String>)
    ensures
        (forall|i: int| 0 <= i < selected@.len() ==> !export_refused(selected@, i)) <==> r is Ok,
        r matches Err(m) ==> exists|i: int|
            0 <= i < selected@.len() && export_refused(selected@, i) && m@ == export_message(selected@, i)
                && forall|k: int| 0 <= k < i ==> !export_refused(selected@, k),
        r matches Ok(p) ==> p.schema == 1 && p.mods@.len() == selected@.len() && forall|i: int|
            0 <= i < selected@.len() ==> (#[trigger] p.mods@[i]).id@ == selected@[i].manifest.id@
                && p.mods@[i].version == selected@[i].manifest.version
                && p.mods@[i].builtin == (selected@[i].source == Source::Builtin),
{
    let mut ids = IdSet::new();
    let mut mods: Vec<PackEntry> = Vec::new();
    let mut i: usize = 0;
    while i < selected.len()
        invariant
            i <= selected@.len(),
            forall|k: int| 0 <= k < i ==> !export_refused(selected@, k),
            forall|x: Seq<char>| ids.has(x) <==> exists|k: int| 0 <= k < i && (#[trigger] selected@[k]).manifest.id@ == x,
            mods@.len() == i,
            forall|k: int| 0 <= k < i ==> (#[trigger] mods@[k]).id@ == selected@[k].manifest.id@
                && mods@[k].version == selected@[k].manifest.version
                && mods@[k].builtin == (selected@[k].source == Source::Builtin),
        decreases selected.len() - i,
    {
        let manifest = &selected[i].manifest;
        match manifest.validate() {
            Ok(()) => {},
            Err(message) => {
                proof {
                    assert(export_refused(selected@, i as int));
                    assert(message@ == export_message(selected@, i as int));
                }
                return Err(message);
            },
        }
        if ids.contains(manifest.id.as_str()) {
            let mut out: Vec<char> = Vec::new();
            push_str(&mut out, manifest.id.as_str());
            push_str(&mut out, "：每个 Mod 只能选择一个版本导出");
            proof {
                let k = choose|k: int| 0 <= k < i && (#[trigger] selected@[k]).manifest.id@ == manifest.id@;
                assert(export_refused(selected@, i as int));
            }
            return Err(string_of(&out));
        }
        let ghost before = ids;
        ids.insert(manifest.id.clone());
        proof {
            assert forall|x: Seq<char>| ids.has(x) <==> exists|k: int| 0 <= k < i + 1 && (#[trigger] selected@[k]).manifest.id@ == x by {
                if x != manifest.id@ {
                    if exists|k: int| 0 <= k < i + 1 && (#[trigger] selected@[k]).manifest.id@ == x {
                        let k = choose|k: int| 0 <= k < i + 1 && (#[trigger] selected@[k]).manifest.id@ == x;
                        assert(k < i);
                    }
                }
            }
        }
        let builtin = match &selected[i].source {
            Source::Builtin => true,
            Source::Directory(_) => false,
        };
        mods.push(PackEntry { id: manifest.id.clone(), version: manifest.version.duplicate(), builtin });
        i = i + 1;
    }
    Ok(Pack { schema: 1, mods })
}

/// "mods/<id>/<version>": where a package's files are stored in an archive.
pub fn package_prefix(id: &str, version: &Version) -> (r: String)
    ensures
        r@ == "mods/"@ + id@ + "/"@ + version@,
{
    let mut out: Vec<char> = Vec::new();
    push_str(&mut out, "mods/");
    push_str(&mut out, id);
    push_str(&mut out, "/");
    push_str(&mut out, version.as_str());
    string_of(&out)
}

/// Whether an import finds nothing to install: no packages in the archive,
/// and no receipt that lists only built-in Mods.
pub fn nothing_to_import(found: usize, pack: &Option<Pack>) -> (r: bool)
    ensures
        r == (found == 0 && match pack {
            None => true,
            Some(p) => p.mods@.len() == 0 || exists|i: int| 0 <= i < p.mods@.len() && !(#[trigger] p.mods@[i]).builtin,
        }),
{
    let listed = match pack {
        None => {
            return found == 0;
        },
        Some(p) => &p.mods,
    };
    let mut external = false;
    let mut i: usize = 0;
    while i < listed.len()
        invariant
            i <= listed@.len(),
            external == exists|k: int| 0 <= k < i && !(#[trigger] listed@[k]).builtin,
        decreases listed.len() - i,
    {
        if !listed[i].builtin {
            external = true;
        }
        i = i + 1;
    }
    found == 0 && (listed.len() == 0 || external)
}

} // verus!
