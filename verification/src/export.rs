//! Names for exported resources: which bytes a node exports, what the file is
//! called, and how collisions are numbered without exceeding filename limits.

use vstd::prelude::*;
use crate::text::{
    chars_of, decimal, decimal_digits, pad_with_zeros, pad_zeros, push_chars, push_str,
    string_of, upper_hex, upper_hex_digits, zero_padded, zero_padded_decimal,
};

verus! {

/// The format of an inspected resource.
#[derive(Clone, Copy, Debug, PartialEq, Eq, Structural)]
pub enum ResourceKind {
    Unknown,
    Ecd,
    Block,
    Track,
    Momo,
    Mha,
    Txb,
    Fmod,
    Fskl,
    Motion,
    MotionArchive,
    Png,
    Dds,
    Ogg,
}

/// The file extension of each standalone resource format. A generic offset
/// directory has no reliable suffix without its original filename.
pub open spec fn extension_of(kind: ResourceKind) -> Option<Seq<char>> {
    match kind {
        ResourceKind::Momo => Some("momo"@),
        ResourceKind::Mha => Some("mha"@),
        ResourceKind::Txb => Some("txb"@),
        ResourceKind::Fmod => Some("fmod"@),
        ResourceKind::Fskl => Some("fskl"@),
        ResourceKind::Motion => Some("mot"@),
        ResourceKind::MotionArchive => Some("mot"@),
        ResourceKind::Png => Some("png"@),
        ResourceKind::Dds => Some("dds"@),
        ResourceKind::Ogg => Some("ogg"@),
        _ => None,
    }
}

/// The short label of each format, used in fragment names.
pub open spec fn label_of(kind: ResourceKind) -> Seq<char> {
    match kind {
        ResourceKind::Unknown => "unknown"@,
        ResourceKind::Ecd => "ecd"@,
        ResourceKind::Block => "block"@,
        ResourceKind::Track => "track"@,
        ResourceKind::Momo => "momo"@,
        ResourceKind::Mha => "mha"@,
        ResourceKind::Txb => "txb"@,
        ResourceKind::Fmod => "fmod"@,
        ResourceKind::Fskl => "fskl"@,
        ResourceKind::Motion => "motion"@,
        ResourceKind::MotionArchive => "motion-archive"@,
        ResourceKind::Png => "png"@,
        ResourceKind::Dds => "dds"@,
        ResourceKind::Ogg => "ogg"@,
    }
}

impl ResourceKind {
    /// The short label of this format.
    pub fn label(self) -> (r: &'static str)
        ensures
            r@ == label_of(self),
    {
        proof {
            reveal_strlit("unknown");
            reveal_strlit("ecd");
            reveal_strlit("block");
            reveal_strlit("track");
            reveal_strlit("momo");
            reveal_strlit("mha");
            reveal_strlit("txb");
            reveal_strlit("fmod");
            reveal_strlit("fskl");
            reveal_strlit("motion");
            reveal_strlit("motion-archive");
            reveal_strlit("png");
            reveal_strlit("dds");
            reveal_strlit("ogg");
        }
        match self {
            ResourceKind::Unknown => "unknown",
            ResourceKind::Ecd => "ecd",
            ResourceKind::Block => "block",
            ResourceKind::Track => "track",
            ResourceKind::Momo => "momo",
            ResourceKind::Mha => "mha",
            ResourceKind::Txb => "txb",
            ResourceKind::Fmod => "fmod",
            ResourceKind::Fskl => "fskl",
            ResourceKind::Motion => "motion",
            ResourceKind::MotionArchive => "motion-archive",
            ResourceKind::Png => "png",
            ResourceKind::Dds => "dds",
            ResourceKind::Ogg => "ogg",
        }
    }
}

/// The file extension of a standalone resource format, if it has one.
pub fn resource_extension(kind: ResourceKind) -> (r: Option<&'static str>)
    ensures
        r matches Some(e) ==> extension_of(kind) == Some(e@),
        r is None ==> extension_of(kind) is None,
{
    proof {
        reveal_strlit("momo");
        reveal_strlit("mha");
        reveal_strlit("txb");
        reveal_strlit("fmod");
        reveal_strlit("fskl");
        reveal_strlit("mot");
        reveal_strlit("png");
        reveal_strlit("dds");
        reveal_strlit("ogg");
    }
    match kind {
        ResourceKind::Momo => Some("momo"),
        ResourceKind::Mha => Some("mha"),
        ResourceKind::Txb => Some("txb"),
        ResourceKind::Fmod => Some("fmod"),
        ResourceKind::Fskl => Some("fskl"),
        ResourceKind::Motion => Some("mot"),
        ResourceKind::MotionArchive => Some("mot"),
        ResourceKind::Png => Some("png"),
        ResourceKind::Dds => Some("dds"),
        ResourceKind::Ogg => Some("ogg"),
        _ => None,
    }
}

// ---------------------------------------------------------------------------
// Path pieces
// ---------------------------------------------------------------------------

/// Either path separator of the game's platform.
pub open spec fn is_separator(c: char) -> bool {
    c == '/' || c == '\\'
}

/// The text after the last separator (all of `s` when it has none).
pub open spec fn after_last_separator(s: Seq<char>) -> Seq<char>
    decreases s.len(),
{
    if s.len() == 0 {
        s
    } else if is_separator(s.last()) {
        Seq::empty()
    } else {
        after_last_separator(s.drop_last()).push(s.last())
    }
}

/// The text after the last '/' (all of `s` when it has none).
pub open spec fn after_last_slash(s: Seq<char>) -> Seq<char>
    decreases s.len(),
{
    if s.len() == 0 {
        s
    } else if s.last() == '/' {
        Seq::empty()
    } else {
        after_last_slash(s.drop_last()).push(s.last())
    }
}

/// Removes what path normalization ignores at the end of a path: trailing
/// slashes, trailing "." components, and a lone ".".
pub open spec fn strip_trailing(p: Seq<char>) -> Seq<char>
    decreases p.len(),
{
    if p.len() > 0 && p.last() == '/' {
        strip_trailing(p.drop_last())
    } else if p.len() >= 2 && p.last() == '.' && p[p.len() - 2] == '/' {
        strip_trailing(p.drop_last())
    } else if p == seq!['.'] {
        Seq::empty()
    } else {
        p
    }
}

/// The final normal component of a '/'-separated path, as `Path::file_name`
/// reports it: none for an empty path, the root, "." or a trailing "..".
pub open spec fn file_name_of(p: Seq<char>) -> Option<Seq<char>> {
    let segment = after_last_slash(strip_trailing(p));
    if segment.len() == 0 || segment == seq!['.', '.'] {
        None
    } else {
        Some(segment)
    }
}

/// The index of the last '.' in `s`, if any.
pub open spec fn last_dot(s: Seq<char>) -> Option<int>
    decreases s.len(),
{
    if s.len() == 0 {
        None
    } else if s.last() == '.' {
        Some(s.len() - 1)
    } else {
        last_dot(s.drop_last())
    }
}

/// The stem of a file name: the text before its final '.', or the whole name
/// when it has no '.' or its only leading '.' starts the name.
pub open spec fn stem_of_name(file: Seq<char>) -> Seq<char> {
    match last_dot(file) {
        Some(k) => if k == 0 {
            file
        } else {
            file.subrange(0, k)
        },
        None => file,
    }
}

/// The extension of a file name: the text after its final '.', if that '.'
/// does not start the name.
pub open spec fn extension_of_name(file: Seq<char>) -> Option<Seq<char>> {
    match last_dot(file) {
        Some(k) => if k == 0 {
            None
        } else {
            Some(file.subrange(k + 1, file.len() as int))
        },
        None => None,
    }
}

/// `Path::file_stem`, as text; empty when there is no file name.
pub open spec fn path_stem(p: Seq<char>) -> Seq<char> {
    match file_name_of(p) {
        Some(f) => stem_of_name(f),
        None => Seq::empty(),
    }
}

/// `Path::extension`, as text.
pub open spec fn path_extension(p: Seq<char>) -> Option<Seq<char>> {
    match file_name_of(p) {
        Some(f) => extension_of_name(f),
        None => None,
    }
}

/// A separator-free name with its extension replaced by `ext`, as
/// `PathBuf::set_extension` does; names without a file name are unchanged.
pub open spec fn with_extension(name: Seq<char>, ext: Seq<char>) -> Seq<char> {
    match file_name_of(name) {
        Some(f) => if ext.len() == 0 {
            stem_of_name(f)
        } else {
            stem_of_name(f) + seq!['.'] + ext
        },
        None => name,
    }
}

proof fn lemma_after_last_prefix(s: Seq<char>, start: int, i: int)
    requires
        0 <= start <= i < s.len(),
        after_last_separator(s.subrange(0, i)) == s.subrange(start, i),
    ensures
        is_separator(s[i]) ==> after_last_separator(s.subrange(0, i + 1)) == s.subrange(i + 1, i + 1),
        !is_separator(s[i]) ==> after_last_separator(s.subrange(0, i + 1)) == s.subrange(start, i + 1),
{
    assert(s.subrange(0, i + 1).drop_last() =~= s.subrange(0, i));
    assert(s.subrange(i + 1, i + 1) =~= Seq::<char>::empty());
    assert(s.subrange(start, i).push(s[i]) =~= s.subrange(start, i + 1));
}

/// The text after the last '/' or '\\'.
fn last_segment(s: &Vec<char>) -> (r: Vec<char>)
    ensures
        r@ == after_last_separator(s@),
{
    let mut start: usize = 0;
    let mut i: usize = 0;
    assert(s@.subrange(0, 0) =~= Seq::<char>::empty());
    assert(s@.subrange(0, 0) =~= s@.subrange(0, 0));
    while i < s.len()
        invariant
            start <= i <= s@.len(),
            after_last_separator(s@.subrange(0, i as int)) == s@.subrange(start as int, i as int),
        decreases s.len() - i,
    {
        proof {
            lemma_after_last_prefix(s@, start as int, i as int);
        }
        if s[i] == '/' || s[i] == '\\' {
            start = i + 1;
        }
        i = i + 1;
    }
    assert(s@.subrange(0, s@.len() as int) =~= s@);
    let mut r: Vec<char> = Vec::new();
    let mut j: usize = start;
    while j < s.len()
        invariant
            start <= j <= s@.len(),
            r@ == s@.subrange(start as int, j as int),
        decreases s.len() - j,
    {
        r.push(s[j]);
        j = j + 1;
    }
    r
}

proof fn lemma_after_last_slash_prefix(s: Seq<char>, start: int, i: int)
    requires
        0 <= start <= i < s.len(),
        after_last_slash(s.subrange(0, i)) == s.subrange(start, i),
    ensures
        s[i] == '/' ==> after_last_slash(s.subrange(0, i + 1)) == s.subrange(i + 1, i + 1),
        s[i] != '/' ==> after_last_slash(s.subrange(0, i + 1)) == s.subrange(start, i + 1),
{
    assert(s.subrange(0, i + 1).drop_last() =~= s.subrange(0, i));
    assert(s.subrange(i + 1, i + 1) =~= Seq::<char>::empty());
    assert(s.subrange(start, i).push(s[i]) =~= s.subrange(start, i + 1));
}

/// The final component of a '/'-separated path, if it names a file.
fn file_name(p: &Vec<char>) -> (r: Option<Vec<char>>)
    ensures
        r matches Some(f) ==> file_name_of(p@) == Some(f@) && f@.len() <= p@.len(),
        r is None ==> file_name_of(p@) is None,
{
    // Strip what normalization ignores at the end.
    let mut end: usize = p.len();
    assert(p@.subrange(0, end as int) =~= p@);
    loop
        invariant
            end <= p@.len(),
            strip_trailing(p@) == strip_trailing(p@.subrange(0, end as int)),
        ensures
            end <= p@.len(),
            strip_trailing(p@) == p@.subrange(0, end as int),
        decreases end,
    {
        let ghost q = p@.subrange(0, end as int);
        if end > 0 && p[end - 1] == '/' {
            assert(q.drop_last() =~= p@.subrange(0, end - 1));
            end = end - 1;
        } else if end >= 2 && p[end - 1] == '.' && p[end - 2] == '/' {
            assert(q.drop_last() =~= p@.subrange(0, end - 1));
            end = end - 1;
        } else if end == 1 && p[0] == '.' {
            assert(q =~= seq!['.']);
            assert(strip_trailing(q) =~= Seq::<char>::empty());
            assert(strip_trailing(p@.subrange(0, 0)) =~= Seq::<char>::empty());
            end = 0;
            assert(p@.subrange(0, 0) =~= Seq::<char>::empty());
            break;
        } else {
            if end == 1 {
                assert(q != seq!['.']) by {
                    if q =~= seq!['.'] {
                        assert(q[0] == p[0]);
                    }
                }
            }
            if end == 0 {
                assert(q =~= Seq::<char>::empty());
            }
            assert(strip_trailing(q) == q);
            break;
        }
    }
    let ghost stripped = p@.subrange(0, end as int);
    // The last segment of what remains.
    let mut start: usize = 0;
    let mut i: usize = 0;
    assert(stripped.subrange(0, 0) =~= Seq::<char>::empty());
    while i < end
        invariant
            start <= i <= end,
            end <= p@.len(),
            stripped == p@.subrange(0, end as int),
            after_last_slash(stripped.subrange(0, i as int)) == stripped.subrange(start as int, i as int),
        decreases end - i,
    {
        proof {
            lemma_after_last_slash_prefix(stripped, start as int, i as int);
        }
        if p[i] == '/' {
            start = i + 1;
        }
        i = i + 1;
    }
    assert(stripped.subrange(0, end as int) =~= stripped);
    let mut segment: Vec<char> = Vec::new();
    let mut j: usize = start;
    while j < end
        invariant
            start <= j <= end,
            end <= p@.len(),
            segment@ == p@.subrange(start as int, j as int),
        decreases end - j,
    {
        segment.push(p[j]);
        j = j + 1;
    }
    assert(segment@ =~= stripped.subrange(start as int, end as int));
    if segment.len() == 0 || (segment.len() == 2 && segment[0] == '.' && segment[1] == '.') {
        if segment.len() == 2 {
            assert(segment@ =~= seq!['.', '.']);
        }
        None
    } else {
        assert(segment@ != seq!['.', '.']) by {
            if segment@ =~= seq!['.', '.'] {
                assert(segment@[0] == '.' && segment@[1] == '.');
            }
        }
        Some(segment)
    }
}

proof fn lemma_last_dot_prefix(s: Seq<char>, i: int)
    requires
        0 <= i < s.len(),
    ensures
        s[i] == '.' ==> last_dot(s.subrange(0, i + 1)) == Some(i),
        s[i] != '.' ==> last_dot(s.subrange(0, i + 1)) == last_dot(s.subrange(0, i)),
{
    assert(s.subrange(0, i + 1).drop_last() =~= s.subrange(0, i));
}

/// The index of the last '.' in `s`.
fn find_last_dot(s: &Vec<char>) -> (r: Option<usize>)
    ensures
        r matches Some(k) ==> last_dot(s@) == Some(k as int) && k < s@.len(),
        r is None ==> last_dot(s@) is None,
{
    let mut found: Option<usize> = None;
    let mut i: usize = 0;
    while i < s.len()
        invariant
            i <= s@.len(),
            found matches Some(k) ==> last_dot(s@.subrange(0, i as int)) == Some(k as int) && k < i,
            found is None ==> last_dot(s@.subrange(0, i as int)) is None,
        decreases s.len() - i,
    {
        proof {
            lemma_last_dot_prefix(s@, i as int);
        }
        if s[i] == '.' {
            found = Some(i);
        }
        i = i + 1;
    }
    assert(s@.subrange(0, s@.len() as int) =~= s@);
    found
}

fn copy_range(s: &Vec<char>, from: usize, to: usize) -> (r: Vec<char>)
    requires
        from <= to <= s@.len(),
    ensures
        r@ == s@.subrange(from as int, to as int),
{
    let mut r: Vec<char> = Vec::new();
    let mut j: usize = from;
    while j < to
        invariant
            from <= j <= to,
            to <= s@.len(),
            r@ == s@.subrange(from as int, j as int),
        decreases to - j,
    {
        r.push(s[j]);
        j = j + 1;
    }
    r
}

/// The stem and extension of a file name.
fn split_name(file: &Vec<char>) -> (r: (Vec<char>, Option<Vec<char>>))
    ensures
        r.0@ == stem_of_name(file@),
        r.1 matches Some(e) ==> extension_of_name(file@) == Some(e@) && e@.len() + 1 < file@.len(),
        r.1 is None ==> extension_of_name(file@) is None,
{
    let n = file.len();
    match find_last_dot(file) {
        Some(k) => {
            if k == 0 {
                (file.clone(), None)
            } else {
                (copy_range(file, 0, k), Some(copy_range(file, k + 1, n)))
            }
        },
        None => (file.clone(), None),
    }
}

/// A separator-free name with its extension replaced.
fn replace_extension(name: &Vec<char>, ext: &str) -> (r: Vec<char>)
    ensures
        r@ == with_extension(name@, ext@),
{
    match file_name(name) {
        Some(f) => {
            let (mut stem, _) = split_name(&f);
            let ext_chars = chars_of(ext);
            if ext_chars.len() > 0 {
                stem.push('.');
                push_chars(&mut stem, &ext_chars);
            }
            stem
        },
        None => name.clone(),
    }
}

// ---------------------------------------------------------------------------
// Safe names
// ---------------------------------------------------------------------------

/// Control characters (general category Cc).
pub open spec fn is_control(c: char) -> bool {
    (c as u32) <= 0x1f || (0x7f <= (c as u32) && (c as u32) <= 0x9f)
}

/// Characters that a Windows filename cannot hold.
pub open spec fn forbidden_in_name(c: char) -> bool {
    is_control(c) || c == '<' || c == '>' || c == ':' || c == '"' || c == '|' || c == '?' || c
        == '*'
}

/// Each forbidden character replaced by '_'.
pub open spec fn replace_forbidden(s: Seq<char>) -> Seq<char> {
    s.map_values(|c: char| if forbidden_in_name(c) { '_' } else { c })
}

/// `s` without trailing dots and spaces.
pub open spec fn trim_dots_spaces(s: Seq<char>) -> Seq<char>
    decreases s.len(),
{
    if s.len() > 0 && (s.last() == '.' || s.last() == ' ') {
        trim_dots_spaces(s.drop_last())
    } else {
        s
    }
}

/// Unicode White_Space characters, which `char::is_whitespace` reports.
pub open spec fn is_white_space(c: char) -> bool {
    let u = c as u32;
    (0x09 <= u && u <= 0x0d) || u == 0x20 || u == 0x85 || u == 0xa0 || u == 0x1680 || (0x2000 <= u
        && u <= 0x200a) || u == 0x2028 || u == 0x2029 || u == 0x202f || u == 0x205f || u == 0x3000
}

/// `s` without trailing white space.
pub open spec fn trim_white_end(s: Seq<char>) -> Seq<char>
    decreases s.len(),
{
    if s.len() > 0 && is_white_space(s.last()) {
        trim_white_end(s.drop_last())
    } else {
        s
    }
}

/// The text before the first '.'.
pub open spec fn before_first_dot(s: Seq<char>) -> Seq<char>
    decreases s.len(),
{
    if s.len() == 0 || s[0] == '.' {
        Seq::empty()
    } else {
        seq![s[0]] + before_first_dot(s.drop_first())
    }
}

/// ASCII letters in upper case; every other character unchanged.
pub open spec fn ascii_upper(s: Seq<char>) -> Seq<char> {
    s.map_values(|c: char| if 'a' <= c && c <= 'z' { ((c as u32) - 32) as char } else { c })
}

/// The device name that Windows would read from a file name.
pub open spec fn device_of(name: Seq<char>) -> Seq<char> {
    ascii_upper(trim_white_end(before_first_dot(name)))
}

/// The digits that follow COM or LPT in a reserved port name.
pub open spec fn port_number(s: Seq<char>) -> bool {
    s.len() == 1 && (('1' <= s[0] && s[0] <= '9') || s[0] == '¹' || s[0] == '²' || s[0] == '³')
}

/// Names that Windows reserves for devices.
pub open spec fn reserved_device(d: Seq<char>) -> bool {
    d == "CON"@ || d == "PRN"@ || d == "AUX"@ || d == "NUL"@ || d == "CONIN$"@ || d == "CONOUT$"@
        || (d.len() >= 3 && (d.subrange(0, 3) == "COM"@ || d.subrange(0, 3) == "LPT"@) && port_number(
        d.subrange(3, d.len() as int),
    ))
}

/// A name that can be created in one directory without escaping it, naming
/// a device, or being altered by Windows.
pub open spec fn safe_name(name: Seq<char>) -> Seq<char> {
    let cleaned = trim_dots_spaces(replace_forbidden(after_last_separator(name)));
    let named = if cleaned.len() == 0 {
        "resource"@
    } else {
        cleaned
    };
    if reserved_device(device_of(named)) {
        seq!['_'] + named
    } else {
        named
    }
}

fn trim_trailing_dots_spaces(s: &mut Vec<char>)
    ensures
        final(s)@ == trim_dots_spaces(old(s)@),
{
    while s.len() > 0 && (s[s.len() - 1] == '.' || s[s.len() - 1] == ' ')
        invariant
            trim_dots_spaces(s@) == trim_dots_spaces(old(s)@),
        decreases s@.len(),
    {
        s.pop();
    }
}

fn is_white(c: char) -> (r: bool)
    ensures
        r == is_white_space(c),
{
    let u = c as u32;
    (0x09 <= u && u <= 0x0d) || u == 0x20 || u == 0x85 || u == 0xa0 || u == 0x1680 || (0x2000 <= u
        && u <= 0x200a) || u == 0x2028 || u == 0x2029 || u == 0x202f || u == 0x205f || u == 0x3000
}

proof fn lemma_before_first_dot(s: Seq<char>, i: int)
    requires
        0 <= i <= s.len(),
        forall|j: int| 0 <= j < i ==> s[j] != '.',
        i == s.len() || s[i] == '.',
    ensures
        before_first_dot(s) == s.subrange(0, i),
    decreases i,
{
    if i == 0 {
        assert(s.subrange(0, 0) =~= Seq::<char>::empty());
    } else {
        lemma_before_first_dot(s.drop_first(), i - 1);
        assert(seq![s[0]] + s.drop_first().subrange(0, i - 1) =~= s.subrange(0, i));
    }
}

/// The device name Windows reads from `name`.
fn device_name(name: &Vec<char>) -> (r: Vec<char>)
    ensures
        r@ == device_of(name@),
{
    let mut i: usize = 0;
    while i < name.len() && name[i] != '.'
        invariant
            i <= name@.len(),
            forall|j: int| 0 <= j < i ==> name@[j] != '.',
        decreases name.len() - i,
    {
        i = i + 1;
    }
    proof {
        lemma_before_first_dot(name@, i as int);
    }
    let mut d = copy_range(name, 0, i);
    while d.len() > 0 && is_white(d[d.len() - 1])
        invariant
            trim_white_end(d@) == trim_white_end(before_first_dot(name@)),
        decreases d@.len(),
    {
        d.pop();
    }
    let mut upper: Vec<char> = Vec::new();
    let mut k: usize = 0;
    while k < d.len()
        invariant
            k <= d@.len(),
            trim_white_end(d@) == d@,
            d@ == trim_white_end(before_first_dot(name@)),
            upper@ == ascii_upper(d@).subrange(0, k as int),
        decreases d.len() - k,
    {
        let c = d[k];
        let u = if 'a' <= c && c <= 'z' {
            ((c as u32) - 32) as u8 as char
        } else {
            c
        };
        upper.push(u);
        assert(upper@ =~= ascii_upper(d@).subrange(0, k + 1));
        k = k + 1;
    }
    upper
}

fn equals_literal(a: &Vec<char>, b: &str) -> (r: bool)
    ensures
        r == (a@ == b@),
{
    let bc = chars_of(b);
    if a.len() != bc.len() {
        return false;
    }
    let mut i: usize = 0;
    while i < a.len()
        invariant
            bc@ == b@,
            a@.len() == bc@.len(),
            i <= a@.len(),
            forall|j: int| 0 <= j < i ==> a@[j] == bc@[j],
        decreases a.len() - i,
    {
        if a[i] != bc[i] {
            return false;
        }
        i = i + 1;
    }
    assert(a@ =~= bc@);
    true
}

fn is_reserved_device(d: &Vec<char>) -> (r: bool)
    ensures
        r == reserved_device(d@),
{
    if equals_literal(d, "CON") || equals_literal(d, "PRN") || equals_literal(d, "AUX")
        || equals_literal(d, "NUL") || equals_literal(d, "CONIN$") || equals_literal(d, "CONOUT$") {
        return true;
    }
    if d.len() < 3 {
        return false;
    }
    let head = copy_range(d, 0, 3);
    let rest = copy_range(d, 3, d.len());
    if !(equals_literal(&head, "COM") || equals_literal(&head, "LPT")) {
        return false;
    }
    rest.len() == 1 && (('1' <= rest[0] && rest[0] <= '9') || rest[0] == '¹' || rest[0] == '²'
        || rest[0] == '³')
}

/// A file name for exported bytes that stays inside the export directory:
/// only the last path component is kept, characters Windows forbids become
/// '_', trailing dots and spaces are removed, an empty result becomes
/// "resource", and device names such as CON or COM1 are prefixed with '_'.
/// The result is final: not empty, free of separators and forbidden
/// characters, ending in neither a dot nor a space, naming no device, and
/// unchanged by a second pass.
pub fn safe_filename(name: &str) -> (r: String)
    ensures
        r@ == safe_name(name@),
        r@.len() > 0,
        forall|i: int| 0 <= i < r@.len() ==> !is_separator(#[trigger] r@[i]) && !forbidden_in_name(r@[i]),
        r@.last() != '.' && r@.last() != ' ',
        !reserved_device(device_of(r@)),
        safe_name(r@) == r@,
{
    proof {
        safe_names_are_final(name@);
    }
    let all = chars_of(name);
    let segment = last_segment(&all);
    let mut cleaned: Vec<char> = Vec::new();
    let mut i: usize = 0;
    while i < segment.len()
        invariant
            i <= segment@.len(),
            cleaned@ == replace_forbidden(segment@).subrange(0, i as int),
        decreases segment.len() - i,
    {
        let c = segment[i];
        let u = c as u32;
        let bad = u <= 0x1f || (0x7f <= u && u <= 0x9f) || c == '<' || c == '>' || c == ':' || c
            == '"' || c == '|' || c == '?' || c == '*';
        cleaned.push(if bad { '_' } else { c });
        assert(cleaned@ =~= replace_forbidden(segment@).subrange(0, i + 1));
        i = i + 1;
    }
    assert(replace_forbidden(segment@).subrange(0, segment@.len() as int) =~= replace_forbidden(segment@));
    trim_trailing_dots_spaces(&mut cleaned);
    if cleaned.len() == 0 {
        push_str(&mut cleaned, "resource");
        proof {
            reveal_strlit("resource");
        }
        assert(cleaned@ =~= "resource"@);
    }
    let device = device_name(&cleaned);
    if is_reserved_device(&device) {
        let mut prefixed: Vec<char> = Vec::new();
        prefixed.push('_');
        push_chars(&mut prefixed, &cleaned);
        string_of(&prefixed)
    } else {
        string_of(&cleaned)
    }
}

// ---------------------------------------------------------------------------
// Numbered names
// ---------------------------------------------------------------------------

/// The UTF-16 code units of one character.
pub open spec fn utf16_units(c: char) -> nat {
    if (c as u32) > 0xffff {
        2
    } else {
        1
    }
}

/// The UTF-16 length of a string.
pub open spec fn utf16_len(s: Seq<char>) -> nat
    decreases s.len(),
{
    if s.len() == 0 {
        0
    } else {
        utf16_len(s.drop_last()) + utf16_units(s.last())
    }
}

/// The longest prefix of `s` that fits in `budget` UTF-16 code units.
pub open spec fn within_units(s: Seq<char>, budget: int) -> Seq<char>
    decreases s.len(),
{
    if s.len() == 0 || utf16_units(s[0]) > budget {
        Seq::empty()
    } else {
        seq![s[0]] + within_units(s.drop_first(), budget - utf16_units(s[0]))
    }
}

/// The longest name a collision number and extension leave room for.
pub const NAME_UNITS: usize = 255;

/// "-<index padded to three digits>" for collisions, nothing for the first.
pub open spec fn collision_suffix(index: nat) -> Seq<char> {
    if index == 0 {
        Seq::empty()
    } else {
        seq!['-'] + zero_padded(index, 3)
    }
}

/// ".<extension>" when the name has one.
pub open spec fn dotted_extension(name: Seq<char>) -> Seq<char> {
    match path_extension(name) {
        Some(e) => seq!['.'] + e,
        None => Seq::empty(),
    }
}

/// The name of the `index`th file exported under `name`: its stem cut to fit
/// the filename limit, the collision suffix, then its extension.
pub open spec fn numbered_name(name: Seq<char>, index: nat) -> Seq<char> {
    let ext = dotted_extension(name);
    let suffix = collision_suffix(index);
    let budget = NAME_UNITS as int - (utf16_len(ext) + suffix.len());
    let budget = if budget < 0 {
        0
    } else {
        budget
    };
    within_units(path_stem(name), budget) + suffix + ext
}

proof fn lemma_utf16_len_push(s: Seq<char>, c: char)
    ensures
        utf16_len(s.push(c)) == utf16_len(s) + utf16_units(c),
{
    assert(s.push(c).drop_last() =~= s);
}

proof fn lemma_utf16_len_concat(a: Seq<char>, b: Seq<char>)
    ensures
        utf16_len(a + b) == utf16_len(a) + utf16_len(b),
    decreases b.len(),
{
    if b.len() == 0 {
        assert(a + b =~= a);
    } else {
        lemma_utf16_len_concat(a, b.drop_last());
        assert((a + b).drop_last() =~= a + b.drop_last());
    }
}

proof fn lemma_within_units_fits(s: Seq<char>, budget: int)
    requires
        budget >= 0,
    ensures
        utf16_len(within_units(s, budget)) <= budget,
    decreases s.len(),
{
    if s.len() == 0 || utf16_units(s[0]) > budget {
    } else {
        lemma_within_units_fits(s.drop_first(), budget - utf16_units(s[0]));
        lemma_utf16_len_concat(seq![s[0]], within_units(s.drop_first(), budget - utf16_units(s[0])));
        assert(seq![s[0]].drop_last() =~= Seq::<char>::empty());
        assert(seq![s[0]].last() == s[0]);
        assert(utf16_len(Seq::<char>::empty()) == 0);
        assert(utf16_len(seq![s[0]]) == utf16_units(s[0]));
    }
}

proof fn lemma_within_units_step(s: Seq<char>, k: int, budget: int, used: int)
    requires
        0 <= k < s.len(),
        0 <= used,
        within_units(s, budget) == s.subrange(0, k) + within_units(s.skip(k), budget - used),
        used + utf16_units(s[k]) <= budget,
    ensures
        within_units(s, budget) == s.subrange(0, k + 1) + within_units(
            s.skip(k + 1),
            budget - (used + utf16_units(s[k])),
        ),
{
    let rest = s.skip(k);
    assert(rest[0] == s[k]);
    assert(rest.drop_first() =~= s.skip(k + 1));
    assert(s.subrange(0, k) + seq![s[k]] =~= s.subrange(0, k + 1));
    assert(s.subrange(0, k) + (seq![s[k]] + within_units(s.skip(k + 1), budget - used - utf16_units(s[k])))
        =~= s.subrange(0, k + 1) + within_units(s.skip(k + 1), budget - used - utf16_units(s[k])));
}

fn units_of(c: char) -> (r: usize)
    ensures
        r == utf16_units(c),
{
    if (c as u32) > 0xffff {
        2
    } else {
        1
    }
}

fn utf16_count(s: &Vec<char>) -> (r: usize)
    requires
        s@.len() <= isize::MAX,
    ensures
        r == utf16_len(s@),
        r <= 2 * s@.len(),
{
    let mut total: usize = 0;
    let mut i: usize = 0;
    while i < s.len()
        invariant
            i <= s@.len(),
            s@.len() <= isize::MAX,
            total == utf16_len(s@.subrange(0, i as int)),
            total <= 2 * i,
        decreases s.len() - i,
    {
        proof {
            lemma_utf16_len_push(s@.subrange(0, i as int), s@[i as int]);
            assert(s@.subrange(0, i as int).push(s@[i as int]) =~= s@.subrange(0, i + 1));
        }
        total = total + units_of(s[i]);
        i = i + 1;
    }
    assert(s@.subrange(0, s@.len() as int) =~= s@);
    total
}

/// The name of the `index`th file exported under `name`. The first export
/// keeps the name; later ones insert "-<index>" (at least three digits)
/// before the extension. The stem is shortened so that the whole name fits
/// in 255 UTF-16 code units whenever the suffix and extension leave room.
pub fn numbered_filename(name: &str, index: usize) -> (r: String)
    requires
        name@.len() <= isize::MAX,
    ensures
        r@ == numbered_name(name@, index as nat),
{
    let all = chars_of(name);
    let (stem, extension) = match file_name(&all) {
        Some(f) => split_name(&f),
        None => (Vec::new(), None),
    };
    let mut ext: Vec<char> = Vec::new();
    match extension {
        Some(e) => {
            ext.push('.');
            push_chars(&mut ext, &e);
        },
        None => {},
    }
    let mut suffix: Vec<char> = Vec::new();
    if index != 0 {
        suffix.push('-');
        let digits = zero_padded_decimal(index as u64, 3);
        push_chars(&mut suffix, &digits);
    }
    proof {
        crate::text::lemma_decimal_digits_nonempty(index as nat);
        assert(dotted_extension(name@) == ext@);
        assert(collision_suffix(index as nat) == suffix@);
    }
    let ext_units = utf16_count(&ext);
    let budget: usize = if ext_units > NAME_UNITS || suffix.len() > NAME_UNITS - ext_units {
        0
    } else {
        NAME_UNITS - ext_units - suffix.len()
    };
    let mut kept: Vec<char> = Vec::new();
    let mut units: usize = 0;
    let mut k: usize = 0;
    proof {
        assert(stem@.skip(0) =~= stem@);
        assert(stem@.subrange(0, 0) =~= Seq::<char>::empty());
        assert(within_units(stem@, budget as int) =~= stem@.subrange(0, 0) + within_units(stem@.skip(0), budget as int));
    }
    while k < stem.len() && units + units_of(stem[k]) <= budget
        invariant
            k <= stem@.len(),
            budget <= NAME_UNITS,
            units <= budget,
            kept@ == stem@.subrange(0, k as int),
            within_units(stem@, budget as int) == stem@.subrange(0, k as int) + within_units(
                stem@.skip(k as int),
                budget - units,
            ),
        decreases stem.len() - k,
    {
        proof {
            lemma_within_units_step(stem@, k as int, budget as int, units as int);
        }
        units = units + units_of(stem[k]);
        kept.push(stem[k]);
        k = k + 1;
    }
    proof {
        let rest = stem@.skip(k as int);
        if k < stem@.len() {
            assert(rest[0] == stem@[k as int]);
        } else {
            assert(rest.len() == 0);
        }
        assert(within_units(rest, budget - units) =~= Seq::<char>::empty());
        assert(stem@.subrange(0, k as int) + Seq::<char>::empty() =~= stem@.subrange(0, k as int));
    }
    push_chars(&mut kept, &suffix);
    push_chars(&mut kept, &ext);
    string_of(&kept)
}

// ---------------------------------------------------------------------------
// Export selection
// ---------------------------------------------------------------------------

/// One inspected node: a byte range of a buffer interpreted as `kind`.
pub struct Node {
    pub name: String,
    pub kind: ResourceKind,
    pub buffer: usize,
    pub start: usize,
    pub end: usize,
    pub error: Option<String>,
}

/// An inspected file: its decoded buffers and the nodes that describe them.
/// Buffer 0 holds the file's own bytes.
pub struct Document {
    pub root: usize,
    pub buffers: Vec<Vec<u8>>,
    pub nodes: Vec<Node>,
}

/// The bytes chosen for export and the name they are saved under.
pub struct Export {
    pub name: String,
    pub bytes: Vec<u8>,
    pub start: usize,
    pub end: usize,
}

/// Whether a node covers exactly the original file.
pub open spec fn is_original(doc: &Document, index: int) -> bool {
    let node = doc.nodes@[index];
    index == doc.root && node.buffer == 0 && node.start == 0 && node.end == doc.buffers@[0]@.len()
}

/// The name of a fragment that may still hold offsets into its parent:
/// "<name>-<label>-b<buffer>-0x<start as eight uppercase hex digits>.bin".
pub open spec fn fragment_name(base: Seq<char>, kind: ResourceKind, buffer: nat, start: nat) -> Seq<char> {
    base + seq!['-'] + label_of(kind) + "-b"@ + decimal_digits(buffer) + "-0x"@ + pad_zeros(
        upper_hex_digits(start),
        8,
    ) + ".bin"@
}

/// The file name under which node `index` is exported: the original file
/// keeps its name; a valid standalone resource gets its format's extension;
/// anything else is named as a fragment of its buffer.
pub open spec fn export_name(doc: &Document, index: int) -> Seq<char> {
    let node = doc.nodes@[index];
    let base = after_last_separator(node.name@);
    if is_original(doc, index) {
        base
    } else {
        match (if node.error is None { extension_of(node.kind) } else { None }) {
            Some(ext) => with_extension(base, ext),
            None => fragment_name(base, node.kind, node.buffer as nat, node.start as nat),
        }
    }
}

impl Export {
    /// Selects node `index` of `document` for export. Fails when the node,
    /// its buffer, or its byte range does not exist.
    pub fn from_node(document: &Document, index: usize) -> (r: Result<Export, String>)
        ensures
            index >= document.nodes@.len() ==> (r matches Err(m) && m@ == "导出节点无效"@),
            index < document.nodes@.len() && document.nodes@[index as int].buffer >= document.buffers@.len()
                ==> (r matches Err(m) && m@ == "导出数据层无效"@),
            r is Ok <==> (index < document.nodes@.len() && document.nodes@[index as int].buffer
                < document.buffers@.len() && document.nodes@[index as int].start
                <= document.nodes@[index as int].end
                <= document.buffers@[document.nodes@[index as int].buffer as int]@.len()),
            (index < document.nodes@.len() && document.nodes@[index as int].buffer
                < document.buffers@.len() && r is Err) ==> (r matches Err(m) && m@ == "导出范围无效"@),
            r matches Ok(e) ==> {
                let node = document.nodes@[index as int];
                &&& e.bytes@ == document.buffers@[node.buffer as int]@
                &&& e.start == node.start
                &&& e.end == node.end
                &&& e.name@ == export_name(document, index as int)
            },
    {
        proof {
            reveal_strlit("导出节点无效");
            reveal_strlit("导出数据层无效");
            reveal_strlit("导出范围无效");
        }
        if index >= document.nodes.len() {
            return Err("导出节点无效".to_owned());
        }
        let node = &document.nodes[index];
        if node.buffer >= document.buffers.len() {
            return Err("导出数据层无效".to_owned());
        }
        let bytes = &document.buffers[node.buffer];
        if !(node.start <= node.end && node.end <= bytes.len()) {
            return Err("导出范围无效".to_owned());
        }
        let original = index == document.root && node.buffer == 0 && node.start == 0 && node.end
            == bytes.len();
        let all = chars_of(node.name.as_str());
        let base = last_segment(&all);
        let name: Vec<char> = if original {
            base
        } else {
            let extension = if node.error.is_none() {
                resource_extension(node.kind)
            } else {
                None
            };
            match extension {
                Some(ext) => replace_extension(&base, ext),
                None => {
                    let mut n = base;
                    n.push('-');
                    push_str(&mut n, node.kind.label());
                    push_str(&mut n, "-b");
                    let digits = decimal(node.buffer as u64);
                    push_chars(&mut n, &digits);
                    push_str(&mut n, "-0x");
                    let hex = pad_with_zeros(upper_hex(node.start as u64), 8);
                    push_chars(&mut n, &hex);
                    push_str(&mut n, ".bin");
                    proof {
                        reveal_strlit("-b");
                        reveal_strlit("-0x");
                        reveal_strlit(".bin");
                    }
                    n
                },
            }
        };
        let mut copy: Vec<u8> = Vec::new();
        let mut i: usize = 0;
        while i < bytes.len()
            invariant
                i <= bytes@.len(),
                copy@ == bytes@.subrange(0, i as int),
            decreases bytes.len() - i,
        {
            copy.push(bytes[i]);
            i = i + 1;
        }
        assert(copy@ =~= bytes@);
        Ok(Export { name: string_of(&name), bytes: copy, start: node.start, end: node.end })
    }

    /// The exported bytes.
    pub fn selected(&self) -> (r: Vec<u8>)
        requires
            self.start <= self.end <= self.bytes@.len(),
        ensures
            r@ == self.bytes@.subrange(self.start as int, self.end as int),
    {
        let mut out: Vec<u8> = Vec::new();
        let mut i: usize = self.start;
        while i < self.end
            invariant
                self.start <= i <= self.end,
                self.end <= self.bytes@.len(),
                out@ == self.bytes@.subrange(self.start as int, i as int),
            decreases self.end - i,
        {
            out.push(self.bytes[i]);
            i = i + 1;
        }
        out
    }
}

/// Converts a file's metadata length to an in-memory length. Lengths are
/// bounded by the address space (`isize::MAX`), not by a fixed file limit.
pub fn file_length(length: u64) -> (r: Result<usize, String>)
    ensures
        r is Ok <==> length as int <= isize::MAX,
        r matches Ok(n) ==> n as int == length as int,
        r matches Err(m) ==> m@ == "资源长度超出当前进程可寻址范围"@,
{
    proof {
        reveal_strlit("资源长度超出当前进程可寻址范围");
    }
    if length <= isize::MAX as u64 {
        Ok(length as usize)
    } else {
        Err("资源长度超出当前进程可寻址范围".to_owned())
    }
}

/// Appends one chunk read from a resource, refusing a total that exceeds the
/// address space.
pub fn append_chunk(bytes: &mut Vec<u8>, chunk: &[u8]) -> (r: Result<(), String>)
    ensures
        r is Ok <==> old(bytes)@.len() + chunk@.len() <= isize::MAX,
        r is Ok ==> final(bytes)@ == old(bytes)@ + chunk@,
        r is Err ==> final(bytes)@ == old(bytes)@,
        r matches Err(m) ==> m@ == "资源读取长度超出当前进程可寻址范围"@,
{
    proof {
        reveal_strlit("资源读取长度超出当前进程可寻址范围");
    }
    if chunk.len() > (isize::MAX as usize) - bytes.len().min(isize::MAX as usize) || bytes.len()
        > isize::MAX as usize {
        return Err("资源读取长度超出当前进程可寻址范围".to_owned());
    }
    let ghost before = bytes@;
    let mut i: usize = 0;
    while i < chunk.len()
        invariant
            i <= chunk@.len(),
            bytes@ == before + chunk@.subrange(0, i as int),
        decreases chunk.len() - i,
    {
        bytes.push(chunk[i]);
        i = i + 1;
    }
    assert(chunk@.subrange(0, chunk@.len() as int) =~= chunk@);
    Ok(())
}

/// One step of reading a resource: an empty chunk ends the read, with the
/// bytes gathered so far (`Ok(true)`); any other chunk is appended
/// (`Ok(false)`). The metadata length is only a hint: the file may have
/// grown or shrunk since.
pub fn read_step(bytes: &mut Vec<u8>, chunk: &[u8]) -> (r: Result<bool, String>)
    ensures
        chunk@.len() == 0 ==> r == Ok::<bool, String>(true) && final(bytes)@ == old(bytes)@,
        chunk@.len() > 0 ==> (r is Ok <==> old(bytes)@.len() + chunk@.len() <= isize::MAX),
        chunk@.len() > 0 && r is Ok ==> r == Ok::<bool, String>(false) && final(bytes)@ == old(bytes)@ + chunk@,
        r is Err ==> final(bytes)@ == old(bytes)@,
        r matches Err(m) ==> m@ == "资源读取长度超出当前进程可寻址范围"@,
{
    if chunk.len() == 0 {
        return Ok(true);
    }
    append_chunk(bytes, chunk)?;
    Ok(false)
}

/// Under a suffix and extension that leave room, every numbered name fits
/// the filename limit of 255 UTF-16 code units.
pub proof fn numbered_names_fit(name: Seq<char>, index: nat)
    requires
        utf16_len(dotted_extension(name)) + collision_suffix(index).len() <= NAME_UNITS,
    ensures
        utf16_len(numbered_name(name, index)) <= NAME_UNITS,
{
    let ext = dotted_extension(name);
    let suffix = collision_suffix(index);
    let budget = NAME_UNITS as int - (utf16_len(ext) + suffix.len());
    lemma_within_units_fits(path_stem(name), budget);
    let kept = within_units(path_stem(name), budget);
    lemma_utf16_len_concat(kept, suffix);
    lemma_utf16_len_concat(kept + suffix, ext);
    lemma_suffix_ascii(index);
    lemma_utf16_len_small(suffix);
}

/// Characters below U+0080.
pub open spec fn all_ascii(s: Seq<char>) -> bool {
    forall|i: int| 0 <= i < s.len() ==> (#[trigger] s[i] as u32) < 0x80
}

proof fn lemma_utf16_len_small(s: Seq<char>)
    requires
        all_ascii(s),
    ensures
        utf16_len(s) == s.len(),
    decreases s.len(),
{
    if s.len() > 0 {
        assert(all_ascii(s.drop_last())) by {
            assert forall|i: int| 0 <= i < s.drop_last().len() implies (#[trigger] s.drop_last()[i] as u32)
                < 0x80 by {
                assert(s.drop_last()[i] == s[i]);
            }
        }
        lemma_utf16_len_small(s.drop_last());
        assert((s[s.len() - 1] as u32) < 0x80);
    }
}

proof fn lemma_digits_ascii(n: nat)
    ensures
        all_ascii(decimal_digits(n)),
    decreases n,
{
    if n >= 10 {
        lemma_digits_ascii(n / 10);
        let prev = decimal_digits(n / 10);
        let all = decimal_digits(n);
        assert forall|i: int| 0 <= i < all.len() implies (#[trigger] all[i] as u32) < 0x80 by {
            if i < prev.len() {
                assert(all[i] == prev[i]);
            }
        }
    }
}

proof fn lemma_repeat_ascii(count: nat)
    ensures
        all_ascii(crate::text::repeat_char('0', count)),
    decreases count,
{
    if count > 0 {
        lemma_repeat_ascii((count - 1) as nat);
        let prev = crate::text::repeat_char('0', (count - 1) as nat);
        let all = crate::text::repeat_char('0', count);
        assert forall|i: int| 0 <= i < all.len() implies (#[trigger] all[i] as u32) < 0x80 by {
            if i < prev.len() {
                assert(all[i] == prev[i]);
            }
        }
    }
}

proof fn lemma_suffix_ascii(index: nat)
    ensures
        all_ascii(collision_suffix(index)),
{
    if index > 0 {
        lemma_digits_ascii(index);
        let digits = decimal_digits(index);
        if digits.len() < 3 {
            lemma_repeat_ascii((3 - digits.len()) as nat);
        }
        let padded = zero_padded(index, 3);
        assert(all_ascii(padded));
        let suffix = collision_suffix(index);
        assert forall|i: int| 0 <= i < suffix.len() implies (#[trigger] suffix[i] as u32) < 0x80 by {
            if i > 0 {
                assert(suffix[i] == padded[i - 1]);
            }
        }
    }
}

/// A sanitized name never reaches outside the export directory.
pub proof fn safe_names_have_no_separator(name: Seq<char>)
    ensures
        forall|i: int| 0 <= i < safe_name(name).len() ==> !is_separator(#[trigger] safe_name(name)[i]),
{
    lemma_after_last_separator_free(name);
    let segment = after_last_separator(name);
    let replaced = replace_forbidden(segment);
    lemma_trim_prefix(replaced);
    let cleaned = trim_dots_spaces(replaced);
    proof_resource_literal();
}

/// A sanitized name is final: it is not empty, holds no separator and no
/// character that Windows forbids in a name, ends with neither a dot nor a
/// space, names no device, and sanitizing it again leaves it unchanged.
pub proof fn safe_names_are_final(name: Seq<char>)
    ensures
        safe_name(name).len() > 0,
        forall|i: int| 0 <= i < safe_name(name).len() ==> !is_separator(#[trigger] safe_name(name)[i])
            && !forbidden_in_name(safe_name(name)[i]),
        safe_name(name).last() != '.' && safe_name(name).last() != ' ',
        !reserved_device(device_of(safe_name(name))),
        safe_name(safe_name(name)) == safe_name(name),
{
    reveal_strlit("resource");
    lemma_after_last_separator_free(name);
    let segment = after_last_separator(name);
    let replaced = replace_forbidden(segment);
    lemma_trim_prefix(replaced);
    lemma_trim_end(replaced);
    let cleaned = trim_dots_spaces(replaced);
    let named = if cleaned.len() == 0 { "resource"@ } else { cleaned };
    assert forall|i: int| 0 <= i < named.len() implies !is_separator(#[trigger] named[i]) && !forbidden_in_name(named[i]) by {
        if cleaned.len() > 0 {
            assert(named[i] == replaced[i]);
        }
    }
    let out = safe_name(name);
    if reserved_device(device_of(named)) {
        assert(out == seq!['_'] + named);
        assert forall|i: int| 0 <= i < out.len() implies !is_separator(#[trigger] out[i]) && !forbidden_in_name(out[i]) by {
            if i > 0 {
                assert(out[i] == named[i - 1]);
            }
        }
        assert(out.last() == named.last());
        lemma_underscore_device(named);
    } else {
        assert(out == named);
    }
    lemma_separator_free_segment(out);
    assert(replace_forbidden(out) =~= out);
    assert(trim_dots_spaces(out) == out);
}

/// A name that starts with '_' names no device.
proof fn lemma_underscore_device(named: Seq<char>)
    ensures
        !reserved_device(device_of(seq!['_'] + named)),
{
    reveal_strlit("CON");
    reveal_strlit("PRN");
    reveal_strlit("AUX");
    reveal_strlit("NUL");
    reveal_strlit("CONIN$");
    reveal_strlit("CONOUT$");
    reveal_strlit("COM");
    reveal_strlit("LPT");
    let full = seq!['_'] + named;
    assert(full.drop_first() =~= named);
    let head = before_first_dot(full);
    assert(head == seq!['_'] + before_first_dot(named));
    lemma_trim_white_keeps_head(head);
    let d = device_of(full);
    assert(d.len() > 0 && d[0] == '_');
    if d.len() >= 3 {
        assert(d.subrange(0, 3)[0] == '_');
    }
}

/// Trimming white space keeps a leading '_'.
proof fn lemma_trim_white_keeps_head(s: Seq<char>)
    requires
        s.len() > 0,
        s[0] == '_',
    ensures
        trim_white_end(s).len() > 0,
        trim_white_end(s)[0] == '_',
    decreases s.len(),
{
    if s.len() > 1 && is_white_space(s.last()) {
        lemma_trim_white_keeps_head(s.drop_last());
    }
}

/// A text without separators is its own last segment.
proof fn lemma_separator_free_segment(s: Seq<char>)
    requires
        forall|i: int| 0 <= i < s.len() ==> !is_separator(#[trigger] s[i]),
    ensures
        after_last_separator(s) == s,
    decreases s.len(),
{
    if s.len() > 0 {
        assert(!is_separator(s[s.len() - 1]));
        lemma_separator_free_segment(s.drop_last());
        assert(s.drop_last().push(s.last()) =~= s);
    }
}

/// What trimming leaves ends with neither a dot nor a space.
proof fn lemma_trim_end(s: Seq<char>)
    ensures
        trim_dots_spaces(s).len() > 0 ==> trim_dots_spaces(s).last() != '.' && trim_dots_spaces(s).last() != ' ',
    decreases s.len(),
{
    if s.len() > 0 && (s.last() == '.' || s.last() == ' ') {
        lemma_trim_end(s.drop_last());
    }
}

proof fn proof_resource_literal()
    ensures
        forall|i: int| 0 <= i < "resource"@.len() ==> !is_separator(#[trigger] "resource"@[i]),
{
    reveal_strlit("resource");
}

proof fn lemma_after_last_separator_free(s: Seq<char>)
    ensures
        forall|i: int|
            0 <= i < after_last_separator(s).len() ==> !is_separator(#[trigger] after_last_separator(s)[i]),
    decreases s.len(),
{
    if s.len() > 0 && !is_separator(s.last()) {
        lemma_after_last_separator_free(s.drop_last());
        let prev = after_last_separator(s.drop_last());
        assert forall|i: int| 0 <= i < after_last_separator(s).len() implies !is_separator(
            #[trigger] after_last_separator(s)[i],
        ) by {
            if i < prev.len() {
                assert(after_last_separator(s)[i] == prev[i]);
            }
        }
    }
}

proof fn lemma_trim_prefix(s: Seq<char>)
    ensures
        trim_dots_spaces(s).len() <= s.len(),
        forall|i: int| 0 <= i < trim_dots_spaces(s).len() ==> #[trigger] trim_dots_spaces(s)[i] == s[i],
    decreases s.len(),
{
    if s.len() > 0 && (s.last() == '.' || s.last() == ' ') {
        lemma_trim_prefix(s.drop_last());
    }
}

/// Every format except the unstructured containers (unknown data, ECD,
/// blocks, tracks) is a standalone file with an extension: its own label,
/// or "mot" for the two motion formats; the containers have none.
pub proof fn standalone_formats_have_their_extension(kind: ResourceKind)
    ensures
        (kind is Unknown || kind is Ecd || kind is Block || kind is Track) <==> extension_of(kind) is None,
        extension_of(kind) is Some && !(kind is Motion || kind is MotionArchive) ==> extension_of(kind) == Some(label_of(kind)),
        (kind is Motion || kind is MotionArchive) ==> extension_of(kind) == Some("mot"@),
{
}

/// A valid node of a standalone format that is not the original file is
/// exported under its base name with its format's extension, never as a raw
/// fragment.
pub proof fn standalone_nodes_export_with_their_extension(doc: &Document, index: int)
    requires
        0 <= index < doc.nodes@.len(),
        !is_original(doc, index),
        doc.nodes@[index].error is None,
        !(doc.nodes@[index].kind is Unknown || doc.nodes@[index].kind is Ecd || doc.nodes@[index].kind is Block
            || doc.nodes@[index].kind is Track || doc.nodes@[index].kind is Motion || doc.nodes@[index].kind is MotionArchive),
    ensures
        export_name(doc, index) == with_extension(after_last_separator(doc.nodes@[index].name@), label_of(doc.nodes@[index].kind)),
{
}

} // verus!
