//! The detached byte grid of the resource workbench: complete cells write
//! their byte at once, incomplete ones stay visible as drafts and block
//! field writes.

use vstd::prelude::*;
use std::hash::{Hash, Hasher};
use std::collections::hash_map::DefaultHasher;
use vstd::std_specs::hash::DefaultHasherAdditionalSpecFns;
use crate::text::{chars_of, decimal, decimal_digits, joined, pad_with_zeros, pad_zeros, push_chars, push_str,
    string_of, upper_hex, upper_hex_digits};

verus! {

/// An ASCII hexadecimal digit, either case.
pub open spec fn hex_digit(c: char) -> bool {
    ('0' <= c && c <= '9') || ('a' <= c && c <= 'f') || ('A' <= c && c <= 'F')
}

/// The value of a hexadecimal digit.
pub open spec fn hex_value(c: char) -> int {
    if '0' <= c && c <= '9' {
        c as int - '0' as int
    } else if 'a' <= c && c <= 'f' {
        c as int - 'a' as int + 10
    } else {
        c as int - 'A' as int + 10
    }
}

/// The byte that a cell's input gives: exactly two hexadecimal digits.
pub open spec fn cell_byte(input: Seq<char>) -> Option<u8> {
    if input.len() == 2 && hex_digit(input[0]) && hex_digit(input[1]) {
        Some((hex_value(input[0]) * 16 + hex_value(input[1])) as u8)
    } else {
        None
    }
}

fn digit_value(c: char) -> (r: u8)
    requires
        hex_digit(c),
    ensures
        r as int == hex_value(c),
        r < 16,
{
    if '0' <= c && c <= '9' {
        (c as u32 - '0' as u32) as u8
    } else if 'a' <= c && c <= 'f' {
        (c as u32 - 'a' as u32 + 10) as u8
    } else {
        (c as u32 - 'A' as u32 + 10) as u8
    }
}

fn is_hex_digit(c: char) -> (r: bool)
    ensures
        r == hex_digit(c),
{
    ('0' <= c && c <= '9') || ('a' <= c && c <= 'f') || ('A' <= c && c <= 'F')
}

/// The byte a cell's input gives, if it is exactly two hexadecimal digits.
pub fn parse_cell(input: &str) -> (r: Option<u8>)
    ensures
        r == cell_byte(input@),
{
    let chars = chars_of(input);
    if chars.len() == 2 && is_hex_digit(chars[0]) && is_hex_digit(chars[1]) {
        let high = digit_value(chars[0]);
        let low = digit_value(chars[1]);
        Some(high * 16 + low)
    } else {
        None
    }
}

/// How a byte is shown in a cell: two uppercase hexadecimal digits.
pub open spec fn byte_text(b: u8) -> Seq<char> {
    pad_zeros(upper_hex_digits(b as nat), 2)
}

/// What the ASCII column shows for a byte: printable ASCII as itself,
/// anything else as '.'.
pub open spec fn ascii_shown(b: u8) -> char {
    if 0x20 <= b && b <= 0x7e {
        b as char
    } else {
        '.'
    }
}

/// The character the ASCII column shows for `b`.
pub fn ascii_cell(b: u8) -> (r: char)
    ensures
        r == ascii_shown(b),
{
    if 0x20 <= b && b <= 0x7e {
        b as char
    } else {
        '.'
    }
}

/// What the editor holds.
pub struct ByteEditorView {
    pub values: Seq<u8>,
    /// The incomplete input of each cell, if any.
    pub drafts: Seq<Option<Seq<char>>>,
    /// The fingerprint of the field text last written or read, if any.
    pub published: Option<u64>,
    pub error: Seq<char>,
}

/// A cell of the field text: "?" and the draft, or the byte in hexadecimal.
pub open spec fn cell_text(v: ByteEditorView, i: int) -> Seq<char> {
    match v.drafts[i] {
        Some(d) => seq!['?'] + d,
        None => byte_text(v.values[i]),
    }
}

/// The field text of the editor: every cell, separated by spaces.
pub open spec fn field_text(v: ByteEditorView) -> Seq<char> {
    joined(Seq::new(v.values.len(), |i: int| cell_text(v, i)), " "@)
}

/// The number of incomplete cells.
pub open spec fn draft_count(drafts: Seq<Option<Seq<char>>>) -> nat
    decreases drafts.len(),
{
    if drafts.len() == 0 {
        0
    } else {
        draft_count(drafts.drop_last()) + if drafts.last() is Some { 1nat } else { 0nat }
    }
}

/// No cell is incomplete.
pub open spec fn no_drafts(n: nat) -> Seq<Option<Seq<char>>> {
    Seq::new(n, |i: int| None::<Seq<char>>)
}

/// What hashing a text feeds a hasher, as the chunks that vstd's model of
/// `DefaultHasher` records; it depends on the text alone.
pub uninterp spec fn str_hash_writes(text: Seq<char>) -> Seq<Seq<u8>>;

/// `<str as Hash>::hash` of a text into `hasher`: the hasher's recorded
/// input grows by what the text contributes, which depends on the text
/// alone. Which bytes those are is std's own and is left unsaid.
#[verifier::external_body]
fn hash_text(text: &str, hasher: &mut DefaultHasher)
    ensures
        final(hasher)@ == old(hasher)@ + str_hash_writes(text@),
{
    Hash::hash(text, hasher)
}

/// The fingerprint of a field text: its `DefaultHasher` hash.
pub open spec fn text_fingerprint(text: Seq<char>) -> u64 {
    <DefaultHasher as DefaultHasherAdditionalSpecFns>::spec_finish(str_hash_writes(text))
}

/// A fingerprint of a field text through an unseeded `DefaultHasher`, used
/// only to notice that the text changed elsewhere.
pub fn fingerprint(text: &str) -> (r: u64)
    ensures
        r == text_fingerprint(text@),
{
    let mut hasher = DefaultHasher::new();
    hash_text(text, &mut hasher);
    proof {
        assert(hasher@ =~= str_hash_writes(text@));
    }
    hasher.finish()
}

/// The state of one byte editor.
pub struct ByteEditor {
    values: Vec<u8>,
    drafts: Vec<Option<String>>,
    published: Option<u64>,
    error: String,
}

impl View for ByteEditor {
    type V = ByteEditorView;

    closed spec fn view(&self) -> ByteEditorView {
        ByteEditorView {
            values: self.values@,
            drafts: self.drafts@.map_values(|d: Option<String>| match d {
                Some(s) => Some(s@),
                None => None,
            }),
            published: self.published,
            error: self.error@,
        }
    }
}

impl ByteEditor {
    /// One draft slot per byte.
    pub closed spec fn wf(&self) -> bool {
        self.drafts@.len() == self.values@.len()
    }

    /// An editor that has not read its field yet.
    pub fn new() -> (r: ByteEditor)
        ensures
            r.wf(),
            r@.values.len() == 0,
            r@.drafts.len() == 0,
            r@.published is None,
            r@.error.len() == 0,
    {
        ByteEditor { values: Vec::new(), drafts: Vec::new(), published: None, error: String::new() }
    }

    /// The bytes, complete cells included.
    pub fn values(&self) -> (r: &Vec<u8>)
        ensures
            r@ == self@.values,
    {
        &self.values
    }

    /// The draft of cell `index`, if it is incomplete.
    pub fn draft(&self, index: usize) -> (r: Option<String>)
        requires
            self.wf(),
            index < self@.values.len(),
        ensures
            r is Some <==> self@.drafts[index as int] is Some,
            r matches Some(d) ==> self@.drafts[index as int] == Some(d@),
    {
        match &self.drafts[index] {
            Some(d) => Some(d.clone()),
            None => None,
        }
    }

    /// The last refusal of a paste, or empty.
    pub fn error(&self) -> (r: &str)
        ensures
            r@ == self@.error,
    {
        self.error.as_str()
    }

    /// Whether the field text whose fingerprint is `observed` was changed
    /// elsewhere since the editor last wrote or read it.
    pub fn stale(&self, observed: u64) -> (r: bool)
        ensures
            r == (self@.published != Some(observed)),
    {
        match self.published {
            Some(p) => p != observed,
            None => true,
        }
    }

    /// Reads the field again: `values` are its bytes as the binding encodes
    /// them; drafts and errors are dropped.
    pub fn reload(&mut self, observed: u64, values: Vec<u8>)
        ensures
            final(self).wf(),
            final(self)@ == (ByteEditorView {
                values: values@,
                drafts: no_drafts(values@.len()),
                published: Some(observed),
                error: Seq::empty(),
            }),
    {
        self.drafts = no_draft_vec(values.len());
        self.values = values;
        self.published = Some(observed);
        self.error = String::new();
        proof {
            assert(self@.drafts =~= no_drafts(values@.len()));
        }
    }

    /// Edits cell `index`: exactly two hexadecimal digits set the byte and
    /// drop the cell's draft; anything else is kept as its draft. Returns
    /// whether the cell now holds a complete byte.
    pub fn edit_cell(&mut self, index: usize, input: String) -> (complete: bool)
        requires
            old(self).wf(),
            index < old(self)@.values.len(),
        ensures
            final(self).wf(),
            complete == (cell_byte(input@) is Some),
            final(self)@.published == old(self)@.published,
            final(self)@.error == old(self)@.error,
            cell_byte(input@) matches Some(b) ==> final(self)@.values == old(self)@.values.update(index as int, b)
                && final(self)@.drafts == old(self)@.drafts.update(index as int, None),
            cell_byte(input@) is None ==> final(self)@.values == old(self)@.values
                && final(self)@.drafts == old(self)@.drafts.update(index as int, Some(input@)),
    {
        let ghost before = self@;
        match parse_cell(input.as_str()) {
            Some(b) => {
                self.values.set(index, b);
                self.drafts.set(index, None);
                proof {
                    assert(self@.drafts =~= before.drafts.update(index as int, None));
                }
                true
            },
            None => {
                self.drafts.set(index, Some(input));
                proof {
                    assert(self@.drafts =~= before.drafts.update(index as int, Some(input@)));
                }
                false
            },
        }
    }

    /// Cancels the draft of cell `index` (Escape): the cell shows its byte
    /// again. Returns whether there was a draft.
    pub fn cancel_cell(&mut self, index: usize) -> (changed: bool)
        requires
            old(self).wf(),
            index < old(self)@.values.len(),
        ensures
            final(self).wf(),
            changed == (old(self)@.drafts[index as int] is Some),
            final(self)@ == (ByteEditorView { drafts: old(self)@.drafts.update(index as int, None), ..old(self)@ }),
    {
        let ghost before = self@;
        let changed = self.drafts[index].is_some();
        self.drafts.set(index, None);
        proof {
            assert(self@.drafts =~= before.drafts.update(index as int, None));
        }
        changed
    }

    /// Applies a pasted text, as the binding encoded it: its bytes replace
    /// every cell and drop all drafts; a refusal is kept as the error and
    /// changes nothing else. Returns whether the bytes changed.
    pub fn paste_bytes(&mut self, encoded: Result<Vec<u8>, String>) -> (changed: bool)
        requires
            old(self).wf(),
        ensures
            final(self).wf(),
            changed == (encoded is Ok),
            encoded matches Ok(v) ==> final(self)@ == (ByteEditorView {
                values: v@,
                drafts: no_drafts(v@.len()),
                error: Seq::empty(),
                ..old(self)@
            }),
            encoded matches Err(e) ==> final(self)@ == (ByteEditorView { error: e@, ..old(self)@ }),
    {
        match encoded {
            Ok(values) => {
                self.drafts = no_draft_vec(values.len());
                self.values = values;
                self.error = String::new();
                proof {
                    assert(self@.drafts =~= no_drafts(values@.len()));
                }
                true
            },
            Err(error) => {
                self.error = error;
                false
            },
        }
    }

    /// The number of incomplete cells.
    pub fn drafts_left(&self) -> (r: usize)
        requires
            self.wf(),
        ensures
            r == draft_count(self@.drafts),
    {
        let mut count: usize = 0;
        let mut i: usize = 0;
        while i < self.drafts.len()
            invariant
                i <= self.drafts@.len(),
                count == draft_count(self@.drafts.take(i as int)),
                count <= i,
            decreases self.drafts.len() - i,
        {
            proof {
                assert(self@.drafts.take(i + 1).drop_last() =~= self@.drafts.take(i as int));
            }
            if self.drafts[i].is_some() {
                count = count + 1;
            }
            i = i + 1;
        }
        proof {
            assert(self@.drafts.take(i as int) =~= self@.drafts);
        }
        count
    }

    /// The field text: each cell's byte in hexadecimal, or "?" and its draft,
    /// separated by spaces.
    pub fn serialize(&self) -> (r: String)
        requires
            self.wf(),
        ensures
            r@ == field_text(self@),
    {
        let ghost v = self@;
        let ghost cells = Seq::new(v.values.len(), |i: int| cell_text(v, i));
        let mut out: Vec<char> = Vec::new();
        let mut i: usize = 0;
        while i < self.values.len()
            invariant
                i <= self.values@.len(),
                self.drafts@.len() == self.values@.len(),
                v == self@,
                cells == Seq::new(v.values.len(), |i: int| cell_text(v, i)),
                out@ == joined(cells.take(i as int), " "@),
            decreases self.values.len() - i,
        {
            let ghost before = out@;
            if i != 0 {
                out.push(' ');
            }
            let ghost separated = out@;
            match &self.drafts[i] {
                Some(d) => {
                    out.push('?');
                    push_str(&mut out, d.as_str());
                    proof {
                        assert(v.drafts[i as int] == Some(d@));
                        assert(out@ =~= separated + cell_text(v, i as int));
                    }
                },
                None => {
                    let digits = pad_with_zeros(upper_hex(self.values[i] as u64), 2);
                    push_chars(&mut out, &digits);
                    proof {
                        assert(v.drafts[i as int] is None);
                        assert(out@ =~= separated + cell_text(v, i as int));
                    }
                },
            }
            proof {
                reveal_strlit(" ");
                if i != 0 {
                    assert(separated =~= before + " "@);
                } else {
                    assert(separated =~= before);
                }
                let part = cells.take(i + 1);
                assert(part.drop_last() =~= cells.take(i as int));
                assert(part.last() == cell_text(v, i as int));
                if i == 0 {
                    assert(cells.take(0) =~= Seq::<Seq<char>>::empty());
                    assert(out@ =~= part[0]);
                } else {
                    assert(out@ =~= joined(cells.take(i as int), " "@) + " "@ + part.last());
                }
            }
            i = i + 1;
        }
        proof {
            assert(cells.take(i as int) =~= cells);
        }
        string_of(&out)
    }

    /// Writes the editor's state to its field: the text to store, which the
    /// editor then treats as its own.
    pub fn publish(&mut self) -> (r: String)
        requires
            old(self).wf(),
        ensures
            final(self).wf(),
            r@ == field_text(old(self)@),
            final(self)@.values == old(self)@.values,
            final(self)@.drafts == old(self)@.drafts,
            final(self)@.error == old(self)@.error,
            final(self)@.published == Some(text_fingerprint(field_text(old(self)@))),
    {
        let text = self.serialize();
        self.published = Some(fingerprint(text.as_str()));
        text
    }
}

fn no_draft_vec(n: usize) -> (r: Vec<Option<String>>)
    ensures
        r@.len() == n,
        forall|i: int| 0 <= i < n ==> r@[i] is None,
{
    let mut r: Vec<Option<String>> = Vec::new();
    while r.len() < n
        invariant
            r@.len() <= n,
            forall|i: int| 0 <= i < r@.len() ==> r@[i] is None,
        decreases n - r@.len(),
    {
        r.push(None);
    }
    r
}

/// The hint under the grid.
pub open spec fn hint_text(drafts: nat) -> Seq<char> {
    if drafts == 0 {
        "完整字节实时更新；Tab 切换，Esc 关闭。"@
    } else {
        decimal_digits(drafts) + " 个未完成输入阻止预览与打包；Esc 取消当前格。"@
    }
}

/// The hint under the grid, given the number of incomplete cells.
pub fn hint(drafts: usize) -> (r: String)
    ensures
        r@ == hint_text(drafts as nat),
{
    let mut out: Vec<char> = Vec::new();
    if drafts == 0 {
        push_str(&mut out, "完整字节实时更新；Tab 切换，Esc 关闭。");
    } else {
        push_chars(&mut out, &decimal(drafts as u64));
        push_str(&mut out, " 个未完成输入阻止预览与打包；Esc 取消当前格。");
    }
    string_of(&out)
}

/// The bytes of row `row` of the grid (row 0 is the header): their first
/// index and the index past the last.
pub fn row_span(row: usize, columns: usize, count: usize) -> (r: (usize, usize))
    requires
        row >= 1,
        (row - 1) * columns + columns <= usize::MAX,
    ensures
        r.0 == (row - 1) * columns,
        r.1 == if r.0 + columns < count { r.0 + columns } else { count as int },
{
    let first = (row - 1) * columns;
    let end = if first + columns < count { first + columns } else { count };
    (first, end)
}

} // verus!
