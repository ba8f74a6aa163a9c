//! The state of a project: the image, its analysis, and the user's
//! annotations.

use crate::dis::{Analysis, Disassembler, Line, Rule};
use crate::listing::{lemma_wf_printable, line_views, listing, printable};
use crate::machine::ingest;
use crate::rom::Rom;
use std::collections::HashMap;
use vstd::prelude::*;
use vstd::string::*;

verus! {

broadcast use vstd::std_specs::hash::group_hash_axioms;

/// What a project file holds.
pub struct SavedData {
    /// The hints for the traversal, in the order in which they are followed.
    pub rules: Vec<Rule>,
    /// The comment lines beside each address.
    pub comments: HashMap<u32, Vec<String>>,
    /// The user's names for addresses.
    pub label_names: HashMap<u32, String>,
}

/// A project that is open for editing.
pub struct GlobalState {
    pub rom: Rom,
    pub dis: Disassembler,
    pub rules: Vec<Rule>,
    pub selection: Option<[u32; 2]>,
    /// The listing of the bank on view.
    pub lines: Vec<Line>,
    pub comments: HashMap<u32, Vec<String>>,
    pub editing_comment: Option<u32>,
    pub editing_label: Option<u32>,
    /// The bank on view.
    pub bank: u8,
    pub rules_filename: String,
}

/// Whether a label name may hold `c`: a letter or digit of ASCII, an
/// underscore or a full stop.
pub open spec fn is_label_char(c: char) -> bool {
    let n = c as u32;
    ||| 0x30 <= n <= 0x39
    ||| 0x41 <= n <= 0x5A
    ||| 0x61 <= n <= 0x7A
    ||| n == 0x5F
    ||| n == 0x2E
}

/// `name` without the characters that a label name may not hold.
pub open spec fn sanitized(name: Seq<char>) -> Seq<char> {
    name.filter(|c: char| is_label_char(c))
}

/// Where the caret stands after `removed` characters have been elided from
/// the text: as many places back, but never before the start. This keeps
/// the caret in place when the character just typed is the one elided.
pub open spec fn caret_after(caret: usize, removed: nat) -> usize {
    if removed >= caret {
        0
    } else {
        (caret - removed) as usize
    }
}

fn label_char(c: char) -> (b: bool)
    ensures
        b == is_label_char(c),
{
    let n = c as u32;
    (0x30 <= n && n <= 0x39) || (0x41 <= n && n <= 0x5A) || (0x61 <= n && n <= 0x7A) || n == 0x5F
        || n == 0x2E
}

/// Elides from `name` every character that a label name may not hold.
pub fn sanitize_label(name: &str) -> (r: String)
    ensures
        r@ == sanitized(name@),
{
    let n = name.unicode_len();
    let mut r = String::new();
    let mut i: usize = 0;
    assert(name@.take(0) =~= Seq::empty());
    assert(sanitized(Seq::<char>::empty()) =~= Seq::empty()) by {
        reveal(Seq::filter);
    }
    while i < n
        invariant
            n == name@.len(),
            i <= n,
            r@ == sanitized(name@.take(i as int)),
        decreases n - i,
    {
        let c = name.get_char(i);
        proof {
            reveal(Seq::filter);
            assert(name@.take(i + 1).drop_last() =~= name@.take(i as int));
            assert(name@.take(i + 1).last() == c);
        }
        if label_char(c) {
            let one = name.substring_char(i, i + 1);
            assert(one@ =~= seq![c]);
            r.append(one);
            assert(r@ =~= sanitized(name@.take(i as int)).push(c));
        }
        i += 1;
    }
    assert(name@.take(n as int) =~= name@);
    r
}

/// Cleans a label name that the user has edited, and moves the caret back
/// by the number of characters elided, so that it keeps its place in the
/// text.
pub fn edit_label(label: &mut String, caret: usize) -> (moved: usize)
    ensures
        final(label)@ == sanitized(old(label)@),
        moved == caret_after(caret, (old(label)@.len() - final(label)@.len()) as nat),
{
    let before = label.as_str().unicode_len();
    let clean = sanitize_label(label.as_str());
    let after = clean.as_str().unicode_len();
    proof {
        old(label)@.lemma_filter_len(|c: char| is_label_char(c));
    }
    *label = clean;
    let removed = before - after;
    if removed >= caret {
        0
    } else {
        caret - removed
    }
}

/// Whether a comment entry holds no text: every line of it is empty.
pub open spec fn is_blank(lines: Seq<String>) -> bool {
    forall|i: int| 0 <= i < lines.len() ==> (#[trigger] lines[i])@.len() == 0
}

/// The comment entries that hold text.
pub open spec fn written(comments: Map<u32, Vec<String>>) -> Map<u32, Vec<String>> {
    Map::new(
        |pc: u32| comments.contains_key(pc) && !is_blank(comments[pc]@),
        |pc: u32| comments[pc],
    )
}

/// Whether a comment entry holds text.
pub fn has_text(lines: &Vec<String>) -> (b: bool)
    ensures
        b == !is_blank(lines@),
{
    let mut i: usize = 0;
    while i < lines.len()
        invariant
            i <= lines.len(),
            forall|j: int| 0 <= j < i ==> (#[trigger] lines@[j])@.len() == 0,
        decreases lines.len() - i,
    {
        if !lines[i].as_str().is_empty() {
            return true;
        }
        i += 1;
    }
    false
}

/// Drops the comment entries that hold no text, by `HashMap::retain`,
/// whose documentation says that it keeps exactly the pairs for which the
/// predicate holds, each with its value.
#[verifier::external_body]
fn retain_written(comments: &mut HashMap<u32, Vec<String>>)
    ensures
        final(comments)@ == written(old(comments)@),
{
    comments.retain(|_pc, lines| has_text(lines));
}

/// The texts of the lines of a comment entry.
pub open spec fn line_texts(lines: Seq<String>) -> Seq<Seq<char>> {
    lines.map_values(|s: String| s@)
}

/// The lines of a comment entry after line `index` has been set to `text`.
/// Where the entry is shorter, empty lines fill it up to `index`.
pub open spec fn with_line(lines: Seq<Seq<char>>, index: nat, text: Seq<char>) -> Seq<Seq<char>> {
    if index < lines.len() {
        lines.update(index as int, text)
    } else {
        lines + Seq::new((index - lines.len()) as nat, |i: int| Seq::<char>::empty()) + seq![text]
    }
}

/// `lines` without the empty lines at its end.
pub open spec fn trimmed(lines: Seq<Seq<char>>) -> Seq<Seq<char>>
    decreases lines.len(),
{
    if lines.len() > 0 && lines.last().len() == 0 {
        trimmed(lines.drop_last())
    } else {
        lines
    }
}

/// The texts of the comment lines beside `pc`; none where it has no entry.
pub open spec fn comment_texts(comments: Map<u32, Vec<String>>, pc: u32) -> Seq<Seq<char>> {
    if comments.contains_key(pc) {
        line_texts(comments[pc]@)
    } else {
        Seq::empty()
    }
}

impl GlobalState {
    /// Whether a listing can be rendered from the engine's tables.
    pub open spec fn wf(&self) -> bool {
        printable(self.dis@)
    }

    /// Opens a project: the image `rom` with the annotations `data`, which
    /// were read from the file named `rules_fname`. The image is analysed
    /// under the project's rules, and bank 0 is put on view.
    pub fn new(rom: Rom, data: SavedData, rules_fname: String) -> (state: Self)
        ensures
            state.wf(),
            state.dis@.wf(),
            state.rom@ == rom@,
            state.dis@ == ingest(
                Analysis {
                    label_names: data.label_names@.map_values(|s: String| s@),
                    ..Analysis::empty(rom@)
                },
                data.rules@,
            ),
            line_views(state.lines@) == listing(state.dis@, 0),
            state.rules@ == data.rules@,
            state.comments@ == data.comments@,
            state.bank == 0,
            state.selection is None,
            state.editing_comment is None,
            state.editing_label is None,
            state.rules_filename@ == rules_fname@,
    {
        let mut dis = Disassembler::new(rom.clone());
        dis.label_names = data.label_names;
        assert(dis@.entries =~= Map::empty());
        assert(dis@ == Analysis {
            label_names: data.label_names@.map_values(|s: String| s@),
            ..Analysis::empty(rom@)
        });
        assert(dis@.wf());
        dis.process_rules(&data.rules);
        proof {
            lemma_wf_printable(dis@);
        }
        let lines = dis.print_bank(0);
        GlobalState {
            rom,
            dis,
            rules: data.rules,
            selection: None,
            lines,
            editing_comment: None,
            editing_label: None,
            comments: data.comments,
            bank: 0,
            rules_filename: rules_fname,
        }
    }

    /// Readies the annotations for saving: the comment entries that hold
    /// no text are dropped.
    pub fn save(&mut self)
        ensures
            final(self).comments@ == written(old(self).comments@),
            *final(self) == (GlobalState { comments: final(self).comments, ..*old(self) }),
    {
        retain_written(&mut self.comments);
    }

    /// Gives the address `pc` the name `name`, cleaned of the characters
    /// that a label name may not hold, and renders the bank on view anew.
    /// Returns where a caret that stood at `caret` in `name` stands in the
    /// cleaned name.
    pub fn rename_label(&mut self, pc: u32, name: &str, caret: usize) -> (moved: usize)
        requires
            old(self).wf(),
        ensures
            final(self).wf(),
            final(self).dis@ == (Analysis {
                label_names: old(self).dis@.label_names.insert(pc, sanitized(name@)),
                ..old(self).dis@
            }),
            line_views(final(self).lines@) == listing(final(self).dis@, old(self).bank as u32),
            moved == caret_after(caret, (name@.len() - sanitized(name@).len()) as nat),
            final(self).bank == old(self).bank,
            final(self).comments == old(self).comments,
            final(self).rules == old(self).rules,
    {
        let mut clean = String::from_str(name);
        let moved = edit_label(&mut clean, caret);
        self.dis.label_names.insert(pc, clean);
        assert(self.dis@.label_names =~= old(self).dis@.label_names.insert(pc, sanitized(name@)));
        self.lines = self.dis.print_bank(self.bank as u32);
        moved
    }

    /// Sets line `index` of the comment beside `pc` to `text`. Empty lines
    /// at the end of the comment are taken off, so that a cleared line
    /// leaves no trace, and a comment without lines loses its entry.
    pub fn set_comment(&mut self, pc: u32, index: usize, text: String)
        ensures
            comment_texts(final(self).comments@, pc) == trimmed(
                with_line(comment_texts(old(self).comments@, pc), index as nat, text@),
            ),
            final(self).comments@.contains_key(pc) <==> comment_texts(final(self).comments@, pc).len()
                > 0,
            forall|other: u32|
                other != pc ==> (#[trigger] final(self).comments@.contains_key(other) <==> old(
                    self,
                ).comments@.contains_key(other)),
            forall|other: u32|
                other != pc && old(self).comments@.contains_key(other)
                    ==> #[trigger] final(self).comments@[other] == old(self).comments@[other],
            *final(self) == (GlobalState { comments: final(self).comments, ..*old(self) }),
    {
        let ghost before = comment_texts(self.comments@, pc);
        let mut lines = match self.comments.remove(&pc) {
            Some(found) => found,
            None => Vec::new(),
        };
        assert(line_texts(lines@) =~= before);
        if index < lines.len() {
            lines[index] = text;
            assert(line_texts(lines@) =~= before.update(index as int, text@));
        } else {
            while lines.len() < index
                invariant
                    before.len() <= lines.len() <= index,
                    line_texts(lines@) == before + Seq::new(
                        (lines.len() - before.len()) as nat,
                        |i: int| Seq::<char>::empty(),
                    ),
                decreases index - lines.len(),
            {
                let ghost so_far = line_texts(lines@);
                lines.push(String::new());
                assert(line_texts(lines@) =~= so_far.push(Seq::empty()));
                assert(line_texts(lines@) =~= before + Seq::new(
                    (lines.len() - before.len()) as nat,
                    |i: int| Seq::<char>::empty(),
                ));
            }
            let ghost padded = line_texts(lines@);
            lines.push(text);
            assert(line_texts(lines@) =~= padded + seq![text@]);
        }
        let ghost full = line_texts(lines@);
        assert(full == with_line(before, index as nat, text@));
        while lines.len() > 0 && lines[lines.len() - 1].as_str().is_empty()
            invariant
                trimmed(line_texts(lines@)) == trimmed(full),
            decreases lines.len(),
        {
            let ghost longer = line_texts(lines@);
            lines.pop();
            assert(line_texts(lines@) =~= longer.drop_last());
        }
        assert(trimmed(line_texts(lines@)) == line_texts(lines@));
        if lines.len() > 0 {
            self.comments.insert(pc, lines);
        }
    }

    /// Renders the bank on view anew.
    pub fn update_lines(&mut self)
        requires
            old(self).wf(),
        ensures
            line_views(final(self).lines@) == listing(old(self).dis@, old(self).bank as u32),
            *final(self) == (GlobalState { lines: final(self).lines, ..*old(self) }),
    {
        self.lines = self.dis.print_bank(self.bank as u32);
    }
}

} // verus!
