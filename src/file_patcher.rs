//! Applying a line transform to a file's text, recording each changed line,
//! and preparing the two views of each change for display.
use vstd::prelude::*;
use vstd::string::*;

use std::path::PathBuf;

use crate::compact::{compact_views, compacted};
use crate::diff::{
    Diff,
    DiffType,
    alignment_view,
    diffs_from_alignment,
    diffs_view,
    flatten,
    without_kind,
};
use crate::lines::{
    joined,
    lemma_joined_lines,
    lemma_joined_push,
    lemma_lines_of_joined,
    lines_of,
    newline_free,
    newline_terminated,
    split_lines,
    strings_view,
};

verus! {

#[verifier::external_type_specification]
#[verifier::external_body]
pub struct ExPathBuf(std::path::PathBuf);

/// The character-level alignment that the `difference` crate computes for
/// an old and a new text.
pub uninterp spec fn char_alignment(old: Seq<char>, new: Seq<char>) -> Seq<(DiffType, Seq<char>)>;

/// Relies on difference::Changeset::new with the empty split: its `diffs`
/// are a character-level alignment computed from the two texts alone, whose
/// kept and removed fragments spell `old` and whose kept and added fragments
/// spell `new`. It builds an `old` by `new` table of indices, hence the bound.
#[verifier::external_body]
fn alignment(old: &str, new: &str) -> (r: Vec<difference::Difference>)
    requires
        old@.len() * new@.len() * 8 <= isize::MAX,
    ensures
        alignment_view(r@) == char_alignment(old@, new@),
        flatten(without_kind(alignment_view(r@), DiffType::Add)) == old@,
        flatten(without_kind(alignment_view(r@), DiffType::Rem)) == new@,
{
    difference::Changeset::new(old, new, "").diffs
}

/// One changed line: its number, counted from one, its old and its new text.
#[derive(Debug)]
pub struct Replacement {
    line_no: usize,
    old: String,
    new: String,
}

impl View for Replacement {
    type V = (nat, Seq<char>, Seq<char>);

    closed spec fn view(&self) -> (nat, Seq<char>, Seq<char>) {
        (self.line_no as nat, self.old@, self.new@)
    }
}

impl PartialEq for Replacement {
    fn eq(&self, o: &Replacement) -> (r: bool) {
        self.line_no == o.line_no && self.old == o.old && self.new == o.new
    }
}

impl vstd::std_specs::cmp::PartialEqSpecImpl for Replacement {
    open spec fn obeys_eq_spec() -> bool {
        true
    }

    open spec fn eq_spec(&self, o: &Replacement) -> bool {
        self@ == o@
    }
}

impl Eq for Replacement {

}

impl Replacement {
    pub fn new(line_no: usize, old: String, new: String) -> (r: Replacement)
        ensures
            r@ == (line_no as nat, old@, new@),
    {
        Replacement { line_no, old, new }
    }

    pub fn line_no(&self) -> (r: usize)
        ensures
            r as nat == self@.0,
    {
        self.line_no
    }

    pub fn old_line(&self) -> (r: &String)
        ensures
            r@ == self@.1,
    {
        &self.old
    }

    pub fn new_line(&self) -> (r: &String)
        ensures
            r@ == self@.2,
    {
        &self.new
    }

    /// The two compacted views of the change: the old line's fragments (kept
    /// and removed) and the new line's fragments (kept and added). They spell
    /// the old and the new line.
    pub fn views(&self) -> (r: (Vec<Diff>, Vec<Diff>))
        requires
            self@.1.len() * self@.2.len() * 8 <= isize::MAX,
        ensures
            diffs_view(r.0@) == compacted(without_kind(char_alignment(self@.1, self@.2), DiffType::Add)),
            diffs_view(r.1@) == compacted(without_kind(char_alignment(self@.1, self@.2), DiffType::Rem)),
            flatten(diffs_view(r.0@)) == self@.1,
            flatten(diffs_view(r.1@)) == self@.2,
    {
        let differences = alignment(self.old.as_str(), self.new.as_str());
        let diffs = diffs_from_alignment(&differences);
        compact_views(&diffs)
    }
}

/// The replacements among the first `k` lines: one for each line whose
/// transformed text differs, in order, numbered from one.
pub open spec fn replacements_upto(lines: Seq<Seq<char>>, outs: Seq<Seq<char>>, k: nat) -> Seq<
    (nat, Seq<char>, Seq<char>),
>
    decreases k,
{
    if k == 0 {
        Seq::empty()
    } else {
        let rest = replacements_upto(lines, outs, (k - 1) as nat);
        let i = k - 1;
        if outs[i] != lines[i] {
            rest.push((k, lines[i], outs[i]))
        } else {
            rest
        }
    }
}

/// The replacements of a whole text whose lines `lines` became `outs`.
pub open spec fn replacements_of(lines: Seq<Seq<char>>, outs: Seq<Seq<char>>) -> Seq<
    (nat, Seq<char>, Seq<char>),
> {
    replacements_upto(lines, outs, lines.len())
}

/// `transform` may return `out` for `line`.
pub open spec fn may_return<F: Fn(&str) -> String>(transform: F, line: Seq<char>, out: Seq<char>) -> bool {
    exists|s: &str, o: String| s@ == line && o@ == out && #[trigger] call_ensures(transform, (s,), o)
}

/// `outs` holds, for each line, a text that `transform` may return for it.
pub open spec fn transformed_by<F: Fn(&str) -> String>(
    transform: F,
    lines: Seq<Seq<char>>,
    outs: Seq<Seq<char>>,
) -> bool {
    &&& outs.len() == lines.len()
    &&& forall|i: int| 0 <= i < lines.len() ==> may_return(transform, lines[i], #[trigger] outs[i])
}

/// `transform` returns every line as it is.
pub open spec fn keeps_every_line<F: Fn(&str) -> String>(transform: F) -> bool {
    forall|s: &str, o: String| #[trigger] call_ensures(transform, (s,), o) ==> o@ == s@
}

/// Lines that a transform leaves as they are give no replacement.
proof fn lemma_no_replacements(lines: Seq<Seq<char>>, outs: Seq<Seq<char>>, k: nat)
    requires
        k <= lines.len(),
        k <= outs.len(),
        forall|i: int| 0 <= i < k ==> outs[i] == lines[i],
    ensures
        replacements_upto(lines, outs, k) == Seq::<(nat, Seq<char>, Seq<char>)>::empty(),
    decreases k,
{
    if k > 0 {
        lemma_no_replacements(lines, outs, (k - 1) as nat);
    }
}

/// When the transform returns each line of a text unchanged, there is no
/// replacement, and the new text is the old one, newline-terminated.
pub proof fn lemma_unchanged_lines(contents: Seq<char>, outs: Seq<Seq<char>>)
    requires
        outs == lines_of(contents),
    ensures
        replacements_of(lines_of(contents), outs) == Seq::<(nat, Seq<char>, Seq<char>)>::empty(),
        joined(outs) == newline_terminated(contents),
{
    lemma_no_replacements(lines_of(contents), outs, lines_of(contents).len());
    lemma_joined_lines(contents);
}

/// Patching a patched text once more, with a transform that returns each
/// new line as it is, finds the same lines, changes none of them and leaves
/// the text as it was.
pub proof fn lemma_repatch_is_stable(outs: Seq<Seq<char>>, outs_again: Seq<Seq<char>>)
    requires
        newline_free(outs),
        outs_again.len() == outs.len(),
        forall|i: int| 0 <= i < outs.len() ==> outs_again[i] == outs[i],
    ensures
        lines_of(joined(outs)) == outs,
        replacements_of(lines_of(joined(outs)), outs_again) == Seq::<
            (nat, Seq<char>, Seq<char>),
        >::empty(),
        joined(outs_again) == joined(outs),
{
    lemma_lines_of_joined(outs);
    lemma_no_replacements(outs, outs_again, outs.len());
    assert(outs_again =~= outs);
}

/// The outcome of patching one file: its path, the changed lines, and the
/// full new text.
pub struct FilePatcher {
    replacements: Vec<Replacement>,
    path: PathBuf,
    new_contents: String,
}

impl FilePatcher {
    /// The replacements, in the order of their lines.
    pub closed spec fn replacements_view(&self) -> Seq<(nat, Seq<char>, Seq<char>)> {
        self.replacements@.map_values(|r: Replacement| r@)
    }

    /// The new text of the file.
    pub closed spec fn contents_view(&self) -> Seq<char> {
        self.new_contents@
    }

    /// The file's path.
    pub closed spec fn path_view(&self) -> PathBuf {
        self.path
    }

    /// Patches a text whose lines `lines` became `new_lines`: each line that
    /// changed gives a replacement, and the new text holds each new line
    /// followed by a newline.
    pub fn from_lines(path: PathBuf, lines: &Vec<String>, new_lines: &Vec<String>) -> (r: FilePatcher)
        requires
            lines@.len() == new_lines@.len(),
        ensures
            r.replacements_view() == replacements_of(strings_view(lines@), strings_view(new_lines@)),
            r.contents_view() == joined(strings_view(new_lines@)),
            r.path_view() == path,
    {
        let ghost ls = strings_view(lines@);
        let ghost os = strings_view(new_lines@);
        let mut replacements: Vec<Replacement> = Vec::new();
        let mut new_contents = String::new();
        let n = lines.len();
        let mut i: usize = 0;
        while i < n
            invariant
                n == lines@.len(),
                n == new_lines@.len(),
                ls == strings_view(lines@),
                os == strings_view(new_lines@),
                0 <= i <= n,
                replacements@.map_values(|r: Replacement| r@) == replacements_upto(ls, os, i as nat),
                new_contents@ == joined(os.subrange(0, i as int)),
            decreases n - i,
        {
            let line = &lines[i];
            let new_line = &new_lines[i];
            let ghost prev = replacements@;
            if *new_line != *line {
                let replacement = Replacement::new(i + 1, line.clone(), new_line.clone());
                replacements.push(replacement);
                assert(replacements@.map_values(|r: Replacement| r@) =~= prev.map_values(
                    |r: Replacement| r@,
                ).push(((i + 1) as nat, ls[i as int], os[i as int])));
            }
            new_contents.append(new_line.as_str());
            new_contents.append("\n");
            proof {
                reveal_strlit("\n");
                assert(os.subrange(0, i + 1) =~= os.subrange(0, i as int).push(os[i as int]));
                lemma_joined_push(os.subrange(0, i as int), os[i as int]);
            }
            i = i + 1;
        }
        assert(os.subrange(0, n as int) =~= os);
        FilePatcher { replacements, path, new_contents }
    }

    /// Patches the text `contents` of the file at `path`: `transform` is
    /// applied to each line, each line that it changes gives a replacement,
    /// and the new text holds each transformed line followed by a newline.
    /// A transform that keeps every line gives no replacement and the text
    /// itself, newline-terminated.
    pub fn new<F: Fn(&str) -> String>(path: PathBuf, contents: &str, transform: F) -> (r: FilePatcher)
        requires
            forall|s: &str| call_requires(transform, (s,)),
        ensures
            exists|outs: Seq<Seq<char>>|
                {
                    &&& transformed_by(transform, lines_of(contents@), outs)
                    &&& r.replacements_view() == replacements_of(lines_of(contents@), outs)
                    &&& r.contents_view() == joined(outs)
                },
            keeps_every_line(transform) ==> r.replacements_view().len() == 0 && r.contents_view()
                == newline_terminated(contents@),
            r.path_view() == path,
    {
        let lines = split_lines(contents);
        let ghost ls = lines_of(contents@);
        let mut new_lines: Vec<String> = Vec::new();
        let n = lines.len();
        let mut i: usize = 0;
        while i < n
            invariant
                n == lines@.len(),
                ls == strings_view(lines@),
                forall|s: &str| call_requires(transform, (s,)),
                0 <= i <= n,
                new_lines@.len() == i,
                forall|j: int|
                    0 <= j < i ==> may_return(transform, ls[j], #[trigger] new_lines@[j]@),
                keeps_every_line(transform) ==> forall|j: int|
                    0 <= j < i ==> #[trigger] new_lines@[j]@ == ls[j],
            decreases n - i,
        {
            let line = lines[i].as_str();
            let new_line = transform(line);
            let ghost prev = new_lines@;
            new_lines.push(new_line);
            assert forall|j: int| 0 <= j < i + 1 implies may_return(
                transform,
                ls[j],
                #[trigger] new_lines@[j]@,
            ) by {
                if j < i {
                    assert(new_lines@[j] == prev[j]);
                } else {
                    assert(line@ == ls[j]);
                    assert(call_ensures(transform, (line,), new_lines@[j]));
                }
            }
            i = i + 1;
        }
        let r = Self::from_lines(path, &lines, &new_lines);
        let ghost outs = strings_view(new_lines@);
        assert(transformed_by(transform, ls, outs)) by {
            assert forall|j: int| 0 <= j < ls.len() implies may_return(transform, ls[j], #[trigger] outs[j]) by {
                assert(new_lines@[j]@ == outs[j]);
            }
        }
        proof {
            if keeps_every_line(transform) {
                assert(outs =~= ls);
                lemma_unchanged_lines(contents@, outs);
            }
        }
        r
    }

    pub fn replacements(&self) -> (r: &Vec<Replacement>)
        ensures
            r@.map_values(|x: Replacement| x@) == self.replacements_view(),
    {
        &self.replacements
    }

    pub fn path(&self) -> (r: &PathBuf)
        ensures
            *r == self.path_view(),
    {
        &self.path
    }

    pub fn new_contents(&self) -> (r: &String)
        ensures
            r@ == self.contents_view(),
    {
        &self.new_contents
    }
}

} // verus!
