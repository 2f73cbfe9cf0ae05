//! Classified text fragments of a character-level alignment.
use vstd::prelude::*;
use vstd::string::*;

verus! {

#[verifier::external_type_specification]
pub struct ExDifference(difference::Difference);

/// The kind of a fragment: kept in both texts, removed from the old one,
/// or added in the new one.
#[derive(PartialEq, Eq, Structural, Clone, Copy, Debug)]
pub enum DiffType {
    Rem,
    Same,
    Add,
}

/// One fragment of an alignment, with its kind.
#[derive(Clone, Debug)]
pub struct Diff {
    pub diff_type: DiffType,
    pub text: String,
}

impl View for Diff {
    type V = (DiffType, Seq<char>);

    open spec fn view(&self) -> (DiffType, Seq<char>) {
        (self.diff_type, self.text@)
    }
}

impl PartialEq for Diff {
    fn eq(&self, o: &Diff) -> (r: bool) {
        self.diff_type == o.diff_type && self.text == o.text
    }
}

impl vstd::std_specs::cmp::PartialEqSpecImpl for Diff {
    open spec fn obeys_eq_spec() -> bool {
        true
    }

    open spec fn eq_spec(&self, o: &Diff) -> bool {
        self@ == o@
    }
}

/// The view of each fragment of a sequence.
pub open spec fn diffs_view(v: Seq<Diff>) -> Seq<(DiffType, Seq<char>)> {
    v.map_values(|d: Diff| d@)
}

/// The view of an outside alignment entry.
pub open spec fn difference_view(d: difference::Difference) -> (DiffType, Seq<char>) {
    match d {
        difference::Difference::Same(s) => (DiffType::Same, s@),
        difference::Difference::Rem(s) => (DiffType::Rem, s@),
        difference::Difference::Add(s) => (DiffType::Add, s@),
    }
}

/// All texts of a token sequence, one after the other.
pub open spec fn flatten(t: Seq<(DiffType, Seq<char>)>) -> Seq<char>
    decreases t.len(),
{
    if t.len() == 0 {
        Seq::empty()
    } else {
        flatten(t.drop_last()) + t.last().1
    }
}

/// The tokens of `t` that are not of kind `k`, in order.
pub open spec fn without_kind(t: Seq<(DiffType, Seq<char>)>, k: DiffType) -> Seq<(DiffType, Seq<char>)>
    decreases t.len(),
{
    if t.len() == 0 {
        Seq::empty()
    } else if t.last().0 == k {
        without_kind(t.drop_last(), k)
    } else {
        without_kind(t.drop_last(), k).push(t.last())
    }
}

impl Diff {
    /// A fragment that is a copy of this one.
    pub fn duplicate(&self) -> (r: Diff)
        ensures
            r@ == self@,
    {
        Diff { diff_type: self.diff_type, text: self.text.clone() }
    }

    pub fn from_difference(difference: &difference::Difference) -> (r: Diff)
        ensures
            r@ == difference_view(*difference),
    {
        match difference {
            difference::Difference::Add(s) => Self::new_add(s.as_str()),
            difference::Difference::Rem(s) => Self::new_rem(s.as_str()),
            difference::Difference::Same(s) => Self::new_same(s.as_str()),
        }
    }

    pub fn new_add(text: &str) -> (r: Diff)
        ensures
            r@ == (DiffType::Add, text@),
    {
        Diff { diff_type: DiffType::Add, text: text.to_owned() }
    }

    pub fn new_same(text: &str) -> (r: Diff)
        ensures
            r@ == (DiffType::Same, text@),
    {
        Diff { diff_type: DiffType::Same, text: text.to_owned() }
    }

    pub fn new_rem(text: &str) -> (r: Diff)
        ensures
            r@ == (DiffType::Rem, text@),
    {
        Diff { diff_type: DiffType::Rem, text: text.to_owned() }
    }

    pub fn diff_type(&self) -> (r: DiffType)
        ensures
            r == self.diff_type,
    {
        self.diff_type
    }

    pub fn text(&self) -> (r: &String)
        ensures
            r == &self.text,
    {
        &self.text
    }
}

/// The view of each entry of an outside alignment.
pub open spec fn alignment_view(a: Seq<difference::Difference>) -> Seq<(DiffType, Seq<char>)> {
    a.map_values(|d: difference::Difference| difference_view(d))
}

/// Turns each entry of an outside alignment into a fragment of the same kind
/// and text.
pub fn diffs_from_alignment(alignment: &Vec<difference::Difference>) -> (r: Vec<Diff>)
    ensures
        diffs_view(r@) == alignment_view(alignment@),
{
    let mut res: Vec<Diff> = Vec::new();
    let n = alignment.len();
    let mut i: usize = 0;
    while i < n
        invariant
            n == alignment@.len(),
            0 <= i <= n,
            res@.len() == i,
            diffs_view(res@) == alignment_view(alignment@.subrange(0, i as int)),
        decreases n - i,
    {
        let d = Diff::from_difference(&alignment[i]);
        let ghost prev = res@;
        res.push(d);
        assert forall|j: int| 0 <= j < i + 1 implies #[trigger] diffs_view(res@)[j] == alignment_view(
            alignment@.subrange(0, i + 1),
        )[j] by {
            if j < i {
                assert(diffs_view(prev)[j] == alignment_view(alignment@.subrange(0, i as int))[j]);
            }
        }
        assert(diffs_view(res@) =~= alignment_view(alignment@.subrange(0, i + 1)));
        i = i + 1;
    }
    assert(alignment@.subrange(0, n as int) =~= alignment@);
    res
}

/// Splits an alignment into its two views: the old text's tokens (kept and
/// removed) and the new text's tokens (kept and added), each in order.
pub fn split_views(diffs: &Vec<Diff>) -> (r: (Vec<Diff>, Vec<Diff>))
    ensures
        diffs_view(r.0@) == without_kind(diffs_view(diffs@), DiffType::Add),
        diffs_view(r.1@) == without_kind(diffs_view(diffs@), DiffType::Rem),
{
    let mut rem_changes: Vec<Diff> = Vec::new();
    let mut add_changes: Vec<Diff> = Vec::new();
    let n = diffs.len();
    let mut i: usize = 0;
    while i < n
        invariant
            n == diffs@.len(),
            0 <= i <= n,
            diffs_view(rem_changes@) == without_kind(diffs_view(diffs@.subrange(0, i as int)), DiffType::Add),
            diffs_view(add_changes@) == without_kind(diffs_view(diffs@.subrange(0, i as int)), DiffType::Rem),
        decreases n - i,
    {
        let ghost before = diffs_view(diffs@.subrange(0, i as int));
        let ghost after = diffs_view(diffs@.subrange(0, i + 1));
        assert(after.drop_last() =~= before);
        assert(after.last() == diffs@[i as int]@);
        let diff = &diffs[i];
        match diff.diff_type {
            DiffType::Same => {
                add_changes.push(diff.duplicate());
                rem_changes.push(diff.duplicate());
            },
            DiffType::Rem => {
                rem_changes.push(diff.duplicate());
            },
            DiffType::Add => {
                add_changes.push(diff.duplicate());
            },
        }
        assert(diffs_view(rem_changes@) =~= without_kind(after, DiffType::Add));
        assert(diffs_view(add_changes@) =~= without_kind(after, DiffType::Rem));
        i = i + 1;
    }
    assert(diffs@.subrange(0, n as int) =~= diffs@);
    (rem_changes, add_changes)
}

} // verus!
