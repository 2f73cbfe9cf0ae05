//! Merging of negligible kept gaps between two changed fragments of one kind.
use vstd::prelude::*;
use vstd::string::*;

use crate::diff::{Diff, DiffType, diffs_view, flatten, split_views, without_kind};

verus! {

/// Below this many characters, a kept fragment between two changed
/// fragments of one kind is absorbed into them.
pub const SHORT_SAME_LIMIT: usize = 3;

/// Position `i` is the middle of a kept fragment flanked by two added or by
/// two removed fragments.
pub open spec fn is_sandwich(t: Seq<(DiffType, Seq<char>)>, i: int) -> bool {
    &&& 1 <= i < t.len() - 1
    &&& t[i].0 == DiffType::Same
    &&& ((t[i - 1].0 == DiffType::Add && t[i + 1].0 == DiffType::Add) || (t[i - 1].0
        == DiffType::Rem && t[i + 1].0 == DiffType::Rem))
}

/// One step of the left-to-right pass over `t`, at position `i`, from the
/// output so far and the flag that says the token at `i` was absorbed already.
pub open spec fn compact_step(
    t: Seq<(DiffType, Seq<char>)>,
    i: int,
    res: Seq<(DiffType, Seq<char>)>,
    skip: bool,
) -> (Seq<(DiffType, Seq<char>)>, bool) {
    if skip {
        (res, false)
    } else if t[i].1.len() < SHORT_SAME_LIMIT && is_sandwich(t, i) {
        (res.update(res.len() - 1, (t[i - 1].0, res.last().1 + t[i].1 + t[i + 1].1)), true)
    } else {
        (res.push(t[i]), false)
    }
}

/// The output and the skip flag after the pass has seen the first `k` tokens.
pub open spec fn compact_prefix(t: Seq<(DiffType, Seq<char>)>, k: nat) -> (
    Seq<(DiffType, Seq<char>)>,
    bool,
)
    decreases k,
{
    if k == 0 {
        (Seq::empty(), false)
    } else {
        let p = compact_prefix(t, (k - 1) as nat);
        compact_step(t, k - 1, p.0, p.1)
    }
}

/// The compacted form of a token sequence.
pub open spec fn compacted(t: Seq<(DiffType, Seq<char>)>) -> Seq<(DiffType, Seq<char>)> {
    compact_prefix(t, t.len()).0
}

proof fn lemma_flatten_push(s: Seq<(DiffType, Seq<char>)>, x: (DiffType, Seq<char>))
    ensures
        flatten(s.push(x)) == flatten(s) + x.1,
{
    assert(s.push(x).drop_last() =~= s);
}

proof fn lemma_flatten_prefix(t: Seq<(DiffType, Seq<char>)>, j: int)
    requires
        0 <= j < t.len(),
    ensures
        flatten(t.subrange(0, j + 1)) == flatten(t.subrange(0, j)) + t[j].1,
{
    assert(t.subrange(0, j + 1) =~= t.subrange(0, j).push(t[j]));
    lemma_flatten_push(t.subrange(0, j), t[j]);
}

/// What holds of the pass after `k` tokens: the output is non-empty once a
/// token was seen, is no longer than what was seen, and spells the tokens
/// seen so far, together with the absorbed one when the flag is set.
proof fn lemma_compact_prefix(t: Seq<(DiffType, Seq<char>)>, k: nat)
    requires
        k <= t.len(),
    ensures
        k > 0 ==> compact_prefix(t, k).0.len() > 0,
        compact_prefix(t, k).0.len() <= k,
        compact_prefix(t, k).1 ==> k < t.len(),
        flatten(compact_prefix(t, k).0) == flatten(
            t.subrange(0, k + if compact_prefix(t, k).1 { 1int } else { 0int }),
        ),
    decreases k,
{
    if k == 0 {
        assert(t.subrange(0, 0) =~= Seq::<(DiffType, Seq<char>)>::empty());
    } else {
        let i = k - 1;
        lemma_compact_prefix(t, i as nat);
        let p = compact_prefix(t, i as nat);
        if p.1 {
        } else if t[i].1.len() < SHORT_SAME_LIMIT && is_sandwich(t, i) {
            let res = p.0;
            let y = (t[i - 1].0, res.last().1 + t[i].1 + t[i + 1].1);
            assert(res.update(res.len() - 1, y) =~= res.drop_last().push(y));
            assert(res =~= res.drop_last().push(res.last()));
            lemma_flatten_push(res.drop_last(), y);
            lemma_flatten_push(res.drop_last(), res.last());
            lemma_flatten_prefix(t, i);
            lemma_flatten_prefix(t, i + 1);
            assert(flatten(res.update(res.len() - 1, y)) =~= flatten(t.subrange(0, i + 2)));
        } else {
            lemma_flatten_push(p.0, t[i]);
            lemma_flatten_prefix(t, i);
        }
    }
}

/// A kept fragment between two added, or two removed, fragments is merged
/// with them into one fragment of that kind when it is shorter than three
/// characters, and stays a fragment of its own when it is longer.
pub proof fn lemma_sandwich_threshold(k: DiffType, a: Seq<char>, s: Seq<char>, b: Seq<char>)
    requires
        k == DiffType::Add || k == DiffType::Rem,
    ensures
        s.len() < 3 ==> compacted(seq![(k, a), (DiffType::Same, s), (k, b)]) == seq![(k, a + s + b)],
        s.len() >= 3 ==> compacted(seq![(k, a), (DiffType::Same, s), (k, b)]) == seq![
            (k, a),
            (DiffType::Same, s),
            (k, b),
        ],
{
    let t = seq![(k, a), (DiffType::Same, s), (k, b)];
    reveal_with_fuel(compact_prefix, 4);
    assert(compact_prefix(t, 1) == (seq![(k, a)], false));
    if s.len() < 3 {
        assert(is_sandwich(t, 1));
        assert(compact_prefix(t, 2).0 =~= seq![(k, a + s + b)]);
    } else {
        assert(compact_prefix(t, 2).0 =~= seq![(k, a), (DiffType::Same, s)]);
        assert(compact_prefix(t, 3).0 =~= t);
    }
}

/// A kept fragment between fragments of two different kinds is never
/// merged: the three fragments stay as they are.
pub proof fn lemma_mixed_sandwich_kept(
    k1: DiffType,
    a: Seq<char>,
    s: Seq<char>,
    k2: DiffType,
    b: Seq<char>,
)
    requires
        k1 != k2,
    ensures
        compacted(seq![(k1, a), (DiffType::Same, s), (k2, b)]) == seq![
            (k1, a),
            (DiffType::Same, s),
            (k2, b),
        ],
{
    let t = seq![(k1, a), (DiffType::Same, s), (k2, b)];
    reveal_with_fuel(compact_prefix, 4);
    assert(!is_sandwich(t, 1));
    assert(compact_prefix(t, 1).0 =~= seq![(k1, a)]);
    assert(compact_prefix(t, 2).0 =~= seq![(k1, a), (DiffType::Same, s)]);
    assert(compact_prefix(t, 3).0 =~= t);
}

fn is_add_sandwich(a: &Diff, b: &Diff, c: &Diff) -> (r: bool)
    ensures
        r == (a.diff_type == DiffType::Add && b.diff_type == DiffType::Same && c.diff_type
            == DiffType::Add),
{
    a.diff_type == DiffType::Add && b.diff_type == DiffType::Same && c.diff_type == DiffType::Add
}

fn is_rem_sandwich(a: &Diff, b: &Diff, c: &Diff) -> (r: bool)
    ensures
        r == (a.diff_type == DiffType::Rem && b.diff_type == DiffType::Same && c.diff_type
            == DiffType::Rem),
{
    a.diff_type == DiffType::Rem && b.diff_type == DiffType::Same && c.diff_type == DiffType::Rem
}

/// The token that absorbs the one at `index` and the one after it into
/// `last`, the token emitted before, if `index` is the middle of a sandwich.
fn squash(changeset: &Vec<Diff>, index: usize, last: &Diff) -> (r: Option<Diff>)
    requires
        index < changeset@.len(),
    ensures
        r is Some <==> is_sandwich(diffs_view(changeset@), index as int),
        r is Some ==> r->0@ == (
            changeset@[index - 1].diff_type,
            last.text@ + changeset@[index as int].text@ + changeset@[index + 1].text@,
        ),
{
    let n = changeset.len();
    if index < 1 {
        return None;
    }
    if index >= n - 1 {
        return None;
    }
    let current = &changeset[index];
    let previous = &changeset[index - 1];
    let next = &changeset[index + 1];
    let squashed_text = last.text.clone().concat(current.text.as_str()).concat(next.text.as_str());
    if is_add_sandwich(previous, current, next) {
        return Some(Diff::new_add(squashed_text.as_str()));
    }
    if is_rem_sandwich(previous, current, next) {
        return Some(Diff::new_rem(squashed_text.as_str()));
    }
    None
}

/// Compacts one view of an alignment in a single left-to-right pass: a kept
/// fragment shorter than three characters between two added (or two removed)
/// fragments is merged, together with the fragment after it, into the
/// fragment emitted before it. The text spelled by the tokens is unchanged.
pub fn compact_changeset(changeset: &Vec<Diff>) -> (r: Vec<Diff>)
    ensures
        diffs_view(r@) == compacted(diffs_view(changeset@)),
        flatten(diffs_view(r@)) == flatten(diffs_view(changeset@)),
        r@.len() <= changeset@.len(),
{
    let ghost t = diffs_view(changeset@);
    let mut res: Vec<Diff> = Vec::new();
    let n = changeset.len();
    let mut skip_next = false;
    let mut i: usize = 0;
    while i < n
        invariant
            n == changeset@.len(),
            t == diffs_view(changeset@),
            0 <= i <= n,
            (diffs_view(res@), skip_next) == compact_prefix(t, i as nat),
        decreases n - i,
    {
        proof {
            lemma_compact_prefix(t, i as nat);
        }
        let current_diff = &changeset[i];
        if skip_next {
            skip_next = false;
        } else {
            let short = current_diff.text.as_str().unicode_len() < SHORT_SAME_LIMIT;
            let squashed = if short && i > 0 {
                squash(changeset, i, &res[res.len() - 1])
            } else {
                None
            };
            match squashed {
                Some(s) => {
                    let k = res.len() - 1;
                    res.set(k, s);
                    skip_next = true;
                },
                None => {
                    res.push(current_diff.duplicate());
                },
            }
        }
        assert(diffs_view(res@) =~= compact_prefix(t, (i + 1) as nat).0);
        i = i + 1;
    }
    proof {
        lemma_compact_prefix(t, n as nat);
        assert(t.subrange(0, n as int) =~= t);
    }
    res
}

/// The two views of an alignment, each compacted: the old text's (kept and
/// removed fragments) and the new text's (kept and added fragments).
pub fn compact_views(alignment: &Vec<Diff>) -> (r: (Vec<Diff>, Vec<Diff>))
    ensures
        diffs_view(r.0@) == compacted(without_kind(diffs_view(alignment@), DiffType::Add)),
        diffs_view(r.1@) == compacted(without_kind(diffs_view(alignment@), DiffType::Rem)),
        flatten(diffs_view(r.0@)) == flatten(without_kind(diffs_view(alignment@), DiffType::Add)),
        flatten(diffs_view(r.1@)) == flatten(without_kind(diffs_view(alignment@), DiffType::Rem)),
{
    let (rem_changes, add_changes) = split_views(alignment);
    (compact_changeset(&rem_changes), compact_changeset(&add_changes))
}

} // verus!
