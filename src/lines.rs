//! Splitting a text into newline-terminated lines and joining them back.
use vstd::prelude::*;
use vstd::std_specs::iter::IteratorSpec;
use vstd::string::*;

verus! {

/// The view of each string of a sequence.
pub open spec fn strings_view(v: Seq<String>) -> Seq<Seq<char>> {
    v.map_values(|s: String| s@)
}

/// The pieces of `s` between newlines, including the (possibly empty) piece
/// after the last newline.
pub open spec fn pieces(s: Seq<char>) -> Seq<Seq<char>>
    decreases s.len(),
{
    if s.len() == 0 {
        seq![Seq::empty()]
    } else {
        let p = pieces(s.drop_last());
        if s.last() == '\n' {
            p.push(Seq::empty())
        } else {
            p.update(p.len() - 1, p.last().push(s.last()))
        }
    }
}

/// The lines of `s`: the pieces between newlines, where a final newline
/// ends the last line rather than starting an empty one.
pub open spec fn lines_of(s: Seq<char>) -> Seq<Seq<char>> {
    let p = pieces(s);
    if p.last().len() == 0 {
        p.drop_last()
    } else {
        p
    }
}

/// Each line followed by a newline, one after the other.
pub open spec fn joined(ls: Seq<Seq<char>>) -> Seq<char>
    decreases ls.len(),
{
    if ls.len() == 0 {
        Seq::empty()
    } else {
        joined(ls.drop_last()) + ls.last() + seq!['\n']
    }
}

/// `s` with a newline added at its end unless it is empty or ends with one.
pub open spec fn newline_terminated(s: Seq<char>) -> Seq<char> {
    if s.len() == 0 || s.last() == '\n' {
        s
    } else {
        s.push('\n')
    }
}

/// No line of `ls` holds a newline.
pub open spec fn newline_free(ls: Seq<Seq<char>>) -> bool {
    forall|j: int| 0 <= j < ls.len() ==> !(#[trigger] ls[j]).contains('\n')
}

pub proof fn lemma_joined_push(ls: Seq<Seq<char>>, l: Seq<char>)
    ensures
        joined(ls.push(l)) == joined(ls) + l + seq!['\n'],
{
    assert(ls.push(l).drop_last() =~= ls);
}

/// The pieces of `s` spell `s` when joined by newlines, hold no newline, and
/// the last one is empty exactly when `s` is empty or ends with a newline.
proof fn lemma_pieces(s: Seq<char>)
    ensures
        pieces(s).len() > 0,
        joined(pieces(s).drop_last()) + pieces(s).last() == s,
        newline_free(pieces(s)),
        pieces(s).last().len() == 0 <==> (s.len() == 0 || s.last() == '\n'),
    decreases s.len(),
{
    if s.len() == 0 {
        assert(pieces(s).drop_last() =~= Seq::<Seq<char>>::empty());
        assert(s =~= Seq::<char>::empty());
        assert(!Seq::<char>::empty().contains('\n'));
    } else {
        let t = s.drop_last();
        lemma_pieces(t);
        let p = pieces(t);
        if s.last() == '\n' {
            let e = Seq::<char>::empty();
            assert(p.push(e).drop_last() =~= p);
            assert(p =~= p.drop_last().push(p.last()));
            lemma_joined_push(p.drop_last(), p.last());
            assert(joined(p) + e =~= s);
            assert(!e.contains('\n'));
            assert forall|j: int| 0 <= j < p.push(e).len() implies !(#[trigger] p.push(e)[j]).contains(
                '\n',
            ) by {
                if j < p.len() {
                    assert(p.push(e)[j] == p[j]);
                }
            }
        } else {
            let q = p.update(p.len() - 1, p.last().push(s.last()));
            assert(q.drop_last() =~= p.drop_last());
            assert(q.last() == p.last().push(s.last()));
            assert(s =~= t.push(s.last()));
            assert((joined(p.drop_last()) + p.last()).push(s.last()) =~= joined(p.drop_last())
                + p.last().push(s.last()));
            assert(joined(q.drop_last()) + q.last() =~= s);
            assert forall|j: int| 0 <= j < q.len() implies !(#[trigger] q[j]).contains('\n') by {
                if j < p.len() - 1 {
                    assert(q[j] == p[j]);
                } else {
                    assert(q[j] == p.last().push(s.last()));
                    assert(!p[p.len() - 1].contains('\n'));
                    if q[j].contains('\n') {
                        let k = choose|k: int| 0 <= k < q[j].len() && q[j][k] == '\n';
                        if k < p.last().len() {
                            assert(p.last()[k] == '\n');
                        }
                    }
                }
            }
        }
    }
}

/// Joining the lines of `s` gives `s` back, with a final newline where it
/// had none; and no line holds a newline.
pub proof fn lemma_joined_lines(s: Seq<char>)
    ensures
        joined(lines_of(s)) == newline_terminated(s),
        newline_free(lines_of(s)),
{
    lemma_pieces(s);
    let p = pieces(s);
    if p.last().len() == 0 {
        assert(joined(p.drop_last()) + p.last() =~= joined(p.drop_last()));
        assert forall|j: int| 0 <= j < p.drop_last().len() implies !(#[trigger] p.drop_last()[j]).contains(
            '\n',
        ) by {
            assert(p.drop_last()[j] == p[j]);
        }
    } else {
        assert(p =~= p.drop_last().push(p.last()));
        lemma_joined_push(p.drop_last(), p.last());
        assert(joined(p) =~= s.push('\n'));
    }
}

/// Appending a newline-free text to `x` extends the last piece of `x`.
proof fn lemma_pieces_append(x: Seq<char>, l: Seq<char>)
    requires
        !l.contains('\n'),
    ensures
        pieces(x + l) == pieces(x).update(pieces(x).len() - 1, pieces(x).last() + l),
    decreases l.len(),
{
    lemma_pieces(x);
    if l.len() == 0 {
        assert(x + l =~= x);
        assert(pieces(x).last() + l =~= pieces(x).last());
        assert(pieces(x).update(pieces(x).len() - 1, pieces(x).last()) =~= pieces(x));
    } else {
        let m = l.drop_last();
        assert(!m.contains('\n')) by {
            if m.contains('\n') {
                let k = choose|k: int| 0 <= k < m.len() && m[k] == '\n';
                assert(l[k] == '\n');
            }
        }
        assert(l.last() != '\n') by {
            assert(l[l.len() - 1] == l.last());
        }
        lemma_pieces_append(x, m);
        assert((x + l).drop_last() =~= x + m);
        assert((x + l).last() == l.last());
        let p = pieces(x);
        let pm = p.update(p.len() - 1, p.last() + m);
        assert(pm.last() == p.last() + m);
        assert(l =~= m.push(l.last()));
        assert((p.last() + m).push(l.last()) =~= p.last() + l);
        assert(pm.update(pm.len() - 1, pm.last().push(l.last())) =~= p.update(
            p.len() - 1,
            p.last() + l,
        ));
    }
}

/// Lines that hold no newline are recovered from their joined text.
pub proof fn lemma_lines_of_joined(ls: Seq<Seq<char>>)
    requires
        newline_free(ls),
    ensures
        lines_of(joined(ls)) == ls,
        pieces(joined(ls)) == ls.push(Seq::empty()),
    decreases ls.len(),
{
    if ls.len() == 0 {
        assert(pieces(joined(ls)) =~= ls.push(Seq::empty()));
    } else {
        let rest = ls.drop_last();
        let l = ls.last();
        assert(newline_free(rest)) by {
            assert forall|j: int| 0 <= j < rest.len() implies !(#[trigger] rest[j]).contains('\n') by {
                assert(rest[j] == ls[j]);
            }
        }
        assert(!l.contains('\n')) by {
            assert(ls[ls.len() - 1] == l);
        }
        lemma_lines_of_joined(rest);
        let x = joined(rest);
        lemma_pieces_append(x, l);
        let xl = x + l;
        assert(joined(ls) == xl + seq!['\n']);
        assert((xl + seq!['\n']).drop_last() =~= xl);
        assert((xl + seq!['\n']).last() == '\n');
        let e = Seq::<char>::empty();
        assert(rest.push(e).update(rest.len() as int, e + l) =~= ls);
        assert(e + l =~= l);
        assert(pieces(joined(ls)) =~= ls.push(e));
        assert(ls.push(e).drop_last() =~= ls);
    }
}

/// Relies on String::push: appends one character at the end.
#[verifier::external_body]
fn push_char(s: &mut String, c: char)
    ensures
        final(s)@ == old(s)@.push(c),
{
    s.push(c)
}

/// The lines of a text: the pieces between newline characters, where a
/// final newline ends the last line rather than starting an empty one.
pub fn split_lines(contents: &str) -> (r: Vec<String>)
    ensures
        strings_view(r@) == lines_of(contents@),
{
    let mut lines: Vec<String> = Vec::new();
    let mut current = String::new();
    let mut it = contents.chars();
    let ghost s = contents@;
    let ghost mut i: int = 0;
    loop
        invariant
            0 <= i <= s.len(),
            it.remaining() == s.subrange(i, s.len() as int),
            strings_view(lines@).push(current@) == pieces(s.subrange(0, i)),
        ensures
            i == s.len(),
            strings_view(lines@).push(current@) == pieces(s.subrange(0, i)),
        decreases s.len() - i,
    {
        let ghost rem = it.remaining();
        match it.next() {
            Some(c) => {
                proof {
                    assert(c == s[i]);
                    assert(s.subrange(0, i + 1).drop_last() =~= s.subrange(0, i));
                    assert(s.subrange(0, i + 1).last() == c);
                    assert(it.remaining() =~= s.subrange(i + 1, s.len() as int));
                }
                if c == '\n' {
                    lines.push(current);
                    current = String::new();
                } else {
                    push_char(&mut current, c);
                }
                proof {
                    i = i + 1;
                }
                assert(strings_view(lines@).push(current@) =~= pieces(s.subrange(0, i)));
            },
            None => {
                assert(rem.len() == 0);
                assert(i == s.len());
                break ;
            },
        }
    }
    proof {
        assert(s.subrange(0, i) =~= s);
        assert(strings_view(lines@).push(current@).drop_last() =~= strings_view(lines@));
    }
    if !current.as_str().is_empty() {
        lines.push(current);
        assert(strings_view(lines@) =~= pieces(s));
    }
    lines
}

} // verus!
