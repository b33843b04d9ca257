//! Splitting text into lines and joining lines into text.
use vstd::prelude::*;
use crate::text::push_char;

verus! {

/// The pieces of `s` between its newlines: one more than it has newlines.
pub open spec fn pieces(s: Seq<char>) -> Seq<Seq<char>>
    decreases s.len(),
{
    if s.len() == 0 {
        seq![Seq::empty()]
    } else if s.last() == '\n' {
        pieces(s.drop_last()).push(Seq::empty())
    } else {
        let p = pieces(s.drop_last());
        p.update(p.len() - 1, p.last().push(s.last()))
    }
}

/// The lines of `s`: its pieces, less an empty piece after a final newline.
pub open spec fn lines_of(s: Seq<char>) -> Seq<Seq<char>> {
    let p = pieces(s);
    if p.last().len() == 0 {
        p.drop_last()
    } else {
        p
    }
}

/// The lines joined with a newline between each two.
pub open spec fn join_lines(ls: Seq<Seq<char>>) -> Seq<char>
    decreases ls.len(),
{
    if ls.len() == 0 {
        Seq::empty()
    } else if ls.len() == 1 {
        ls[0]
    } else {
        join_lines(ls.drop_last()) + seq!['\n'] + ls.last()
    }
}

proof fn lemma_pieces_len(s: Seq<char>)
    ensures
        pieces(s).len() >= 1,
    decreases s.len(),
{
    if s.len() > 0 {
        lemma_pieces_len(s.drop_last());
    }
}

/// The lines of `text`, as `str::lines` gives them for text without
/// carriage returns.
pub fn split_lines(text: &str) -> (r: Vec<String>)
    ensures
        r@.map_values(|l: String| l@) == lines_of(text@),
{
    let n = text.unicode_len();
    let mut done: Vec<String> = Vec::new();
    let mut current = String::new();
    let mut i: usize = 0;
    assert(text@.subrange(0, 0) =~= Seq::<char>::empty());
    assert(done@.map_values(|l: String| l@).push(current@) =~= pieces(Seq::<char>::empty()));
    while i < n
        invariant
            i <= n,
            n == text@.len(),
            done@.map_values(|l: String| l@).push(current@) == pieces(text@.subrange(0, i as int)),
        decreases n - i,
    {
        let c = text.get_char(i);
        let ghost before = text@.subrange(0, i as int);
        let ghost after = text@.subrange(0, i + 1);
        assert(after.drop_last() =~= before);
        assert(after.last() == c);
        proof { lemma_pieces_len(before); }
        if c == '\n' {
            done.push(current);
            current = String::new();
            assert(done@.map_values(|l: String| l@).push(current@) =~= pieces(after));
        } else {
            let ghost old_current = current@;
            push_char(&mut current, c);
            assert(done@.map_values(|l: String| l@).push(current@) =~= pieces(after));
        }
        i = i + 1;
    }
    assert(text@.subrange(0, n as int) =~= text@);
    if current.unicode_len() > 0 {
        done.push(current);
    }
    assert(done@.map_values(|l: String| l@) =~= lines_of(text@));
    done
}

/// The lines joined with a newline between each two, with none at the end.
pub fn join_text(lines: &Vec<String>) -> (r: String)
    ensures
        r@ == join_lines(lines@.map_values(|l: String| l@)),
{
    let ghost ls = lines@.map_values(|l: String| l@);
    let mut text = String::new();
    let mut i: usize = 0;
    assert(ls.subrange(0, 0) =~= Seq::<Seq<char>>::empty());
    while i < lines.len()
        invariant
            i <= lines@.len(),
            ls == lines@.map_values(|l: String| l@),
            text@ == join_lines(ls.subrange(0, i as int)),
        decreases lines@.len() - i,
    {
        let ghost next = ls.subrange(0, i + 1);
        assert(next.drop_last() =~= ls.subrange(0, i as int));
        if i > 0 {
            push_char(&mut text, '\n');
        }
        text.append(lines[i].as_str());
        proof {
            if i == 0 {
                assert(text@ =~= next[0]);
            } else {
                assert(text@ =~= join_lines(ls.subrange(0, i as int)) + seq!['\n'] + next.last());
            }
        }
        i = i + 1;
    }
    assert(ls.subrange(0, i as int) =~= ls);
    text
}

} // verus!

verus! {

pub open spec fn has_newline(s: Seq<char>) -> bool {
    exists|i: int| 0 <= i < s.len() && s[i] == '\n'
}

proof fn lemma_pieces_extend(s: Seq<char>, b: Seq<char>)
    requires
        !has_newline(b),
    ensures
        pieces(s + b) == pieces(s).update(pieces(s).len() - 1, pieces(s).last() + b),
    decreases b.len(),
{
    lemma_pieces_len(s);
    if b.len() == 0 {
        assert(s + b =~= s);
        assert(pieces(s).last() + b =~= pieces(s).last());
        assert(pieces(s).update(pieces(s).len() - 1, pieces(s).last()) =~= pieces(s));
    } else {
        let c = b.last();
        let b0 = b.drop_last();
        assert(!has_newline(b0)) by {
            if has_newline(b0) {
                let i = choose|i: int| 0 <= i < b0.len() && b0[i] == '\n';
                assert(b[i] == '\n');
            }
        }
        assert(c != '\n') by {
            assert(b[b.len() - 1] == c);
        }
        lemma_pieces_extend(s, b0);
        assert((s + b).drop_last() =~= s + b0);
        assert((s + b).last() == c);
        lemma_pieces_len(s + b0);
        assert(pieces(s).last() + b0 + seq![c] =~= pieces(s).last() + b);
        let q = pieces(s + b0);
        assert(pieces(s + b) == q.update(q.len() - 1, q.last().push(c)));
        assert(q.len() == pieces(s).len());
        assert(q.last() == pieces(s).last() + b0);
        assert(q.last().push(c) =~= pieces(s).last() + b);
        assert(pieces(s + b) =~= pieces(s).update(pieces(s).len() - 1, pieces(s).last() + b));
    }
}

/// Joined lines without newlines split back into the same lines.
pub proof fn lemma_pieces_of_join(ls: Seq<Seq<char>>)
    requires
        ls.len() >= 1,
        forall|i: int| 0 <= i < ls.len() ==> !has_newline(#[trigger] ls[i]),
    ensures
        pieces(join_lines(ls)) == ls,
    decreases ls.len(),
{
    if ls.len() == 1 {
        lemma_pieces_extend(Seq::empty(), ls[0]);
        assert(Seq::<char>::empty() + ls[0] =~= ls[0]);
        assert(Seq::<char>::empty() + ls[0] =~= ls[0]);
        assert(pieces(ls[0]) =~= ls);
    } else {
        let p = ls.drop_last();
        assert forall|i: int| 0 <= i < p.len() implies !has_newline(#[trigger] p[i]) by {
            assert(p[i] == ls[i]);
        }
        lemma_pieces_of_join(p);
        let j = join_lines(p).push('\n');
        assert(join_lines(p) + seq!['\n'] =~= j);
        assert(j.drop_last() =~= join_lines(p));
        assert(pieces(j) == p.push(Seq::empty()));
        assert(!has_newline(ls.last())) by {
            assert(ls[ls.len() - 1] == ls.last());
        }
        lemma_pieces_extend(j, ls.last());
        lemma_pieces_len(j);
        assert(Seq::<char>::empty() + ls.last() =~= ls.last());
        assert(pieces(join_lines(ls)) =~= ls);
    }
}

/// Lines that are not empty and hold no newline, once joined, split back
/// into the same lines.
pub proof fn lemma_lines_of_join(ls: Seq<Seq<char>>)
    requires
        forall|i: int| 0 <= i < ls.len() ==> !has_newline(#[trigger] ls[i]) && ls[i].len() > 0,
    ensures
        lines_of(join_lines(ls)) == ls,
{
    if ls.len() == 0 {
        assert(pieces(Seq::<char>::empty()) =~= seq![Seq::<char>::empty()]);
        assert(lines_of(join_lines(ls)) =~= ls);
    } else {
        lemma_pieces_of_join(ls);
        assert(ls.last() == ls[ls.len() - 1]);
    }
}

} // verus!
