//! A document as a sequence of lines: splitting text at newlines, joining
//! lines with newlines, the text between two line starts, and replacing it.
use vstd::prelude::*;

use crate::text::{no_newline, seqs_of};

verus! {

/// `t` cut at every newline (`str::split('\n')`): one piece more than there
/// are newlines.
pub open spec fn split_newlines(t: Seq<char>) -> Seq<Seq<char>>
    decreases t.len(),
{
    if t.len() == 0 {
        seq![Seq::empty()]
    } else {
        let s = split_newlines(t.drop_last());
        if t.last() == '\n' {
            s.push(Seq::empty())
        } else {
            s.update(s.len() - 1, s.last().push(t.last()))
        }
    }
}

/// The lines joined with a newline between each two (`join("\n")`).
pub open spec fn join_newlines(ls: Seq<Seq<char>>) -> Seq<char>
    decreases ls.len(),
{
    if ls.len() == 0 {
        Seq::empty()
    } else if ls.len() == 1 {
        ls[0]
    } else {
        join_newlines(ls.drop_last()).push('\n') + ls.last()
    }
}

/// Every line of `ls` is free of newlines.
pub open spec fn all_no_newline(ls: Seq<Seq<char>>) -> bool {
    forall|i: int| 0 <= i < ls.len() ==> no_newline(#[trigger] ls[i])
}

/// The text from the start of line `a` to the start of line `b`: each line
/// followed by its newline.  When `b` is the line count the text runs to the
/// end of the document, so the last line has no newline after it.
pub open spec fn selected_text(lines: Seq<Seq<char>>, a: int, b: int) -> Seq<char> {
    if b < lines.len() {
        join_newlines(lines.subrange(a, b).push(Seq::empty()))
    } else {
        join_newlines(lines.subrange(a, lines.len() as int))
    }
}

/// The document after the text from the start of line `a` to the start of
/// line `b` (or to the end, when `b` is the line count) is replaced by `r`.
pub open spec fn replace_text(lines: Seq<Seq<char>>, a: int, b: int, r: Seq<char>) -> Seq<Seq<char>> {
    let pieces = split_newlines(r);
    if b < lines.len() {
        lines.subrange(0, a) + pieces.drop_last() + seq![pieces.last() + lines[b]] + lines.subrange(
            b + 1,
            lines.len() as int,
        )
    } else {
        lines.subrange(0, a) + pieces
    }
}

pub proof fn lemma_split_len(t: Seq<char>)
    ensures
        split_newlines(t).len() >= 1,
    decreases t.len(),
{
    if t.len() > 0 {
        lemma_split_len(t.drop_last());
    }
}

/// Appending newline-free text to `x` extends the last piece of its split.
pub proof fn lemma_split_append_plain(x: Seq<char>, y: Seq<char>)
    requires
        no_newline(y),
    ensures
        split_newlines(x + y) == split_newlines(x).update(
            split_newlines(x).len() - 1,
            split_newlines(x).last() + y,
        ),
    decreases y.len(),
{
    lemma_split_len(x);
    let s = split_newlines(x);
    if y.len() == 0 {
        assert(x + y =~= x);
        assert(s.last() + y =~= s.last());
        assert(s.update(s.len() - 1, s.last()) =~= s);
    } else {
        let y0 = y.drop_last();
        assert(no_newline(y0)) by {
            assert forall|j: int| 0 <= j < y0.len() implies #[trigger] y0[j] != '\n' by {
                assert(y0[j] == y[j]);
            }
        }
        lemma_split_append_plain(x, y0);
        assert((x + y).drop_last() =~= x + y0);
        assert((x + y).last() == y.last());
        assert(y.last() != '\n');
        let s0 = split_newlines(x + y0);
        assert(s0 == s.update(s.len() - 1, s.last() + y0));
        assert(s0.last() == s.last() + y0);
        assert(s0.last().push(y.last()) =~= s.last() + y);
        assert(s0.update(s0.len() - 1, s0.last().push(y.last())) =~= s.update(
            s.len() - 1,
            s.last() + y,
        ));
    }
}

/// Splitting the joined lines gives the lines back.
pub proof fn lemma_split_join(ls: Seq<Seq<char>>)
    requires
        ls.len() >= 1,
        all_no_newline(ls),
    ensures
        split_newlines(join_newlines(ls)) == ls,
    decreases ls.len(),
{
    if ls.len() == 1 {
        assert(no_newline(ls[0]));
        lemma_split_append_plain(Seq::<char>::empty(), ls[0]);
        assert(Seq::<char>::empty() + ls[0] =~= ls[0]);
        assert(split_newlines(Seq::<char>::empty()) == seq![Seq::<char>::empty()]);
        assert(Seq::<char>::empty() + ls[0] =~= ls[0]);
        assert(seq![Seq::<char>::empty()].update(0, Seq::<char>::empty() + ls[0]) =~= ls);
    } else {
        let d = ls.drop_last();
        assert(all_no_newline(d)) by {
            assert forall|i: int| 0 <= i < d.len() implies no_newline(#[trigger] d[i]) by {
                assert(d[i] == ls[i]);
            }
        }
        lemma_split_join(d);
        let x = join_newlines(d).push('\n');
        assert(x.drop_last() =~= join_newlines(d));
        assert(split_newlines(x) == d.push(Seq::<char>::empty()));
        assert(no_newline(ls.last()));
        lemma_split_append_plain(x, ls.last());
        let s = d.push(Seq::<char>::empty());
        assert(s.last() + ls.last() =~= ls.last());
        assert(s.update(s.len() - 1, s.last() + ls.last()) =~= ls);
    }
}

/// Joining lines and then one more newline: the split has an extra empty piece.
pub proof fn lemma_split_join_newline(ls: Seq<Seq<char>>)
    requires
        ls.len() >= 1,
        all_no_newline(ls),
    ensures
        split_newlines(join_newlines(ls).push('\n')) == ls.push(Seq::<char>::empty()),
{
    lemma_split_join(ls);
    assert(join_newlines(ls).push('\n').drop_last() =~= join_newlines(ls));
}

/// `join_newlines(ls + [""])` is `join_newlines(ls)` followed by a newline.
pub proof fn lemma_join_push_empty(ls: Seq<Seq<char>>)
    requires
        ls.len() >= 1,
    ensures
        join_newlines(ls.push(Seq::<char>::empty())) == join_newlines(ls).push('\n'),
{
    let e = Seq::<char>::empty();
    assert(ls.push(e).drop_last() =~= ls);
    assert(join_newlines(ls).push('\n') + e =~= join_newlines(ls).push('\n'));
}

/// The lines between the start of line `a` and the start of line `b` come
/// back from splitting the text between them (with an empty piece after the
/// last newline when `b` is not the end).
pub proof fn lemma_split_selected(lines: Seq<Seq<char>>, a: int, b: int)
    requires
        all_no_newline(lines),
        0 <= a < b <= lines.len(),
    ensures
        split_newlines(selected_text(lines, a, b)) == (if b < lines.len() {
            lines.subrange(a, b).push(Seq::<char>::empty())
        } else {
            lines.subrange(a, b)
        }),
{
    let sub = lines.subrange(a, b);
    assert(all_no_newline(sub)) by {
        assert forall|i: int| 0 <= i < sub.len() implies no_newline(#[trigger] sub[i]) by {
            assert(sub[i] == lines[a + i]);
        }
    }
    if b < lines.len() {
        let ext = sub.push(Seq::<char>::empty());
        assert(all_no_newline(ext)) by {
            assert forall|i: int| 0 <= i < ext.len() implies no_newline(#[trigger] ext[i]) by {
                if i < sub.len() {
                    assert(ext[i] == sub[i]);
                }
            }
        }
        lemma_split_join(ext);
    } else {
        lemma_split_join(sub);
    }
}

/// Splits `t` at every newline.
pub fn split_chars(t: &Vec<char>) -> (r: Vec<Vec<char>>)
    ensures
        seqs_of(r@) == split_newlines(t@),
{
    let mut done: Vec<Vec<char>> = Vec::new();
    let mut cur: Vec<char> = Vec::new();
    let mut k: usize = 0;
    assert(t@.subrange(0, 0) =~= Seq::<char>::empty());
    assert(seqs_of(done@).push(cur@) =~= seq![Seq::<char>::empty()]);
    while k < t.len()
        invariant
            k <= t@.len(),
            seqs_of(done@).push(cur@) == split_newlines(t@.subrange(0, k as int)),
        decreases t.len() - k,
    {
        let ghost before = seqs_of(done@).push(cur@);
        let c = t[k];
        assert(t@.subrange(0, k + 1).drop_last() =~= t@.subrange(0, k as int));
        assert(t@.subrange(0, k + 1).last() == c);
        if c == '\n' {
            let finished = cur;
            done.push(finished);
            cur = Vec::new();
            assert(seqs_of(done@).push(cur@) =~= before.push(Seq::<char>::empty()));
        } else {
            cur.push(c);
            assert(seqs_of(done@).push(cur@) =~= before.update(
                before.len() - 1,
                before.last().push(c),
            ));
        }
        k = k + 1;
    }
    assert(t@.subrange(0, k as int) =~= t@);
    done.push(cur);
    done
}

/// The lines joined with newlines.
pub fn join_chars(ls: &Vec<Vec<char>>) -> (r: Vec<char>)
    ensures
        r@ == join_newlines(seqs_of(ls@)),
{
    let mut r: Vec<char> = Vec::new();
    let mut i: usize = 0;
    assert(seqs_of(ls@).subrange(0, 0) =~= Seq::<Seq<char>>::empty());
    while i < ls.len()
        invariant
            i <= ls@.len(),
            r@ == join_newlines(seqs_of(ls@).subrange(0, i as int)),
        decreases ls.len() - i,
    {
        let ghost before = r@;
        if i > 0 {
            r.push('\n');
        }
        let line = &ls[i];
        let ghost mid = r@;
        let mut k: usize = 0;
        while k < line.len()
            invariant
                k <= line@.len(),
                r@ == mid + line@.subrange(0, k as int),
            decreases line.len() - k,
        {
            r.push(line[k]);
            assert(line@.subrange(0, k + 1) =~= line@.subrange(0, k as int).push(line@[k as int]));
            k = k + 1;
        }
        proof {
            let s = seqs_of(ls@).subrange(0, i + 1);
            assert(s.drop_last() =~= seqs_of(ls@).subrange(0, i as int));
            assert(s.last() == line@);
            assert(line@.subrange(0, k as int) =~= line@);
            if i == 0 {
                assert(r@ =~= line@);
            } else {
                assert(r@ =~= before.push('\n') + line@);
            }
        }
        i = i + 1;
    }
    assert(seqs_of(ls@).subrange(0, i as int) =~= seqs_of(ls@));
    r
}

/// The lines `lines[a..b]`.
pub fn lines_between(lines: &Vec<Vec<char>>, a: usize, b: usize) -> (r: Vec<Vec<char>>)
    requires
        a <= b <= lines@.len(),
    ensures
        seqs_of(r@) == seqs_of(lines@).subrange(a as int, b as int),
{
    let mut r: Vec<Vec<char>> = Vec::new();
    let mut k = a;
    while k < b
        invariant
            a <= k <= b <= lines@.len(),
            seqs_of(r@) =~= seqs_of(lines@).subrange(a as int, k as int),
        decreases b - k,
    {
        r.push(lines[k].clone());
        assert(seqs_of(lines@).subrange(a as int, k + 1) =~= seqs_of(lines@).subrange(
            a as int,
            k as int,
        ).push(lines@[k as int]@));
        k = k + 1;
    }
    r
}

/// The text from the start of line `a` to the start of line `b` (or to the
/// end of the document when `b` is the line count).
pub fn selected_chars(lines: &Vec<Vec<char>>, a: usize, b: usize) -> (r: Vec<char>)
    requires
        a <= b <= lines@.len(),
    ensures
        r@ == selected_text(seqs_of(lines@), a as int, b as int),
{
    let mut sub = lines_between(lines, a, b);
    if b < lines.len() {
        sub.push(Vec::new());
        assert(seqs_of(sub@) =~= seqs_of(lines@).subrange(a as int, b as int).push(
            Seq::<char>::empty(),
        ));
    }
    join_chars(&sub)
}

/// The document after the text from the start of line `a` to the start of
/// line `b` (or to the end) is replaced by `r`.
pub fn replace_chars(lines: &Vec<Vec<char>>, a: usize, b: usize, r: &Vec<char>) -> (out: Vec<
    Vec<char>,
>)
    requires
        a <= b <= lines@.len(),
    ensures
        seqs_of(out@) == replace_text(seqs_of(lines@), a as int, b as int, r@),
{
    let ghost ls = seqs_of(lines@);
    let mut pieces = split_chars(r);
    proof {
        lemma_split_len(r@);
    }
    let mut out = lines_between(lines, 0, a);
    if b < lines.len() {
        let mut last_piece = pieces.pop().unwrap();
        let ghost ps = split_newlines(r@);
        assert(seqs_of(pieces@) =~= ps.drop_last());
        let ghost lp = last_piece@;
        assert(lp == ps.last());
        let mut k: usize = 0;
        let line = &lines[b];
        while k < line.len()
            invariant
                k <= line@.len(),
                last_piece@ == lp + line@.subrange(0, k as int),
            decreases line.len() - k,
        {
            last_piece.push(line[k]);
            assert(line@.subrange(0, k + 1) =~= line@.subrange(0, k as int).push(line@[k as int]));
            k = k + 1;
        }
        assert(line@.subrange(0, k as int) =~= line@);
        let ghost head = seqs_of(out@);
        out.append(&mut pieces);
        assert(seqs_of(out@) =~= head + ps.drop_last());
        out.push(last_piece);
        let tail = lines_between(lines, b + 1, lines.len());
        let mut i: usize = 0;
        let ghost mid = seqs_of(out@);
        while i < tail.len()
            invariant
                i <= tail@.len(),
                seqs_of(out@) =~= mid + seqs_of(tail@).subrange(0, i as int),
            decreases tail.len() - i,
        {
            let ghost before = seqs_of(out@);
            let c = tail[i].clone();
            assert(c@ == tail@[i as int]@);
            out.push(c);
            assert(seqs_of(out@) =~= before.push(tail@[i as int]@));
            assert(seqs_of(tail@).subrange(0, i + 1) =~= seqs_of(tail@).subrange(0, i as int).push(
                tail@[i as int]@,
            ));
            i = i + 1;
        }
        assert(seqs_of(tail@).subrange(0, i as int) =~= seqs_of(tail@));
        assert(seqs_of(out@) =~= replace_text(ls, a as int, b as int, r@));
    } else {
        let ghost head = seqs_of(out@);
        out.append(&mut pieces);
        assert(seqs_of(out@) =~= replace_text(ls, a as int, b as int, r@));
    }
    out
}

} // verus!
