//! N3 line serialisation: one `<subject> <predicate> <object> .` line per
//! triple, with no escaping.

use vstd::prelude::*;

use crate::graph::{Graph, Triple, TripleView};

verus! {

/// The line of one triple: `<s> <p> <o> .` and a newline.
pub open spec fn n3_line(t: TripleView) -> Seq<char> {
    seq!['<'] + t.subject + seq!['>', ' ', '<'] + t.predicate + seq!['>', ' ', '<'] + t.object
        + seq!['>', ' ', '.', '\n']
}

/// The lines of all triples, in order.
pub open spec fn n3_document(ts: Seq<TripleView>) -> Seq<char>
    decreases ts.len(),
{
    if ts.len() == 0 {
        Seq::empty()
    } else {
        n3_document(ts.drop_last()) + n3_line(ts.last())
    }
}

/// The N3 line of `t`.
pub fn n3_line_of(t: &Triple) -> (r: String)
    ensures
        r@ == n3_line(t@),
{
    let mut s = String::new();
    s.append("<");
    s.append(t.subject.as_str());
    s.append("> <");
    s.append(t.predicate.as_str());
    s.append("> <");
    s.append(t.object.as_str());
    s.append("> .\n");
    proof {
        reveal_strlit("<");
        reveal_strlit("> <");
        reveal_strlit("> .\n");
        assert(s@ =~= n3_line(t@));
    }
    s
}

impl Graph {
    /// The graph as N3 text: the line of each triple, in storage order.
    pub fn to_n3(&self) -> (r: String)
        ensures
            r@ == n3_document(self@.triples),
    {
        let ghost ts = self@.triples;
        let mut out = String::new();
        let mut i: usize = 0;
        while i < self.triples.len()
            invariant
                i <= self.triples.len(),
                ts == self@.triples,
                out@ == n3_document(ts.take(i as int)),
            decreases self.triples.len() - i,
        {
            let line = n3_line_of(&self.triples[i]);
            out.append(line.as_str());
            assert(ts.take(i + 1).drop_last() =~= ts.take(i as int));
            assert(ts.take(i + 1).last() == ts[i as int]);
            i += 1;
        }
        assert(ts.take(self.triples.len() as int) =~= ts);
        out
    }
}


/// How many newline characters `s` holds.
pub open spec fn newline_count(s: Seq<char>) -> nat
    decreases s.len(),
{
    if s.len() == 0 {
        0
    } else {
        newline_count(s.drop_last()) + if s.last() == '\n' {
            1nat
        } else {
            0nat
        }
    }
}

/// A triple that an N3 line carries without ambiguity: no part holds a
/// newline, and neither the subject nor the predicate holds `>`.
pub open spec fn n3_safe(t: TripleView) -> bool {
    &&& !t.subject.contains('\n')
    &&& !t.predicate.contains('\n')
    &&& !t.object.contains('\n')
    &&& !t.subject.contains('>')
    &&& !t.predicate.contains('>')
}

proof fn lemma_newline_count_concat(a: Seq<char>, b: Seq<char>)
    ensures
        newline_count(a + b) == newline_count(a) + newline_count(b),
    decreases b.len(),
{
    if b.len() == 0 {
        assert(a + b =~= a);
    } else {
        lemma_newline_count_concat(a, b.drop_last());
        assert((a + b).drop_last() =~= a + b.drop_last());
        assert((a + b).last() == b.last());
    }
}

proof fn lemma_newline_free(s: Seq<char>)
    requires
        !s.contains('\n'),
    ensures
        newline_count(s) == 0,
    decreases s.len(),
{
    if s.len() > 0 {
        assert(s.last() == s[s.len() - 1]);
        if s.drop_last().contains('\n') {
            let j = choose|j: int| 0 <= j < s.len() - 1 && s.drop_last()[j] == '\n';
            assert(s[j] == '\n');
        }
        lemma_newline_free(s.drop_last());
    }
}

proof fn lemma_line_layout(t: TripleView)
    ensures
        n3_line(t).len() == t.subject.len() + t.predicate.len() + t.object.len() + 11,
        forall|k: int| 0 <= k < t.subject.len() ==> n3_line(t)[1 + k] == t.subject[k],
        n3_line(t)[1 + t.subject.len() as int] == '>',
        forall|k: int|
            0 <= k < t.predicate.len() ==> n3_line(t)[t.subject.len() + 4 + k] == t.predicate[k],
        n3_line(t)[t.subject.len() + 4 + t.predicate.len() as int] == '>',
        forall|k: int|
            0 <= k < t.object.len() ==> n3_line(t)[t.subject.len() + t.predicate.len() + 7 + k]
                == t.object[k],
{
    let s = t.subject;
    let p = t.predicate;
    let o = t.object;
    let a = seq!['<'] + s;
    let b = a + seq!['>', ' ', '<'];
    let c = b + p;
    let d = c + seq!['>', ' ', '<'];
    let e = d + o;
    assert(n3_line(t) == e + seq!['>', ' ', '.', '\n']);
    assert forall|k: int| 0 <= k < s.len() implies n3_line(t)[1 + k] == s[k] by {
        assert(a[1 + k] == s[k]);
    }
    assert forall|k: int| 0 <= k < p.len() implies n3_line(t)[s.len() + 4 + k] == p[k] by {
        assert(c[s.len() + 4 + k] == p[k]);
    }
    assert forall|k: int| 0 <= k < o.len() implies n3_line(t)[s.len() + p.len() + 7 + k] == o[k] by {
        assert(e[s.len() + p.len() + 7 + k] == o[k]);
    }
}

/// Where neither subject nor predicate holds `>`, distinct triples have
/// distinct N3 lines: a line reads back as one triple only.
pub proof fn lemma_n3_line_injective(x: TripleView, y: TripleView)
    requires
        !x.subject.contains('>'),
        !x.predicate.contains('>'),
        !y.subject.contains('>'),
        !y.predicate.contains('>'),
        n3_line(x) == n3_line(y),
    ensures
        x == y,
{
    let l = n3_line(x);
    lemma_line_layout(x);
    lemma_line_layout(y);
    let (xs, ys) = (x.subject, y.subject);
    if xs.len() < ys.len() {
        assert(l[1 + xs.len() as int] == ys[xs.len() as int]);
        assert(ys.contains('>'));
    }
    if ys.len() < xs.len() {
        assert(l[1 + ys.len() as int] == xs[ys.len() as int]);
        assert(xs.contains('>'));
    }
    assert(xs =~= ys) by {
        assert forall|k: int| 0 <= k < xs.len() implies xs[k] == ys[k] by {
            assert(l[1 + k] == xs[k]);
        }
    }
    let (xp, yp) = (x.predicate, y.predicate);
    let q: int = xs.len() as int + 4;
    if xp.len() < yp.len() {
        assert(l[q + xp.len() as int] == yp[xp.len() as int]);
        assert(yp.contains('>'));
    }
    if yp.len() < xp.len() {
        assert(l[q + yp.len() as int] == xp[yp.len() as int]);
        assert(xp.contains('>'));
    }
    assert(xp =~= yp) by {
        assert forall|k: int| 0 <= k < xp.len() implies xp[k] == yp[k] by {
            assert(l[q + k] == xp[k]);
        }
    }
    let (xo, yo) = (x.object, y.object);
    assert(xo =~= yo) by {
        assert forall|k: int| 0 <= k < xo.len() implies xo[k] == yo[k] by {
            assert(l[q + xp.len() as int + 3 + k] == xo[k]);
        }
    }
}

proof fn lemma_line_newlines(t: TripleView)
    requires
        n3_safe(t),
    ensures
        newline_count(n3_line(t)) == 1,
        n3_line(t).last() == '\n',
{
    let s = t.subject;
    let p = t.predicate;
    let o = t.object;
    lemma_newline_free(s);
    lemma_newline_free(p);
    lemma_newline_free(o);
    let gap = seq!['>', ' ', '<'];
    let end = seq!['>', ' ', '.', '\n'];
    reveal_with_fuel(newline_count, 5);
    assert(newline_count(seq!['<']) == 0) by {
        assert(seq!['<'].drop_last() =~= Seq::<char>::empty());
    }
    assert(newline_count(gap) == 0) by {
        assert(gap.drop_last() =~= seq!['>', ' ']);
        assert(gap.drop_last().drop_last() =~= seq!['>']);
        assert(gap.drop_last().drop_last().drop_last() =~= Seq::<char>::empty());
    }
    assert(newline_count(end) == 1) by {
        assert(end.drop_last() =~= seq!['>', ' ', '.']);
        assert(end.drop_last().drop_last() =~= seq!['>', ' ']);
        assert(end.drop_last().drop_last().drop_last() =~= seq!['>']);
        assert(end.drop_last().drop_last().drop_last().drop_last() =~= Seq::<char>::empty());
    }
    let a = seq!['<'] + s;
    let b = a + gap;
    let c = b + p;
    let d = c + gap;
    let e = d + o;
    lemma_newline_count_concat(seq!['<'], s);
    lemma_newline_count_concat(a, gap);
    lemma_newline_count_concat(b, p);
    lemma_newline_count_concat(c, gap);
    lemma_newline_count_concat(d, o);
    lemma_newline_count_concat(e, end);
    assert(n3_line(t) == e + end);
}

/// Saving writes one line per triple: where every triple is `n3_safe`, the
/// text holds exactly as many newlines as there are triples, it is the line
/// of each triple in turn, and each such line ends in its only newline (so
/// by `lemma_n3_line_injective` it reads back as that triple alone).
pub proof fn lemma_n3_round_trip(ts: Seq<TripleView>)
    requires
        forall|i: int| 0 <= i < ts.len() ==> n3_safe(#[trigger] ts[i]),
    ensures
        newline_count(n3_document(ts)) == ts.len(),
        forall|i: int|
            0 <= i < ts.len() ==> newline_count(#[trigger] n3_line(ts[i])) == 1 && n3_line(
                ts[i],
            ).last() == '\n',
        ts.len() > 0 ==> n3_document(ts) == n3_document(ts.drop_last()) + n3_line(ts.last()),
    decreases ts.len(),
{
    assert forall|i: int| 0 <= i < ts.len() implies newline_count(#[trigger] n3_line(ts[i])) == 1
        && n3_line(ts[i]).last() == '\n' by {
        lemma_line_newlines(ts[i]);
    }
    if ts.len() > 0 {
        let p = ts.drop_last();
        assert forall|i: int| 0 <= i < p.len() implies n3_safe(#[trigger] p[i]) by {
            assert(p[i] == ts[i]);
        }
        lemma_n3_round_trip(p);
        lemma_newline_count_concat(n3_document(p), n3_line(ts.last()));
        assert(ts.last() == ts[ts.len() - 1]);
    }
}

} // verus!
