//! Node-frequency tables: counting node occurrences, summing tables, and
//! picking nodes by count.

use vstd::prelude::*;

use crate::seqs::string_views;

verus! {

/// What a table entry holds.
pub struct NodeCountView {
    pub node: Seq<char>,
    pub count: nat,
}

/// How often a node occurs.
#[derive(Debug)]
pub struct NodeCount {
    pub node: String,
    pub count: usize,
}

impl View for NodeCount {
    type V = NodeCountView;

    open spec fn view(&self) -> NodeCountView {
        NodeCountView { node: self.node@, count: self.count as nat }
    }
}

/// The views of a sequence of entries.
pub open spec fn count_views(t: Seq<NodeCount>) -> Seq<NodeCountView> {
    t.map_values(|e: NodeCount| e@)
}

/// The nodes of a table, entry by entry.
pub open spec fn table_nodes(t: Seq<NodeCountView>) -> Seq<Seq<char>> {
    t.map_values(|e: NodeCountView| e.node)
}

/// Counts never grow from one entry to the next.
pub open spec fn sorted_by_count_desc(t: Seq<NodeCountView>) -> bool {
    forall|i: int, j: int| 0 <= i < j < t.len() ==> t[i].count >= t[j].count
}

/// How many times `n` occurs in `s`.
pub open spec fn occ_count(s: Seq<Seq<char>>, n: Seq<char>) -> nat
    decreases s.len(),
{
    if s.len() == 0 {
        0
    } else {
        occ_count(s.drop_last(), n) + if s.last() == n {
            1nat
        } else {
            0nat
        }
    }
}

/// `t` has one entry for each distinct element of `occ`, holding the number
/// of times that it occurs (in no particular order).
pub open spec fn tallies(t: Seq<NodeCountView>, occ: Seq<Seq<char>>) -> bool {
    &&& table_nodes(t).no_duplicates()
    &&& forall|i: int| 0 <= i < t.len() ==> t[i].count == occ_count(occ, #[trigger] t[i].node)
    &&& forall|n: Seq<char>| table_nodes(t).contains(n) <==> occ.contains(n)
}

/// `t` is the frequency table of `occ`: one entry per distinct element with
/// its number of occurrences, by count descending.
pub open spec fn is_frequency_table(t: Seq<NodeCountView>, occ: Seq<Seq<char>>) -> bool {
    tallies(t, occ) && sorted_by_count_desc(t)
}

/// An element occurs no more often than the sequence is long.
pub proof fn lemma_occ_count_le_len(s: Seq<Seq<char>>, n: Seq<char>)
    ensures
        occ_count(s, n) <= s.len(),
    decreases s.len(),
{
    if s.len() > 0 {
        lemma_occ_count_le_len(s.drop_last(), n);
    }
}

/// An element occurs in a sequence exactly when its count there is positive.
pub proof fn lemma_occ_count_positive(s: Seq<Seq<char>>, n: Seq<char>)
    ensures
        s.contains(n) <==> occ_count(s, n) > 0,
    decreases s.len(),
{
    if s.len() > 0 {
        let p = s.drop_last();
        lemma_occ_count_positive(p, n);
        if s.contains(n) && s.last() != n {
            let j = choose|j: int| 0 <= j < s.len() && s[j] == n;
            assert(p[j] == n);
        }
        if p.contains(n) {
            let j = choose|j: int| 0 <= j < p.len() && p[j] == n;
            assert(s[j] == n);
        }
        if s.last() == n {
            assert(s[s.len() - 1] == n);
        }
    }
}

/// Adds `c` to the entry of `node`, or appends an entry `(node, c)` when
/// there is none.
pub fn add_count(t: &mut Vec<NodeCount>, node: &String, c: usize)
    requires
        table_nodes(count_views(old(t)@)).no_duplicates(),
        forall|i: int|
            0 <= i < old(t).len() && (#[trigger] old(t)@[i]).node@ == node@ ==> old(t)@[i].count
                + c <= usize::MAX,
    ensures
        table_nodes(count_views(final(t)@)).no_duplicates(),
        table_nodes(count_views(old(t)@)).contains(node@) ==> {
            &&& final(t).len() == old(t).len()
            &&& forall|i: int|
                0 <= i < old(t).len() ==> (#[trigger] final(t)@[i]).node@ == old(t)@[i].node@
                    && final(t)@[i].count == old(t)@[i].count + if old(t)@[i].node@ == node@ {
                    c as int
                } else {
                    0
                }
        },
        !table_nodes(count_views(old(t)@)).contains(node@) ==> count_views(final(t)@)
            == count_views(old(t)@).push(NodeCountView { node: node@, count: c as nat }),
{
    let ghost orig = t@;
    let ghost nodes = table_nodes(count_views(t@));
    let mut i: usize = 0;
    while i < t.len()
        invariant
            i <= t.len(),
            t@ == orig,
            orig == old(t)@,
            nodes.no_duplicates(),
            forall|k: int|
                0 <= k < orig.len() && (#[trigger] orig[k]).node@ == node@ ==> orig[k].count + c
                    <= usize::MAX,
            nodes == table_nodes(count_views(t@)),
            forall|j: int| 0 <= j < i ==> t@[j].node@ != node@,
        decreases t.len() - i,
    {
        if t[i].node == *node {
            assert(orig[i as int].node@ == node@);
            assert(orig[i as int].count + c <= usize::MAX);
            assert(nodes[i as int] == node@);
            let total: usize = t[i].count + c;
            t[i].count = total;
            assert forall|j: int| 0 <= j < t.len() implies t@[j].node@ == orig[j].node@ && t@[j].count
                == orig[j].count + if orig[j].node@ == node@ {
                c as int
            } else {
                0
            } by {
                if j != i {
                    assert(nodes[j] != nodes[i as int]);
                }
            }
            assert(table_nodes(count_views(t@)) =~= nodes);
            return;
        }
        i += 1;
    }
    assert(!nodes.contains(node@)) by {
        if nodes.contains(node@) {
            let j = choose|j: int| 0 <= j < nodes.len() && nodes[j] == node@;
            assert(t@[j].node@ == node@);
        }
    }
    let ghost before = t@;
    t.push(NodeCount { node: node.clone(), count: c });
    assert(before == old(t)@);
    assert(count_views(t@) =~= count_views(before).push(NodeCountView { node: node@, count: c as nat }));
    let ghost after = table_nodes(count_views(t@));
    assert(after =~= nodes.push(node@));
    assert forall|a: int, b: int| 0 <= a < after.len() && 0 <= b < after.len() && a != b implies after[a] != after[b] by {
        if a == nodes.len() {
            assert(nodes[b] == after[b]);
        } else if b == nodes.len() {
            assert(nodes[a] == after[a]);
        } else {
            assert(nodes[a] == after[a] && nodes[b] == after[b]);
        }
    }
}


/// One entry per distinct element of `nodes`, with its number of
/// occurrences, in order of first occurrence.
pub fn tally_nodes(nodes: &Vec<String>) -> (r: Vec<NodeCount>)
    ensures
        tallies(count_views(r@), string_views(nodes@)),
{
    let ghost occ = string_views(nodes@);
    let mut t: Vec<NodeCount> = Vec::new();
    let mut i: usize = 0;
    assert(table_nodes(count_views(t@)) =~= Seq::<Seq<char>>::empty());
    while i < nodes.len()
        invariant
            i <= nodes.len(),
            occ == string_views(nodes@),
            tallies(count_views(t@), occ.take(i as int)),
        decreases nodes.len() - i,
    {
        let ghost p = occ.take(i as int);
        let ghost q = occ.take(i + 1);
        let ghost x = occ[i as int];
        let ghost before = count_views(t@);
        assert(q.drop_last() =~= p);
        assert(q.last() == x);
        assert forall|k: int|
            0 <= k < t.len() && (#[trigger] t@[k]).node@ == nodes@[i as int]@ implies t@[k].count
            + 1 <= usize::MAX by {
            assert(before[k].count == occ_count(p, before[k].node));
            lemma_occ_count_le_len(p, before[k].node);
        }
        add_count(&mut t, &nodes[i], 1);
        proof {
            let after = count_views(t@);
            assert forall|n: Seq<char>| q.contains(n) <==> (p.contains(n) || n == x) by {
                if q.contains(n) {
                    let j = choose|j: int| 0 <= j < q.len() && q[j] == n;
                    if j < i {
                        assert(p[j] == n);
                    }
                }
                if p.contains(n) {
                    let j = choose|j: int| 0 <= j < p.len() && p[j] == n;
                    assert(q[j] == n);
                }
                if n == x {
                    assert(q[i as int] == n);
                }
            }
            if table_nodes(before).contains(x) {
                assert forall|k: int| 0 <= k < after.len() implies after[k].count == occ_count(
                    q,
                    #[trigger] after[k].node,
                ) by {
                    assert(before[k].count == occ_count(p, before[k].node));
                }
                assert(table_nodes(after) =~= table_nodes(before));
            } else {
                lemma_occ_count_positive(p, x);
                assert forall|k: int| 0 <= k < after.len() implies after[k].count == occ_count(
                    q,
                    #[trigger] after[k].node,
                ) by {
                    if k < before.len() {
                        assert(before[k].count == occ_count(p, before[k].node));
                        assert(table_nodes(before)[k] == before[k].node);
                    }
                }
                assert(table_nodes(after) =~= table_nodes(before).push(x));
                assert forall|n: Seq<char>| table_nodes(after).contains(n) <==> (table_nodes(
                    before,
                ).contains(n) || n == x) by {
                    let a = table_nodes(after);
                    let b = table_nodes(before);
                    if a.contains(n) {
                        let j = choose|j: int| 0 <= j < a.len() && a[j] == n;
                        if j < b.len() {
                            assert(b[j] == n);
                        }
                    }
                    if b.contains(n) {
                        let j = choose|j: int| 0 <= j < b.len() && b[j] == n;
                        assert(a[j] == n);
                    }
                    if n == x {
                        assert(a[b.len() as int] == n);
                    }
                }
            }
        }
        i += 1;
    }
    assert(occ.take(nodes.len() as int) =~= occ);
    t
}

/// The entries of `t` by count descending; entries of equal count keep
/// their relative order.
pub fn sort_by_count(t: &Vec<NodeCount>) -> (r: Vec<NodeCount>)
    requires
        table_nodes(count_views(t@)).no_duplicates(),
    ensures
        sorted_by_count_desc(count_views(r@)),
        table_nodes(count_views(r@)).no_duplicates(),
        r.len() == t.len(),
        forall|e: NodeCountView| count_views(r@).contains(e) <==> count_views(t@).contains(e),
{
    let ghost src = count_views(t@);
    let mut out: Vec<NodeCount> = Vec::new();
    let mut i: usize = 0;
    while i < t.len()
        invariant
            i <= t.len(),
            src == count_views(t@),
            table_nodes(src).no_duplicates(),
            out.len() == i,
            sorted_by_count_desc(count_views(out@)),
            table_nodes(count_views(out@)).no_duplicates(),
            forall|e: NodeCountView| count_views(out@).contains(e) <==> src.take(i as int).contains(e),
        decreases t.len() - i,
    {
        let ghost cur = count_views(out@);
        let ghost e = src[i as int];
        let c: usize = t[i].count;
        let mut pos: usize = 0;
        while pos < out.len() && out[pos].count >= c
            invariant
                pos <= out.len(),
                cur == count_views(out@),
                forall|k: int| 0 <= k < pos ==> cur[k].count >= c,
            decreases out.len() - pos,
        {
            pos += 1;
        }
        out.insert(pos, NodeCount { node: t[i].node.clone(), count: c });
        let ghost nxt = count_views(out@);
        proof {
            cur.insert_ensures(pos as int, e);
            assert(nxt =~= cur.insert(pos as int, e));
            assert forall|a: int, b: int| 0 <= a < b < nxt.len() implies nxt[a].count
                >= nxt[b].count by {
                if b < pos {
                } else if b == pos {
                } else if a < pos {
                    assert(nxt[b] == cur[b - 1]);
                    if pos < cur.len() {
                        assert(cur[pos as int].count < c);
                    }
                } else if a == pos {
                    assert(nxt[b] == cur[b - 1]);
                    assert(cur[pos as int].count < c);
                } else {
                    assert(nxt[a] == cur[a - 1] && nxt[b] == cur[b - 1]);
                }
            }
            let p = src.take(i as int);
            let q = src.take(i + 1);
            assert forall|x: NodeCountView| q.contains(x) <==> (p.contains(x) || x == e) by {
                if q.contains(x) {
                    let j = choose|j: int| 0 <= j < q.len() && q[j] == x;
                    if j < i {
                        assert(p[j] == x);
                    }
                }
                if p.contains(x) {
                    let j = choose|j: int| 0 <= j < p.len() && p[j] == x;
                    assert(q[j] == x);
                }
                if x == e {
                    assert(q[i as int] == x);
                }
            }
            assert forall|x: NodeCountView| nxt.contains(x) <==> (cur.contains(x) || x == e) by {
                if nxt.contains(x) {
                    let j = choose|j: int| 0 <= j < nxt.len() && nxt[j] == x;
                    if j < pos {
                        assert(cur[j] == x);
                    } else if j > pos {
                        assert(cur[j - 1] == x);
                    }
                }
                if cur.contains(x) {
                    let j = choose|j: int| 0 <= j < cur.len() && cur[j] == x;
                    if j < pos {
                        assert(nxt[j] == x);
                    } else {
                        assert(nxt[j + 1] == x);
                    }
                }
                if x == e {
                    assert(nxt[pos as int] == x);
                }
            }
            // the new node is not yet in `out`: nodes of `src` are distinct
            assert forall|k: int| 0 <= k < cur.len() implies cur[k].node != e.node by {
                assert(cur.contains(cur[k]));
                assert(p.contains(cur[k]));
                let j = choose|j: int| 0 <= j < p.len() && p[j] == cur[k];
                assert(table_nodes(src)[j] == cur[k].node);
                assert(table_nodes(src)[i as int] == e.node);
            }
            let nn = table_nodes(nxt);
            assert forall|a: int, b: int| 0 <= a < nn.len() && 0 <= b < nn.len() && a != b implies nn[a]
                != nn[b] by {
                let cn = table_nodes(cur);
                let ia = if a < pos { a } else if a == pos { -1 } else { a - 1 };
                let ib = if b < pos { b } else if b == pos { -1 } else { b - 1 };
                if ia >= 0 {
                    assert(nn[a] == cn[ia]);
                }
                if ib >= 0 {
                    assert(nn[b] == cn[ib]);
                }
            }
        }
        i += 1;
    }
    assert(src.take(t.len() as int) =~= src);
    out
}

/// The frequency table of `nodes`: each distinct node once with its number
/// of occurrences, by count descending.
pub fn count_nodes(nodes: &Vec<String>) -> (r: Vec<NodeCount>)
    ensures
        is_frequency_table(count_views(r@), string_views(nodes@)),
{
    let t = tally_nodes(nodes);
    let r = sort_by_count(&t);
    proof {
        lemma_same_entries_tally(count_views(t@), count_views(r@), string_views(nodes@));
    }
    r
}

/// A table with the entries of a tally, each once, is a tally too.
proof fn lemma_same_entries_tally(t: Seq<NodeCountView>, r: Seq<NodeCountView>, occ: Seq<Seq<char>>)
    requires
        tallies(t, occ),
        table_nodes(r).no_duplicates(),
        forall|e: NodeCountView| r.contains(e) <==> t.contains(e),
    ensures
        tallies(r, occ),
{
    assert forall|i: int| 0 <= i < r.len() implies r[i].count == occ_count(occ, #[trigger] r[i].node) by {
        assert(r.contains(r[i]));
        let j = choose|j: int| 0 <= j < t.len() && t[j] == r[i];
    }
    assert forall|n: Seq<char>| table_nodes(r).contains(n) <==> table_nodes(t).contains(n) by {
        if table_nodes(r).contains(n) {
            let j = choose|j: int| 0 <= j < r.len() && table_nodes(r)[j] == n;
            assert(r.contains(r[j]));
            let k = choose|k: int| 0 <= k < t.len() && t[k] == r[j];
            assert(table_nodes(t)[k] == n);
        }
        if table_nodes(t).contains(n) {
            let j = choose|j: int| 0 <= j < t.len() && table_nodes(t)[j] == n;
            assert(t.contains(t[j]));
            let k = choose|k: int| 0 <= k < r.len() && r[k] == t[j];
            assert(table_nodes(r)[k] == n);
        }
    }
}


/// The nodes of the entries of `t` whose count is at least `min_count`, in
/// table order.
pub open spec fn nodes_at_least(t: Seq<NodeCountView>, min_count: nat) -> Seq<Seq<char>>
    decreases t.len(),
{
    if t.len() == 0 {
        Seq::empty()
    } else {
        let rest = nodes_at_least(t.drop_last(), min_count);
        if t.last().count >= min_count {
            rest.push(t.last().node)
        } else {
            rest
        }
    }
}

/// The nodes whose count reaches `node_count_thres` (inclusive).
pub fn get_node_over_count(node_counts: &Vec<NodeCount>, node_count_thres: usize) -> (r: Vec<String>)
    ensures
        string_views(r@) == nodes_at_least(count_views(node_counts@), node_count_thres as nat),
{
    let ghost t = count_views(node_counts@);
    let mut out: Vec<String> = Vec::new();
    let mut i: usize = 0;
    while i < node_counts.len()
        invariant
            i <= node_counts.len(),
            t == count_views(node_counts@),
            string_views(out@) == nodes_at_least(t.take(i as int), node_count_thres as nat),
        decreases node_counts.len() - i,
    {
        assert(t.take(i + 1).drop_last() =~= t.take(i as int));
        assert(t.take(i + 1).last() == node_counts@[i as int]@);
        if node_counts[i].count >= node_count_thres {
            let ghost before = out@;
            out.push(node_counts[i].node.clone());
            assert(string_views(out@) =~= string_views(before).push(node_counts@[i as int].node@));
        }
        i += 1;
    }
    assert(t.take(node_counts.len() as int) =~= t);
    out
}

/// The sum of the counts of the entries of `t` for node `n`.
pub open spec fn entries_total(t: Seq<NodeCountView>, n: Seq<char>) -> nat
    decreases t.len(),
{
    if t.len() == 0 {
        0
    } else {
        entries_total(t.drop_last(), n) + if t.last().node == n {
            t.last().count
        } else {
            0nat
        }
    }
}

/// The sum of the counts for node `n` over every entry of every table.
pub open spec fn tables_total(ts: Seq<Seq<NodeCountView>>, n: Seq<char>) -> nat
    decreases ts.len(),
{
    if ts.len() == 0 {
        0
    } else {
        tables_total(ts.drop_last(), n) + entries_total(ts.last(), n)
    }
}

/// Whether some entry of some table is for node `n`.
pub open spec fn in_some_table(ts: Seq<Seq<NodeCountView>>, n: Seq<char>) -> bool {
    exists|i: int| 0 <= i < ts.len() && #[trigger] table_nodes(ts[i]).contains(n)
}

/// The views of a sequence of tables.
pub open spec fn tables_views(ts: Seq<Vec<NodeCount>>) -> Seq<Seq<NodeCountView>> {
    ts.map_values(|t: Vec<NodeCount>| count_views(t@))
}

/// `r` sums the tables `ts`: one entry per node that some table lists, with
/// the sum of all its counts, by count descending.
pub open spec fn is_sum_table(r: Seq<NodeCountView>, ts: Seq<Seq<NodeCountView>>) -> bool {
    &&& table_nodes(r).no_duplicates()
    &&& forall|i: int| 0 <= i < r.len() ==> r[i].count == tables_total(ts, #[trigger] r[i].node)
    &&& forall|n: Seq<char>| table_nodes(r).contains(n) <==> in_some_table(ts, n)
    &&& sorted_by_count_desc(r)
}

proof fn lemma_entries_total_prefix(t: Seq<NodeCountView>, j: int, n: Seq<char>)
    requires
        0 <= j <= t.len(),
    ensures
        entries_total(t.take(j), n) <= entries_total(t, n),
    decreases t.len(),
{
    if j < t.len() {
        assert(t.take(j) =~= t.drop_last().take(j));
        lemma_entries_total_prefix(t.drop_last(), j, n);
    } else {
        assert(t.take(j) =~= t);
    }
}

proof fn lemma_tables_total_prefix(ts: Seq<Seq<NodeCountView>>, i: int, n: Seq<char>)
    requires
        0 <= i <= ts.len(),
    ensures
        tables_total(ts.take(i), n) <= tables_total(ts, n),
    decreases ts.len(),
{
    if i < ts.len() {
        assert(ts.take(i) =~= ts.drop_last().take(i));
        lemma_tables_total_prefix(ts.drop_last(), i, n);
    } else {
        assert(ts.take(i) =~= ts);
    }
}

proof fn lemma_contains_push<A>(s: Seq<A>, x: A)
    ensures
        forall|y: A| s.push(x).contains(y) <==> (s.contains(y) || y == x),
{
    assert forall|y: A| s.push(x).contains(y) <==> (s.contains(y) || y == x) by {
        if s.push(x).contains(y) {
            let j = choose|j: int| 0 <= j < s.len() + 1 && s.push(x)[j] == y;
            if j < s.len() {
                assert(s[j] == y);
            }
        }
        if s.contains(y) {
            let j = choose|j: int| 0 <= j < s.len() && s[j] == y;
            assert(s.push(x)[j] == y);
        }
        if y == x {
            assert(s.push(x)[s.len() as int] == y);
        }
    }
}

/// The tables `tables` added up: for each node that some table lists, the
/// sum of its counts over all entries of all tables, by count descending.
pub fn sum_node_counts(tables: &Vec<Vec<NodeCount>>) -> (r: Vec<NodeCount>)
    requires
        forall|n: Seq<char>| #[trigger] tables_total(tables_views(tables@), n) <= usize::MAX,
    ensures
        is_sum_table(count_views(r@), tables_views(tables@)),
{
    let ghost ts = tables_views(tables@);
    let mut acc: Vec<NodeCount> = Vec::new();
    assert(table_nodes(count_views(acc@)) =~= Seq::<Seq<char>>::empty());
    let mut i: usize = 0;
    while i < tables.len()
        invariant
            i <= tables.len(),
            ts == tables_views(tables@),
            forall|n: Seq<char>| #[trigger] tables_total(ts, n) <= usize::MAX,
            table_nodes(count_views(acc@)).no_duplicates(),
            forall|k: int|
                0 <= k < acc.len() ==> (#[trigger] acc@[k]).count == tables_total(
                    ts.take(i as int),
                    acc@[k].node@,
                ),
            forall|n: Seq<char>|
                table_nodes(count_views(acc@)).contains(n) <==> in_some_table(ts.take(i as int), n),
        decreases tables.len() - i,
    {
        let table = &tables[i];
        let ghost cur = ts[i as int];
        assert(cur == count_views(table@));
        let mut j: usize = 0;
        while j < table.len()
            invariant
                i < tables.len(),
                j <= table.len(),
                ts == tables_views(tables@),
                table == tables@[i as int],
                cur == count_views(table@),
                cur == ts[i as int],
                forall|n: Seq<char>| #[trigger] tables_total(ts, n) <= usize::MAX,
                table_nodes(count_views(acc@)).no_duplicates(),
                forall|k: int|
                    0 <= k < acc.len() ==> (#[trigger] acc@[k]).count == tables_total(
                        ts.take(i as int),
                        acc@[k].node@,
                    ) + entries_total(cur.take(j as int), acc@[k].node@),
                forall|n: Seq<char>|
                    table_nodes(count_views(acc@)).contains(n) <==> (in_some_table(
                        ts.take(i as int),
                        n,
                    ) || table_nodes(cur.take(j as int)).contains(n)),
            decreases table.len() - j,
        {
            let ghost before = count_views(acc@);
            let ghost e = cur[j as int];
            let ghost p = cur.take(j as int);
            let ghost q = cur.take(j + 1);
            proof {
                assert(q.drop_last() =~= p);
                assert(q.last() == e);
                assert forall|k: int|
                    0 <= k < acc.len() && (#[trigger] acc@[k]).node@ == table@[j as int].node@ implies acc@[k].count
                    + table@[j as int].count <= usize::MAX by {
                    let n = e.node;
                    lemma_entries_total_prefix(cur, j + 1, n);
                    assert(ts.take(i + 1).drop_last() =~= ts.take(i as int));
                    assert(ts.take(i + 1).last() == cur);
                    lemma_tables_total_prefix(ts, i + 1, n);
                    assert(tables_total(ts, n) <= usize::MAX);
                }
            }
            add_count(&mut acc, &table[j].node, table[j].count);
            proof {
                let after = count_views(acc@);
                assert(table_nodes(q) =~= table_nodes(p).push(e.node));
                lemma_contains_push(table_nodes(p), e.node);
                if table_nodes(before).contains(e.node) {
                    assert(table_nodes(after) =~= table_nodes(before));
                    assert forall|k: int| 0 <= k < acc.len() implies (#[trigger] acc@[k]).count
                        == tables_total(ts.take(i as int), acc@[k].node@) + entries_total(
                        q,
                        acc@[k].node@,
                    ) by {
                        assert(before[k].node == after[k].node);
                    }
                } else {
                    assert(table_nodes(after) =~= table_nodes(before).push(e.node));
                    lemma_contains_push(table_nodes(before), e.node);
                    assert(!in_some_table(ts.take(i as int), e.node));
                    assert(!table_nodes(p).contains(e.node));
                    lemma_not_listed_total(ts.take(i as int), e.node);
                    lemma_not_listed_entries(p, e.node);
                    assert forall|k: int| 0 <= k < acc.len() implies (#[trigger] acc@[k]).count
                        == tables_total(ts.take(i as int), acc@[k].node@) + entries_total(
                        q,
                        acc@[k].node@,
                    ) by {
                        if k < before.len() {
                            assert(before[k] == after[k]);
                            assert(table_nodes(before)[k] == before[k].node);
                        }
                    }
                }
            }
            j += 1;
        }
        proof {
            let p = ts.take(i as int);
            let q = ts.take(i + 1);
            assert(q.drop_last() =~= p);
            assert(q.last() == cur);
            assert(cur.take(table.len() as int) =~= cur);
            assert forall|n: Seq<char>| in_some_table(q, n) <==> (in_some_table(p, n) || table_nodes(cur).contains(n)) by {
                if in_some_table(q, n) {
                    let k = choose|k: int| 0 <= k < q.len() && #[trigger] table_nodes(q[k]).contains(n);
                    if k < i {
                        assert(p[k] == q[k]);
                    }
                }
                if in_some_table(p, n) {
                    let k = choose|k: int| 0 <= k < p.len() && #[trigger] table_nodes(p[k]).contains(n);
                    assert(p[k] == q[k]);
                }
                if table_nodes(cur).contains(n) {
                    assert(q[i as int] == cur);
                }
            }
        }
        i += 1;
    }
    assert(ts.take(tables.len() as int) =~= ts);
    let r = sort_by_count(&acc);
    proof {
        let a = count_views(acc@);
        let b = count_views(r@);
        assert forall|k: int| 0 <= k < b.len() implies b[k].count == tables_total(ts, #[trigger] b[k].node) by {
            assert(b.contains(b[k]));
            let j = choose|j: int| 0 <= j < a.len() && a[j] == b[k];
            assert(acc@[j].count == tables_total(ts, acc@[j].node@));
        }
        assert forall|n: Seq<char>| table_nodes(b).contains(n) <==> table_nodes(a).contains(n) by {
            if table_nodes(b).contains(n) {
                let j = choose|j: int| 0 <= j < b.len() && table_nodes(b)[j] == n;
                assert(b.contains(b[j]));
                let k = choose|k: int| 0 <= k < a.len() && a[k] == b[j];
                assert(table_nodes(a)[k] == n);
            }
            if table_nodes(a).contains(n) {
                let j = choose|j: int| 0 <= j < a.len() && table_nodes(a)[j] == n;
                assert(a.contains(a[j]));
                let k = choose|k: int| 0 <= k < b.len() && b[k] == a[j];
                assert(table_nodes(b)[k] == n);
            }
        }
    }
    r
}

proof fn lemma_not_listed_entries(t: Seq<NodeCountView>, n: Seq<char>)
    requires
        !table_nodes(t).contains(n),
    ensures
        entries_total(t, n) == 0,
    decreases t.len(),
{
    if t.len() > 0 {
        assert(table_nodes(t.drop_last()) =~= table_nodes(t).drop_last());
        if table_nodes(t.drop_last()).contains(n) {
            let j = choose|j: int| 0 <= j < t.len() - 1 && table_nodes(t.drop_last())[j] == n;
            assert(table_nodes(t)[j] == n);
        }
        lemma_not_listed_entries(t.drop_last(), n);
        assert(table_nodes(t)[t.len() - 1] == t.last().node);
    }
}

proof fn lemma_not_listed_total(ts: Seq<Seq<NodeCountView>>, n: Seq<char>)
    requires
        !in_some_table(ts, n),
    ensures
        tables_total(ts, n) == 0,
    decreases ts.len(),
{
    if ts.len() > 0 {
        let p = ts.drop_last();
        if in_some_table(p, n) {
            let k = choose|k: int| 0 <= k < p.len() && #[trigger] table_nodes(p[k]).contains(n);
            assert(ts[k] == p[k]);
        }
        lemma_not_listed_total(p, n);
        assert(!table_nodes(ts[ts.len() - 1]).contains(n));
        lemma_not_listed_entries(ts.last(), n);
    }
}

} // verus!
