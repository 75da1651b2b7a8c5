//! The lineage tracer: every oid linked to a seed through a chain of
//! clone, move or rename operations, in either direction.

use vstd::prelude::*;
use vstd::seq_lib::seq_to_set_is_finite;
use vstd::set_lib::lemma_len_subset;
use crate::model::{OpView, TransactionLog, TxView, tx_views};
use crate::text::{contains_string, string_views};

verus! {

/// `a` and `b` are the two ends of a lineage edge of `op`: its source and
/// destination, or its old and new name, both present.
pub open spec fn op_links(op: OpView, a: Seq<char>, b: Seq<char>) -> bool {
    ||| (op.src_oid.len() > 0 && op.dst_oid.len() > 0 && ((a == op.src_oid && b == op.dst_oid) || (a
        == op.dst_oid && b == op.src_oid)))
    ||| (op.old_oid.len() > 0 && op.new_oid.len() > 0 && ((a == op.old_oid && b == op.new_oid) || (a
        == op.new_oid && b == op.old_oid)))
}

/// Some operation of some transaction links `a` and `b`.
pub open spec fn linked(txs: Seq<TxView>, a: Seq<char>, b: Seq<char>) -> bool {
    exists|i: int, j: int|
        0 <= i < txs.len() && 0 <= j < txs[i].ops.len() && #[trigger] op_links(txs[i].ops[j], a, b)
}

/// `path` starts at a seed and each step follows a lineage edge.
pub open spec fn lineage_path(txs: Seq<TxView>, seeds: Set<Seq<char>>, path: Seq<Seq<char>>) -> bool {
    &&& path.len() > 0
    &&& seeds.contains(path[0])
    &&& forall|k: int| 0 <= k < path.len() - 1 ==> #[trigger] linked(txs, path[k], path[k + 1])
}

pub open spec fn reaches(txs: Seq<TxView>, seeds: Set<Seq<char>>, x: Seq<char>) -> bool {
    exists|path: Seq<Seq<char>>| #[trigger] lineage_path(txs, seeds, path) && path.last() == x
}

/// The oids reachable from `seeds` through lineage edges, seeds included.
pub open spec fn lineage(txs: Seq<TxView>, seeds: Set<Seq<char>>) -> Set<Seq<char>> {
    Set::new(|x: Seq<char>| reaches(txs, seeds, x))
}

pub open spec fn op_ends(o: OpView) -> Seq<Seq<char>> {
    seq![o.src_oid, o.dst_oid, o.old_oid, o.new_oid]
}

/// Every paired oid field of a list of operations.
pub open spec fn ops_ends(ops: Seq<OpView>) -> Seq<Seq<char>>
    decreases ops.len(),
{
    if ops.len() == 0 {
        Seq::empty()
    } else {
        ops_ends(ops.drop_last()) + op_ends(ops.last())
    }
}

/// Every paired oid field of every transaction.
pub open spec fn txs_ends(txs: Seq<TxView>) -> Seq<Seq<char>>
    decreases txs.len(),
{
    if txs.len() == 0 {
        Seq::empty()
    } else {
        txs_ends(txs.drop_last()) + ops_ends(txs.last().ops)
    }
}

proof fn lemma_ops_ends(ops: Seq<OpView>, j: int, x: Seq<char>)
    requires
        0 <= j < ops.len(),
        op_ends(ops[j]).contains(x),
    ensures
        ops_ends(ops).contains(x),
    decreases ops.len(),
{
    let e = ops_ends(ops.drop_last());
    let k = choose|k: int| 0 <= k < op_ends(ops[j]).len() && op_ends(ops[j])[k] == x;
    if j == ops.len() - 1 {
        assert(ops_ends(ops)[e.len() + k] == x);
    } else {
        lemma_ops_ends(ops.drop_last(), j, x);
        let m = choose|m: int| 0 <= m < e.len() && e[m] == x;
        assert(ops_ends(ops)[m] == x);
    }
}

proof fn lemma_txs_ends(txs: Seq<TxView>, i: int, j: int, x: Seq<char>)
    requires
        0 <= i < txs.len(),
        0 <= j < txs[i].ops.len(),
        op_ends(txs[i].ops[j]).contains(x),
    ensures
        txs_ends(txs).contains(x),
    decreases txs.len(),
{
    let e = txs_ends(txs.drop_last());
    if i == txs.len() - 1 {
        lemma_ops_ends(txs[i].ops, j, x);
        let m = choose|m: int| 0 <= m < ops_ends(txs[i].ops).len() && ops_ends(txs[i].ops)[m] == x;
        assert(txs_ends(txs)[e.len() + m] == x);
    } else {
        lemma_txs_ends(txs.drop_last(), i, j, x);
        let m = choose|m: int| 0 <= m < e.len() && e[m] == x;
        assert(txs_ends(txs)[m] == x);
    }
}

/// The far end of a lineage edge is one of the paired oid fields.
proof fn lemma_linked_in_ends(txs: Seq<TxView>, a: Seq<char>, b: Seq<char>)
    requires
        linked(txs, a, b),
    ensures
        txs_ends(txs).contains(b),
{
    let (i, j) = choose|i: int, j: int|
        0 <= i < txs.len() && 0 <= j < txs[i].ops.len() && #[trigger] op_links(txs[i].ops[j], a, b);
    let o = txs[i].ops[j];
    if b == o.src_oid {
        assert(op_ends(o)[0] == b);
    } else if b == o.dst_oid {
        assert(op_ends(o)[1] == b);
    } else if b == o.old_oid {
        assert(op_ends(o)[2] == b);
    } else {
        assert(op_ends(o)[3] == b);
    }
    lemma_txs_ends(txs, i, j, b);
}

proof fn lemma_seed_reaches(txs: Seq<TxView>, seeds: Set<Seq<char>>, s: Seq<char>)
    requires
        seeds.contains(s),
    ensures
        reaches(txs, seeds, s),
{
    let p = seq![s];
    assert(lineage_path(txs, seeds, p));
}

proof fn lemma_step_reaches(txs: Seq<TxView>, seeds: Set<Seq<char>>, a: Seq<char>, b: Seq<char>)
    requires
        reaches(txs, seeds, a),
        linked(txs, a, b),
    ensures
        reaches(txs, seeds, b),
{
    let p = choose|p: Seq<Seq<char>>| #[trigger] lineage_path(txs, seeds, p) && p.last() == a;
    let q = p.push(b);
    assert forall|k: int| 0 <= k < q.len() - 1 implies #[trigger] linked(txs, q[k], q[k + 1]) by {
        if k < p.len() - 1 {
            assert(q[k] == p[k] && q[k + 1] == p[k + 1]);
        }
    }
    assert(lineage_path(txs, seeds, q));
}

/// A set that holds the seeds and is closed under lineage edges holds the
/// whole lineage.
proof fn lemma_closed_holds_lineage(txs: Seq<TxView>, seeds: Set<Seq<char>>, s: Set<Seq<char>>, x: Seq<char>)
    requires
        seeds.subset_of(s),
        forall|a: Seq<char>, b: Seq<char>| s.contains(a) && #[trigger] linked(txs, a, b) ==> s.contains(b),
        reaches(txs, seeds, x),
    ensures
        s.contains(x),
{
    let p = choose|p: Seq<Seq<char>>| #[trigger] lineage_path(txs, seeds, p) && p.last() == x;
    lemma_closed_holds_prefix(txs, seeds, s, p, p.len() - 1);
}

proof fn lemma_closed_holds_prefix(
    txs: Seq<TxView>,
    seeds: Set<Seq<char>>,
    s: Set<Seq<char>>,
    p: Seq<Seq<char>>,
    k: int,
)
    requires
        seeds.subset_of(s),
        forall|a: Seq<char>, b: Seq<char>| s.contains(a) && #[trigger] linked(txs, a, b) ==> s.contains(b),
        lineage_path(txs, seeds, p),
        0 <= k < p.len(),
    ensures
        s.contains(p[k]),
    decreases k,
{
    if k > 0 {
        lemma_closed_holds_prefix(txs, seeds, s, p, k - 1);
        let j = k - 1;
        assert(linked(txs, p[j], p[j + 1]));
    }
}

proof fn lemma_bounded(out: Seq<Seq<char>>, universe: Seq<Seq<char>>)
    requires
        out.no_duplicates(),
        forall|k: int| 0 <= k < out.len() ==> universe.contains(#[trigger] out[k]),
    ensures
        out.len() <= universe.len(),
{
    out.unique_seq_to_set();
    universe.lemma_cardinality_of_set();
    seq_to_set_is_finite(universe);
    assert(out.to_set().subset_of(universe.to_set()));
    lemma_len_subset(out.to_set(), universe.to_set());
}

/// `f` is `o` followed by new elements only.
pub open spec fn extends(o: Seq<Seq<char>>, f: Seq<Seq<char>>) -> bool {
    o.len() <= f.len() && f.take(o.len() as int) == o
}

proof fn lemma_extends_contains(o: Seq<Seq<char>>, f: Seq<Seq<char>>, x: Seq<char>)
    requires
        extends(o, f),
        o.contains(x),
    ensures
        f.contains(x),
{
    let k = choose|k: int| 0 <= k < o.len() && o[k] == x;
    assert(f.take(o.len() as int)[k] == x);
}

/// Where `a` is `cur`, makes sure `b` is in `out`, and the other way round.
fn visit_pair(out: &mut Vec<String>, cur: &String, a: &String, b: &String)
    requires
        string_views(old(out)@).no_duplicates(),
    ensures
        string_views(final(out)@).no_duplicates(),
        extends(string_views(old(out)@), string_views(final(out)@)),
        forall|k: int|
            string_views(old(out)@).len() <= k < string_views(final(out)@).len() ==> {
                ||| (#[trigger] string_views(final(out)@)[k] == b@ && a@ == cur@)
                ||| (string_views(final(out)@)[k] == a@ && b@ == cur@)
            },
        a@ == cur@ ==> string_views(final(out)@).contains(b@),
        b@ == cur@ ==> string_views(final(out)@).contains(a@),
{
    let ghost o = string_views(out@);
    if *a == *cur {
        if !contains_string(out, b) {
            let ghost before = out@;
            out.push(b.clone());
            assert(string_views(out@) =~= string_views(before).push(b@));
            assert(string_views(out@)[string_views(before).len() as int] == b@);
        }
    }
    let ghost mid = string_views(out@);
    assert(mid.take(o.len() as int) =~= o);
    if *b == *cur {
        if !contains_string(out, a) {
            let ghost before = out@;
            out.push(a.clone());
            assert(string_views(out@) =~= string_views(before).push(a@));
            assert(string_views(out@)[string_views(before).len() as int] == a@);
            proof {
                if a@ == cur@ {
                    lemma_extends_contains(mid, string_views(out@), b@);
                }
            }
        }
    }
    assert(string_views(out@).take(o.len() as int) =~= o);
}

/// Every oid of `f` lies in `universe` and is reached from `seeds`.
pub open spec fn sound(
    txs: Seq<TxView>,
    seeds: Set<Seq<char>>,
    universe: Seq<Seq<char>>,
    f: Seq<Seq<char>>,
) -> bool {
    forall|k: int|
        0 <= k < f.len() ==> universe.contains(#[trigger] f[k]) && reaches(txs, seeds, f[k])
}

proof fn lemma_extends_trans(a: Seq<Seq<char>>, b: Seq<Seq<char>>, c: Seq<Seq<char>>)
    requires
        extends(a, b),
        extends(b, c),
    ensures
        extends(a, c),
{
    assert(c.take(a.len() as int) =~= b.take(a.len() as int));
}

proof fn lemma_visit_sound(
    txs: Seq<TxView>,
    seeds: Set<Seq<char>>,
    universe: Seq<Seq<char>>,
    before: Seq<Seq<char>>,
    after: Seq<Seq<char>>,
    cur: Seq<char>,
    a: Seq<char>,
    b: Seq<char>,
)
    requires
        sound(txs, seeds, universe, before),
        extends(before, after),
        forall|k: int|
            before.len() <= k < after.len() ==> {
                ||| (#[trigger] after[k] == b && a == cur)
                ||| (after[k] == a && b == cur)
            },
        reaches(txs, seeds, cur),
        linked(txs, a, b),
        linked(txs, b, a),
        universe.contains(a),
        universe.contains(b),
    ensures
        sound(txs, seeds, universe, after),
{
    assert forall|k: int| 0 <= k < after.len() implies universe.contains(#[trigger] after[k])
        && reaches(txs, seeds, after[k]) by {
        if k < before.len() {
            assert(after[k] == after.take(before.len() as int)[k]);
        } else if after[k] == b && a == cur {
            lemma_step_reaches(txs, seeds, a, b);
        } else {
            lemma_step_reaches(txs, seeds, b, a);
        }
    }
}

/// The paired fields of one operation lie in the universe of a scan.
proof fn lemma_op_in_universe(txs: Seq<TxView>, start: Seq<Seq<char>>, t: int, j: int, x: Seq<char>)
    requires
        0 <= t < txs.len(),
        0 <= j < txs[t].ops.len(),
        op_ends(txs[t].ops[j]).contains(x),
    ensures
        (start + txs_ends(txs)).contains(x),
{
    lemma_txs_ends(txs, t, j, x);
    let m = choose|m: int| 0 <= m < txs_ends(txs).len() && txs_ends(txs)[m] == x;
    assert((start + txs_ends(txs))[start.len() + m] == x);
}

/// Grows `out` into the lineage of what it held: every oid that a chain of
/// lineage edges links to one of its oids, found by a worklist scan.
pub fn traceback_seen(transactions: &Vec<TransactionLog>, out: &mut Vec<String>)
    requires
        string_views(old(out)@).no_duplicates(),
    ensures
        string_views(final(out)@).no_duplicates(),
        string_views(final(out)@).to_set() == lineage(
            tx_views(transactions@),
            string_views(old(out)@).to_set(),
        ),
{
    let ghost txs = tx_views(transactions@);
    let ghost start = string_views(out@);
    let ghost seeds = start.to_set();
    let ghost universe = start + txs_ends(txs);
    let mut i: usize = 0;
    proof {
        assert forall|k: int| 0 <= k < start.len() implies universe.contains(#[trigger] start[k])
            && reaches(txs, seeds, start[k]) by {
            assert(universe[k] == start[k]);
            lemma_seed_reaches(txs, seeds, start[k]);
        }
        lemma_bounded(start, universe);
        assert(start.take(start.len() as int) =~= start);
    }
    while i < out.len()
        invariant
            txs == tx_views(transactions@),
            universe == start + txs_ends(txs),
            seeds == start.to_set(),
            i <= out.len(),
            string_views(out@).no_duplicates(),
            extends(start, string_views(out@)),
            out.len() <= universe.len(),
            sound(txs, seeds, universe, string_views(out@)),
            forall|k: int, b: Seq<char>|
                0 <= k < i && #[trigger] linked(txs, string_views(out@)[k], b) ==> string_views(
                    out@,
                ).contains(b),
        decreases universe.len() - i,
    {
        let cur = out[i].clone();
        let ghost cv = cur@;
        let mut ti: usize = 0;
        while ti < transactions.len()
            invariant
                txs == tx_views(transactions@),
                universe == start + txs_ends(txs),
                seeds == start.to_set(),
                i < out.len(),
                cv == cur@,
                cur@ == string_views(out@)[i as int],
                string_views(out@).no_duplicates(),
                extends(start, string_views(out@)),
                sound(txs, seeds, universe, string_views(out@)),
                forall|k: int, b: Seq<char>|
                    0 <= k < i && #[trigger] linked(txs, string_views(out@)[k], b)
                        ==> string_views(out@).contains(b),
                forall|t: int, j: int, b: Seq<char>|
                    0 <= t < ti && 0 <= j < txs[t].ops.len() && #[trigger] op_links(
                        txs[t].ops[j],
                        cv,
                        b,
                    ) ==> string_views(out@).contains(b),
            decreases transactions.len() - ti,
        {
            let ops = &transactions[ti].transaction;
            let mut oj: usize = 0;
            while oj < ops.len()
                invariant
                    txs == tx_views(transactions@),
                    universe == start + txs_ends(txs),
                    seeds == start.to_set(),
                    ti < transactions.len(),
                    ops == transactions@[ti as int].transaction,
                    i < out.len(),
                    cv == cur@,
                    cur@ == string_views(out@)[i as int],
                    string_views(out@).no_duplicates(),
                    extends(start, string_views(out@)),
                    sound(txs, seeds, universe, string_views(out@)),
                    forall|k: int, b: Seq<char>|
                        0 <= k < i && #[trigger] linked(txs, string_views(out@)[k], b)
                            ==> string_views(out@).contains(b),
                    forall|t: int, j: int, b: Seq<char>|
                        ((0 <= t < ti && 0 <= j < txs[t].ops.len()) || (t == ti && 0 <= j < oj))
                            && #[trigger] op_links(txs[t].ops[j], cv, b)
                            ==> string_views(out@).contains(b),
                decreases ops.len() - oj,
            {
                let op = &ops[oj];
                let ghost ov = txs[ti as int].ops[oj as int];
                let ghost before = string_views(out@);
                proof {
                    assert(ov == op@);
                    assert(reaches(txs, seeds, cv));
                    assert(op_ends(ov)[0] == ov.src_oid && op_ends(ov)[1] == ov.dst_oid);
                    assert(op_ends(ov)[2] == ov.old_oid && op_ends(ov)[3] == ov.new_oid);
                    lemma_op_in_universe(txs, start, ti as int, oj as int, ov.src_oid);
                    lemma_op_in_universe(txs, start, ti as int, oj as int, ov.dst_oid);
                    lemma_op_in_universe(txs, start, ti as int, oj as int, ov.old_oid);
                    lemma_op_in_universe(txs, start, ti as int, oj as int, ov.new_oid);
                }
                if !op.src_oid.as_str().is_empty() && !op.dst_oid.as_str().is_empty() {
                    visit_pair(out, &cur, &op.src_oid, &op.dst_oid);
                    proof {
                        assert(op_links(ov, ov.src_oid, ov.dst_oid));
                        assert(op_links(ov, ov.dst_oid, ov.src_oid));
                        lemma_visit_sound(
                            txs,
                            seeds,
                            universe,
                            before,
                            string_views(out@),
                            cv,
                            ov.src_oid,
                            ov.dst_oid,
                        );
                    }
                } else {
                    assert(string_views(out@).take(before.len() as int) =~= before);
                }
                let ghost middle = string_views(out@);
                if !op.old_oid.as_str().is_empty() && !op.new_oid.as_str().is_empty() {
                    visit_pair(out, &cur, &op.old_oid, &op.new_oid);
                    proof {
                        assert(op_links(ov, ov.old_oid, ov.new_oid));
                        assert(op_links(ov, ov.new_oid, ov.old_oid));
                        lemma_visit_sound(
                            txs,
                            seeds,
                            universe,
                            middle,
                            string_views(out@),
                            cv,
                            ov.old_oid,
                            ov.new_oid,
                        );
                    }
                } else {
                    assert(string_views(out@).take(middle.len() as int) =~= middle);
                }
                let ghost after = string_views(out@);
                proof {
                    lemma_extends_trans(before, middle, after);
                    lemma_extends_trans(start, before, after);
                    assert(after[i as int] == after.take(before.len() as int)[i as int]);
                    assert forall|k: int, b: Seq<char>|
                        0 <= k < i && #[trigger] linked(txs, after[k], b) implies after.contains(
                        b,
                    ) by {
                        assert(after[k] == after.take(before.len() as int)[k]);
                        assert(linked(txs, before[k], b));
                        lemma_extends_contains(before, after, b);
                    }
                    assert forall|t: int, j: int, b: Seq<char>|
                        ((0 <= t < ti && 0 <= j < txs[t].ops.len()) || (t == ti && 0 <= j < oj
                            + 1)) && #[trigger] op_links(txs[t].ops[j], cv, b) implies after.contains(
                        b,
                    ) by {
                        if t == ti && j == oj {
                            if ov.src_oid.len() > 0 && ov.dst_oid.len() > 0 && ((cv == ov.src_oid
                                && b == ov.dst_oid) || (cv == ov.dst_oid && b == ov.src_oid)) {
                                lemma_extends_contains(middle, after, b);
                            }
                        } else {
                            lemma_extends_contains(before, after, b);
                        }
                    }
                }
                oj += 1;
            }
            ti += 1;
        }
        proof {
            let f = string_views(out@);
            assert forall|k: int, b: Seq<char>|
                0 <= k < i + 1 && #[trigger] linked(txs, f[k], b) implies f.contains(b) by {
                if k == i {
                    let (t, j) = choose|t: int, j: int|
                        0 <= t < txs.len() && 0 <= j < txs[t].ops.len() && #[trigger] op_links(
                            txs[t].ops[j],
                            f[k],
                            b,
                        );
                    assert(op_links(txs[t].ops[j], cv, b));
                }
            }
            assert forall|k: int| 0 <= k < f.len() implies universe.contains(#[trigger] f[k]) by {}
            lemma_bounded(f, universe);
        }
        i += 1;
    }
    proof {
        let f = string_views(out@);
        let fs = f.to_set();
        assert forall|x: Seq<char>| fs.contains(x) <==> lineage(txs, seeds).contains(x) by {
            if fs.contains(x) {
                let k = choose|k: int| 0 <= k < f.len() && f[k] == x;
                assert(reaches(txs, seeds, f[k]));
            }
            if lineage(txs, seeds).contains(x) {
                assert forall|y: Seq<char>| seeds.contains(y) implies fs.contains(y) by {
                    lemma_extends_contains(start, f, y);
                }
                assert forall|a: Seq<char>, b: Seq<char>|
                    fs.contains(a) && #[trigger] linked(txs, a, b) implies fs.contains(b) by {
                    let k = choose|k: int| 0 <= k < f.len() && f[k] == a;
                    assert(linked(txs, f[k], b));
                }
                lemma_closed_holds_lineage(txs, seeds, fs, x);
            }
        }
        assert(fs =~= lineage(txs, seeds));
    }
}

/// The lineage of a set of seed oids: the seeds themselves and every oid
/// that a chain of lineage edges links to one of them, each once.
pub fn traceback(seeds: &Vec<String>, transactions: &Vec<TransactionLog>) -> (r: Vec<String>)
    ensures
        string_views(r@).no_duplicates(),
        string_views(r@).to_set() == lineage(tx_views(transactions@), string_views(seeds@).to_set()),
{
    let mut out: Vec<String> = Vec::new();
    let mut i: usize = 0;
    while i < seeds.len()
        invariant
            i <= seeds.len(),
            string_views(out@).no_duplicates(),
            string_views(out@).to_set() == string_views(seeds@).take(i as int).to_set(),
        decreases seeds.len() - i,
    {
        let ghost before = string_views(out@);
        let ghost sv = string_views(seeds@);
        if !contains_string(&out, &seeds[i]) {
            out.push(seeds[i].clone());
            assert(string_views(out@) =~= before.push(sv[i as int]));
        }
        proof {
            let now = string_views(out@);
            let p = sv.take(i as int);
            let q = sv.take(i + 1);
            assert(q =~= p.push(sv[i as int]));
            assert forall|x: Seq<char>| now.contains(x) <==> q.contains(x) by {
                if now.contains(x) && x != sv[i as int] {
                    let k = choose|k: int| 0 <= k < now.len() && now[k] == x;
                    assert(before.to_set().contains(x));
                    assert(p.to_set().contains(x));
                    let m = choose|m: int| 0 <= m < p.len() && p[m] == x;
                    assert(q[m] == x);
                }
                if q.contains(x) && x != sv[i as int] {
                    let m = choose|m: int| 0 <= m < q.len() && q[m] == x;
                    assert(p[m] == x);
                    assert(p.to_set().contains(x));
                    assert(before.to_set().contains(x));
                    let k = choose|k: int| 0 <= k < before.len() && before[k] == x;
                    assert(now[k] == x);
                }
                if x == sv[i as int] {
                    assert(q[i as int] == x);
                    if !before.contains(x) {
                        assert(now[before.len() as int] == x);
                    } else {
                        let k = choose|k: int| 0 <= k < before.len() && before[k] == x;
                        assert(now[k] == x);
                    }
                }
            }
            assert(now.to_set() =~= q.to_set());
        }
        i += 1;
    }
    assert(string_views(seeds@).take(seeds.len() as int) =~= string_views(seeds@));
    traceback_seen(transactions, &mut out);
    out
}

/// The lineage of a seed set holds every seed, and no lineage edge leads
/// out of it.
pub proof fn lemma_lineage_closed(txs: Seq<TxView>, seeds: Set<Seq<char>>)
    ensures
        seeds.subset_of(lineage(txs, seeds)),
        forall|a: Seq<char>, b: Seq<char>|
            lineage(txs, seeds).contains(a) && #[trigger] linked(txs, a, b) ==> lineage(
                txs,
                seeds,
            ).contains(b),
{
    assert forall|s: Seq<char>| seeds.contains(s) implies lineage(txs, seeds).contains(s) by {
        lemma_seed_reaches(txs, seeds, s);
    }
    assert forall|a: Seq<char>, b: Seq<char>|
        lineage(txs, seeds).contains(a) && #[trigger] linked(txs, a, b) implies lineage(
        txs,
        seeds,
    ).contains(b) by {
        lemma_step_reaches(txs, seeds, a, b);
    }
}

} // verus!
