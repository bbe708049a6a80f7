use vstd::prelude::*;
use vstd::seq_lib::lemma_no_dup_in_concat;

verus! {

/// `after` is `before` with more entries pushed at the end.
pub open spec fn extends(before: Seq<usize>, after: Seq<usize>) -> bool {
    after.len() >= before.len() && after.subrange(0, before.len() as int) == before
}

/// The entries pushed onto `before` to give `after`.
pub open spec fn appended(before: Seq<usize>, after: Seq<usize>) -> Seq<usize> {
    after.subrange(before.len() as int, after.len() as int)
}

pub proof fn lemma_extend(a: Seq<usize>, b: Seq<usize>, c: Seq<usize>, sa: Set<usize>, sb: Set<usize>)
    requires
        extends(a, b),
        extends(b, c),
        appended(a, b).no_duplicates(),
        appended(a, b).to_set() == sa,
        appended(b, c).no_duplicates(),
        appended(b, c).to_set() == sb,
        sa.disjoint(sb),
    ensures
        extends(a, c),
        appended(a, c).no_duplicates(),
        appended(a, c).to_set() == sa.union(sb),
{
    let x = appended(a, b);
    let y = appended(b, c);
    assert(appended(a, c) =~= x + y);
    assert(c.subrange(0, a.len() as int) =~= a) by {
        assert forall|i: int| 0 <= i < a.len() implies c.subrange(0, a.len() as int)[i] == a[i] by {
            assert(c[i] == b[i]);
            assert(b[i] == a[i]);
        }
    }
    assert forall|i: int, j: int| 0 <= i < x.len() && 0 <= j < y.len() implies x[i] != y[j] by {
        assert(x.contains(x[i]));
        assert(y.contains(y[j]));
        assert(sa.contains(x[i]));
        assert(sb.contains(y[j]));
    }
    lemma_no_dup_in_concat(x, y);
    assert((x + y).to_set() =~= sa.union(sb)) by {
        assert forall|v: usize| (x + y).contains(v) implies sa.union(sb).contains(v) by {
            let i = choose|i: int| 0 <= i < (x + y).len() && (x + y)[i] == v;
            if i < x.len() {
                assert(x.contains(v));
            } else {
                assert(y[i - x.len()] == v);
                assert(y.contains(v));
            }
        }
        assert forall|v: usize| sa.union(sb).contains(v) implies (x + y).contains(v) by {
            if sa.contains(v) {
                assert(x.contains(v));
                let i = choose|i: int| 0 <= i < x.len() && x[i] == v;
                assert((x + y)[i] == v);
            } else {
                assert(y.contains(v));
                let i = choose|i: int| 0 <= i < y.len() && y[i] == v;
                assert((x + y)[x.len() + i] == v);
            }
        }
    }
}

pub proof fn lemma_push(a: Seq<usize>, b: Seq<usize>, v: usize, sa: Set<usize>)
    requires
        extends(a, b),
        appended(a, b).no_duplicates(),
        appended(a, b).to_set() == sa,
        !sa.contains(v),
    ensures
        extends(a, b.push(v)),
        appended(a, b.push(v)).no_duplicates(),
        appended(a, b.push(v)).to_set() == sa.insert(v),
{
    let c = b.push(v);
    assert(c.subrange(0, b.len() as int) =~= b);
    assert(appended(b, c) =~= seq![v]);
    assert(seq![v].to_set() =~= set![v]) by {
        assert(seq![v][0] == v);
    }
    assert(sa.disjoint(set![v]));
    lemma_extend(a, b, c, sa, set![v]);
    assert(sa.union(set![v]) =~= sa.insert(v));
}

pub proof fn lemma_extend_nothing(a: Seq<usize>)
    ensures
        extends(a, a),
        appended(a, a).no_duplicates(),
        appended(a, a).to_set() == Set::<usize>::empty(),
{
    assert(a.subrange(0, a.len() as int) =~= a);
    assert(appended(a, a) =~= Seq::<usize>::empty());
    assert(appended(a, a).to_set() =~= Set::<usize>::empty());
}

} // verus!
