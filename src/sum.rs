use vstd::prelude::*;

verus! {

/// Sum of a sequence of integers.
pub open spec fn total(s: Seq<int>) -> int
    decreases s.len(),
{
    if s.len() == 0 {
        0
    } else {
        total(s.drop_last()) + s.last()
    }
}

pub proof fn lemma_total_concat(a: Seq<int>, b: Seq<int>)
    ensures
        total(a + b) == total(a) + total(b),
    decreases b.len(),
{
    if b.len() == 0 {
        assert(a + b =~= a);
    } else {
        lemma_total_concat(a, b.drop_last());
        assert((a + b).drop_last() =~= a + b.drop_last());
    }
}

proof fn lemma_total_split(s: Seq<int>, i: int)
    requires
        0 <= i < s.len(),
    ensures
        total(s) == total(s.subrange(0, i)) + s[i] + total(s.subrange(i + 1, s.len() as int)),
{
    let a = s.subrange(0, i);
    let b = s.subrange(i + 1, s.len() as int);
    assert(s =~= a + seq![s[i]] + b);
    lemma_total_concat(a + seq![s[i]], b);
    lemma_total_concat(a, seq![s[i]]);
    let one = seq![s[i]];
    assert(one.drop_last() =~= Seq::<int>::empty());
    assert(total(Seq::<int>::empty()) == 0);
    assert(total(one) == s[i]);
}

pub proof fn lemma_total_update(s: Seq<int>, i: int, v: int)
    requires
        0 <= i < s.len(),
    ensures
        total(s.update(i, v)) == total(s) - s[i] + v,
{
    let t = s.update(i, v);
    lemma_total_split(s, i);
    lemma_total_split(t, i);
    assert(t.subrange(0, i) =~= s.subrange(0, i));
    assert(t.subrange(i + 1, t.len() as int) =~= s.subrange(i + 1, s.len() as int));
}

pub proof fn lemma_total_insert(s: Seq<int>, i: int, v: int)
    requires
        0 <= i <= s.len(),
    ensures
        total(s.insert(i, v)) == total(s) + v,
{
    let t = s.insert(i, v);
    lemma_total_split(t, i);
    assert(t.subrange(0, i) =~= s.subrange(0, i));
    assert(t.subrange(i + 1, t.len() as int) =~= s.subrange(i, s.len() as int));
    assert(s =~= s.subrange(0, i) + s.subrange(i, s.len() as int));
    lemma_total_concat(s.subrange(0, i), s.subrange(i, s.len() as int));
}

pub proof fn lemma_total_remove(s: Seq<int>, i: int)
    requires
        0 <= i < s.len(),
    ensures
        total(s.remove(i)) == total(s) - s[i],
{
    let t = s.remove(i);
    lemma_total_split(s, i);
    assert(t =~= s.subrange(0, i) + s.subrange(i + 1, s.len() as int));
    lemma_total_concat(s.subrange(0, i), s.subrange(i + 1, s.len() as int));
}

/// Extending a prefix by one term adds that term, and a prefix of
/// non-negative terms sums to at most the whole.
pub proof fn lemma_total_prefix(s: Seq<int>, i: int)
    requires
        0 <= i < s.len(),
        forall|k: int| 0 <= k < s.len() ==> s[k] >= 0,
    ensures
        total(s.subrange(0, i + 1)) == total(s.subrange(0, i)) + s[i],
        total(s.subrange(0, i + 1)) <= total(s),
{
    assert(s.subrange(0, i + 1).drop_last() =~= s.subrange(0, i));
    let rest = s.subrange(i + 1, s.len() as int);
    assert(s =~= s.subrange(0, i + 1) + rest);
    lemma_total_concat(s.subrange(0, i + 1), rest);
    assert forall|k: int| 0 <= k < rest.len() implies rest[k] >= 0 by {
        assert(rest[k] == s[i + 1 + k]);
    }
    lemma_total_bounds(rest);
}

/// A sum of non-negative terms bounds each term and is itself non-negative.
pub proof fn lemma_total_bounds(s: Seq<int>)
    requires
        forall|k: int| 0 <= k < s.len() ==> s[k] >= 0,
    ensures
        total(s) >= 0,
        forall|k: int| 0 <= k < s.len() ==> s[k] <= total(s),
    decreases s.len(),
{
    if s.len() > 0 {
        lemma_total_bounds(s.drop_last());
        assert forall|k: int| 0 <= k < s.len() implies s[k] <= total(s) by {
            if k < s.len() - 1 {
                assert(s.drop_last()[k] == s[k]);
            }
        }
    }
}

/// A sum of terms that are each at least one is at least the number of terms.
pub proof fn lemma_total_at_least_len(s: Seq<int>)
    requires
        forall|k: int| 0 <= k < s.len() ==> s[k] >= 1,
    ensures
        total(s) >= s.len(),
    decreases s.len(),
{
    if s.len() > 0 {
        lemma_total_at_least_len(s.drop_last());
    }
}

/// Scaling every term scales the sum.
pub proof fn lemma_total_scale(s: Seq<int>, c: int)
    ensures
        total(s.map_values(|x: int| x * c)) == c * total(s),
    decreases s.len(),
{
    if s.len() > 0 {
        lemma_total_scale(s.drop_last(), c);
        assert(s.map_values(|x: int| x * c).drop_last() =~= s.drop_last().map_values(|x: int| x * c));
        assert(c * total(s) == c * total(s.drop_last()) + c * s.last()) by (nonlinear_arith)
            requires total(s) == total(s.drop_last()) + s.last();
    }
}

} // verus!
