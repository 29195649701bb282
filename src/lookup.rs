//! Tables built by inserting key-value pairs in order, a later pair
//! overwriting an earlier one with the same key.
use vstd::prelude::*;

verus! {

/// The map that results from inserting the pairs of `s` in order.
pub open spec fn last_wins<K, V>(s: Seq<(K, V)>) -> Map<K, V>
    decreases s.len(),
{
    if s.len() == 0 {
        Map::empty()
    } else {
        last_wins(s.drop_last()).insert(s.last().0, s.last().1)
    }
}

/// Pairs after position `i` whose key differs from `k` do not change what `k` maps to.
pub proof fn lemma_last_wins_prefix<K, V>(s: Seq<(K, V)>, i: int, k: K)
    requires
        0 <= i <= s.len(),
        forall|j: int| i <= j < s.len() ==> (#[trigger] s[j]).0 != k,
    ensures
        last_wins(s).contains_key(k) == last_wins(s.take(i)).contains_key(k),
        last_wins(s).contains_key(k) ==> last_wins(s)[k] == last_wins(s.take(i))[k],
    decreases s.len(),
{
    if i == s.len() {
        assert(s.take(i) =~= s);
    } else {
        let p = s.drop_last();
        assert(s[s.len() - 1].0 != k);
        assert forall|j: int| i <= j < p.len() implies (#[trigger] p[j]).0 != k by {
            assert(p[j] == s[j]);
        }
        lemma_last_wins_prefix(p, i, k);
        assert(p.take(i) =~= s.take(i));
    }
}

/// The pair at position `i` decides what its key maps to in the first `i + 1` pairs.
pub proof fn lemma_last_wins_at<K, V>(s: Seq<(K, V)>, i: int)
    requires
        0 <= i < s.len(),
    ensures
        last_wins(s.take(i + 1)).contains_key(s[i].0),
        last_wins(s.take(i + 1))[s[i].0] == s[i].1,
{
    assert(s.take(i + 1).drop_last() =~= s.take(i));
}

/// `k` is a key of the table exactly when some pair has it; it then maps to
/// the value of the last such pair.
pub proof fn lemma_last_wins_lookup<K, V>(s: Seq<(K, V)>, i: int)
    requires
        0 <= i < s.len(),
        forall|j: int| i < j < s.len() ==> (#[trigger] s[j]).0 != s[i].0,
    ensures
        last_wins(s).contains_key(s[i].0),
        last_wins(s)[s[i].0] == s[i].1,
{
    lemma_last_wins_prefix(s, i + 1, s[i].0);
    lemma_last_wins_at(s, i);
}

/// A key that no pair has is not in the table.
pub proof fn lemma_last_wins_absent<K, V>(s: Seq<(K, V)>, k: K)
    requires
        forall|j: int| 0 <= j < s.len() ==> (#[trigger] s[j]).0 != k,
    ensures
        !last_wins(s).contains_key(k),
{
    lemma_last_wins_prefix(s, 0, k);
}

/// With distinct keys, the table has one entry for each pair, holding its value.
pub proof fn lemma_last_wins_distinct<K, V>(s: Seq<(K, V)>)
    requires
        forall|i: int, j: int| 0 <= i < j < s.len() ==> (#[trigger] s[i]).0 != (#[trigger] s[j]).0,
    ensures
        last_wins(s).dom().finite(),
        last_wins(s).dom().len() == s.len(),
        forall|i: int|
            0 <= i < s.len() ==> last_wins(s).contains_key((#[trigger] s[i]).0) && last_wins(
                s,
            )[s[i].0] == s[i].1,
    decreases s.len(),
{
    if s.len() > 0 {
        let p = s.drop_last();
        let k = s.last().0;
        assert forall|i: int, j: int| 0 <= i < j < p.len() implies (#[trigger] p[i]).0 != (
        #[trigger] p[j]).0 by {
            assert(p[i] == s[i] && p[j] == s[j]);
        }
        lemma_last_wins_distinct(p);
        assert forall|j: int| 0 <= j < p.len() implies (#[trigger] p[j]).0 != k by {
            assert(p[j] == s[j]);
            assert(s[j].0 != s[s.len() - 1].0);
        }
        lemma_last_wins_absent(p, k);
        assert(last_wins(s).dom() == last_wins(p).dom().insert(k));
        assert forall|i: int| 0 <= i < s.len() implies last_wins(s).contains_key(
            (#[trigger] s[i]).0,
        ) && last_wins(s)[s[i].0] == s[i].1 by {
            if i < s.len() - 1 {
                assert(p[i] == s[i]);
                assert(s[i].0 != s[s.len() - 1].0);
            }
        }
    }
}

} // verus!
