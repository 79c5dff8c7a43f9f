//! An in-memory battle repository keyed by the ordered pair of strain
//! references.
//!
//! Requesting a battle between the same ordered pair twice must not
//! accumulate duplicate records: storing a result atomically supersedes any
//! prior result for that exact ordered pair. The repository therefore keeps
//! at most one record per ordered pair.

use vstd::prelude::*;

use crate::battle::BattleResult;

verus! {

/// The ordered strain pair a battle result is keyed by.
pub open spec fn pair_of(r: BattleResult) -> (u128, u128) {
    (r.strain_a, r.strain_b)
}

/// The records of `s` whose ordered pair differs from `pair`, in order.
pub open spec fn without_pair(s: Seq<BattleResult>, pair: (u128, u128)) -> Seq<BattleResult> {
    s.filter(|e: BattleResult| pair_of(e) != pair)
}

/// Appending one record extends the filtered sequence exactly when the
/// record's pair differs.
proof fn lemma_without_pair_push(s: Seq<BattleResult>, pair: (u128, u128), e: BattleResult)
    ensures
        without_pair(s.push(e), pair) == (if pair_of(e) != pair {
            without_pair(s, pair).push(e)
        } else {
            without_pair(s, pair)
        }),
{
    reveal(Seq::filter);
    assert(s.push(e).drop_last() =~= s);
    assert(s.push(e).last() == e);
}

/// Every record the filter keeps comes from the original sequence and has a
/// different pair than the one filtered out.
proof fn lemma_without_pair_elems(s: Seq<BattleResult>, pair: (u128, u128))
    ensures
        forall|i: int|
            0 <= i < without_pair(s, pair).len() ==> pair_of(#[trigger] without_pair(s, pair)[i])
                != pair,
        forall|i: int|
            0 <= i < without_pair(s, pair).len() ==> exists|k: int|
                0 <= k < s.len() && #[trigger] s[k] == (#[trigger] without_pair(s, pair)[i]),
    decreases s.len(),
{
    reveal(Seq::filter);
    if s.len() > 0 {
        let sub = s.drop_last();
        lemma_without_pair_elems(sub, pair);
        assert(sub.push(s.last()) =~= s);
        lemma_without_pair_push(sub, pair, s.last());
        assert forall|i: int| 0 <= i < without_pair(s, pair).len() implies pair_of(
            #[trigger] without_pair(s, pair)[i],
        ) != pair && exists|k: int| 0 <= k < s.len() && s[k] == without_pair(s, pair)[i] by {
            if i < without_pair(sub, pair).len() {
                assert(without_pair(s, pair)[i] == without_pair(sub, pair)[i]);
                let k = choose|k: int| 0 <= k < sub.len() && sub[k] == without_pair(sub, pair)[i];
                assert(s[k] == without_pair(s, pair)[i]);
            } else {
                assert(without_pair(s, pair)[i] == s.last());
                assert(s[s.len() - 1] == without_pair(s, pair)[i]);
            }
        };
    }
}

/// Filtering a sequence with pairwise-distinct pairs keeps the pairs
/// pairwise distinct.
proof fn lemma_without_pair_distinct(s: Seq<BattleResult>, pair: (u128, u128))
    requires
        forall|i: int, j: int| 0 <= i < j < s.len() ==> pair_of(s[i]) != pair_of(s[j]),
    ensures
        forall|i: int, j: int|
            0 <= i < j < without_pair(s, pair).len() ==> pair_of(without_pair(s, pair)[i])
                != pair_of(without_pair(s, pair)[j]),
    decreases s.len(),
{
    if s.len() > 0 {
        let sub = s.drop_last();
        assert(forall|i: int, j: int| 0 <= i < j < sub.len() ==> pair_of(sub[i]) != pair_of(
            sub[j],
        ));
        lemma_without_pair_distinct(sub, pair);
        lemma_without_pair_elems(sub, pair);
        assert(sub.push(s.last()) =~= s);
        lemma_without_pair_push(sub, pair, s.last());
        assert forall|i: int, j: int|
            0 <= i < j < without_pair(s, pair).len() implies pair_of(without_pair(s, pair)[i])
            != pair_of(without_pair(s, pair)[j]) by {
            if j < without_pair(sub, pair).len() {
                assert(without_pair(s, pair)[i] == without_pair(sub, pair)[i]);
                assert(without_pair(s, pair)[j] == without_pair(sub, pair)[j]);
            } else {
                assert(without_pair(s, pair)[j] == s.last());
                assert(without_pair(s, pair)[i] == without_pair(sub, pair)[i]);
                let k = choose|k: int| 0 <= k < sub.len() && sub[k] == without_pair(sub, pair)[i];
                assert(pair_of(s[k]) != pair_of(s[s.len() - 1]));
            }
        };
    }
}

/// The store of finished battles: at most one record per ordered pair of
/// strain references.
pub struct BattleRepository {
    results: Vec<BattleResult>,
}

impl View for BattleRepository {
    type V = Seq<BattleResult>;

    closed spec fn view(&self) -> Seq<BattleResult> {
        self.results@
    }
}

impl BattleRepository {
    /// At most one record per ordered pair.
    pub open spec fn wf(&self) -> bool {
        forall|i: int, j: int| 0 <= i < j < self@.len() ==> pair_of(self@[i]) != pair_of(self@[j])
    }

    /// An empty repository.
    pub fn new() -> (r: BattleRepository)
        ensures
            r.wf(),
            r@.len() == 0,
    {
        BattleRepository { results: Vec::new() }
    }

    /// Store a battle result, atomically superseding any prior record for
    /// the same ordered pair of strains: afterwards the repository holds
    /// every record of a different pair unchanged and exactly this one
    /// record for the result's pair, appended last.
    pub fn replace(&mut self, result: BattleResult)
        requires
            old(self).wf(),
        ensures
            final(self).wf(),
            final(self)@ == without_pair(old(self)@, pair_of(result)).push(result),
    {
        let ghost orig = self@;
        let ghost pr = pair_of(result);
        let mut i: usize = 0;
        let ghost mut j: int = 0;
        proof {
            reveal(Seq::filter);
            assert(orig.take(0) =~= Seq::<BattleResult>::empty());
            assert(orig.skip(0) =~= orig);
            assert(without_pair(orig.take(0), pr) =~= Seq::<BattleResult>::empty());
        }
        while i < self.results.len()
            invariant
                0 <= j <= orig.len(),
                i == without_pair(orig.take(j), pr).len(),
                self.results@ == without_pair(orig.take(j), pr) + orig.skip(j),
                self.results@.len() == i + orig.len() - j,
                pr == pair_of(result),
            decreases orig.len() - j,
        {
            proof {
                assert(orig.skip(j)[0] == orig[j]);
                assert(self.results@[i as int] == orig[j]);
                assert(orig.take(j + 1).drop_last() =~= orig.take(j));
                assert(orig.take(j).push(orig[j]) =~= orig.take(j + 1));
                lemma_without_pair_push(orig.take(j), pr, orig[j]);
            }
            let same_pair: bool = self.results[i].strain_a == result.strain_a
                && self.results[i].strain_b == result.strain_b;
            if same_pair {
                let ghost pre = self.results@;
                let _ = self.results.remove(i);
                proof {
                    assert(!(pair_of(orig[j]) != pr));
                    assert(self.results@ =~= without_pair(orig.take(j + 1), pr) + orig.skip(
                        j + 1,
                    ));
                }
            } else {
                proof {
                    assert(pair_of(orig[j]) != pr);
                    assert(without_pair(orig.take(j + 1), pr) == without_pair(
                        orig.take(j),
                        pr,
                    ).push(orig[j]));
                    assert(self.results@ =~= without_pair(orig.take(j + 1), pr) + orig.skip(
                        j + 1,
                    ));
                }
                i = i + 1;
            }
            proof {
                j = j + 1;
            }
        }
        proof {
            assert(j == orig.len());
            assert(orig.take(j) =~= orig);
            assert(orig.skip(j) =~= Seq::<BattleResult>::empty());
            assert(self.results@ =~= without_pair(orig, pr));
        }
        self.results.push(result);
        proof {
            lemma_without_pair_distinct(orig, pr);
            lemma_without_pair_elems(orig, pr);
            let post = self@;
            assert forall|a: int, b: int| 0 <= a < b < post.len() implies pair_of(post[a])
                != pair_of(post[b]) by {
                if b < post.len() - 1 {
                    assert(post[a] == without_pair(orig, pr)[a]);
                    assert(post[b] == without_pair(orig, pr)[b]);
                } else {
                    assert(post[b] == result);
                    assert(post[a] == without_pair(orig, pr)[a]);
                    assert(pair_of(without_pair(orig, pr)[a]) != pr);
                }
            };
        }
    }

    /// Look a battle up by its identifier: the first record with that
    /// identifier, or `None` when no record has it.
    pub fn get(&self, battle_id: u128) -> (r: Option<&BattleResult>)
        ensures
            match r {
                Some(b) => exists|i: int|
                    0 <= i < self@.len() && *b == self@[i] && (#[trigger] self@[i]).id == battle_id
                        && (forall|k: int| 0 <= k < i ==> self@[k].id != battle_id),
                None => forall|k: int| 0 <= k < self@.len() ==> self@[k].id != battle_id,
            },
    {
        let n: usize = self.results.len();
        let mut i: usize = 0;
        while i < n
            invariant
                n == self@.len(),
                0 <= i <= n,
                forall|k: int| 0 <= k < i ==> self@[k].id != battle_id,
            decreases n - i,
        {
            if self.results[i].id == battle_id {
                return Some(&self.results[i]);
            }
            i = i + 1;
        }
        None
    }

    /// All stored records, oldest first.
    pub fn records(&self) -> (r: &Vec<BattleResult>)
        ensures
            r@ == self@,
    {
        &self.results
    }
}

} // verus!
