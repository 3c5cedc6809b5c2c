use vstd::prelude::*;

use crate::error::StatsError;

verus! {

/// The draws of each chain, as mathematical sequences.
pub open spec fn chains_view<T>(chains: Seq<Vec<T>>) -> Seq<Seq<T>> {
    chains.map_values(|c: Vec<T>| c@)
}

/// Length of the shortest chain (zero for an empty chain set).
pub open spec fn min_len<T>(chains: Seq<Seq<T>>) -> nat
    decreases chains.len(),
{
    if chains.len() == 0 {
        0
    } else if chains.len() == 1 {
        chains[0].len()
    } else {
        let m = min_len(chains.drop_last());
        let l = chains.last().len();
        if l < m {
            l
        } else {
            m
        }
    }
}

/// `min_len` is a lower bound of the chain lengths and is attained by one chain.
pub proof fn lemma_min_len_is_min<T>(chains: Seq<Seq<T>>)
    requires
        chains.len() > 0,
    ensures
        forall|i: int| 0 <= i < chains.len() ==> min_len(chains) <= #[trigger] chains[i].len(),
        exists|i: int| 0 <= i < chains.len() && min_len(chains) == #[trigger] chains[i].len(),
    decreases chains.len(),
{
    if chains.len() == 1 {
        assert(min_len(chains) == chains[0].len());
    } else {
        let init = chains.drop_last();
        lemma_min_len_is_min(init);
        assert forall|i: int| 0 <= i < chains.len() implies min_len(chains) <= #[trigger] chains[i].len() by {
            if i < chains.len() - 1 {
                assert(init[i] == chains[i]);
            }
        }
        if chains.last().len() < min_len(init) {
            assert(min_len(chains) == chains[chains.len() - 1].len());
        } else {
            let j = choose|j: int| 0 <= j < init.len() && min_len(init) == #[trigger] init[j].len();
            assert(init[j] == chains[j]);
        }
    }
}

/// The draws that open a chain's first half, for a split point taken from `n` draws.
pub open spec fn first_half<T>(c: Seq<T>, n: nat) -> Seq<T> {
    c.take((n / 2) as int)
}

/// The draws of a chain's second half: for odd `n` the middle draw at `n / 2`
/// belongs to neither half.
pub open spec fn second_half<T>(c: Seq<T>, n: nat) -> Seq<T> {
    c.skip((n / 2 + n % 2) as int)
}

/// Each chain replaced by its two halves, in the order first half, second half,
/// chain after chain; the split point comes from the shortest chain.
pub open spec fn split_spec<T>(chains: Seq<Seq<T>>) -> Seq<Seq<T>> {
    Seq::new(
        2 * chains.len(),
        |k: int|
            if k % 2 == 0 {
                first_half(chains[k / 2], min_len(chains))
            } else {
                second_half(chains[k / 2], min_len(chains))
            },
    )
}

/// A chain with its middle draw removed when the split length `n` is odd.
pub open spec fn without_middle<T>(c: Seq<T>, n: nat) -> Seq<T> {
    if n % 2 == 0 {
        c
    } else {
        c.remove((n / 2) as int)
    }
}

/// Each pair of consecutive sequences joined into one.
pub open spec fn rejoin_pairs<T>(s: Seq<Seq<T>>) -> Seq<Seq<T>> {
    Seq::new(s.len() / 2, |i: int| s[2 * i] + s[2 * i + 1])
}

/// Joining pairs does not change what a sequence of sequences flattens to.
proof fn lemma_rejoin_pairs_flatten<T>(s: Seq<Seq<T>>)
    requires
        s.len() % 2 == 0,
    ensures
        rejoin_pairs(s).flatten() == s.flatten(),
    decreases s.len(),
{
    let p = rejoin_pairs(s);
    s.lemma_flatten_and_flatten_alt_are_equivalent();
    p.lemma_flatten_and_flatten_alt_are_equivalent();
    if s.len() > 0 {
        let t = s.take(s.len() - 2);
        lemma_rejoin_pairs_flatten(t);
        t.lemma_flatten_and_flatten_alt_are_equivalent();
        rejoin_pairs(t).lemma_flatten_and_flatten_alt_are_equivalent();
        assert(p.drop_last() =~= rejoin_pairs(t));
        assert(s.drop_last().drop_last() =~= t);
        let a = s[s.len() - 2];
        let b = s[s.len() - 1];
        assert(p.last() == a + b);
        assert(s.drop_last().last() == a);
        assert(s.flatten_alt() == s.drop_last().flatten_alt() + b);
        assert(s.drop_last().flatten_alt() == t.flatten_alt() + a);
        assert(p.flatten_alt() == rejoin_pairs(t).flatten_alt() + (a + b));
        assert(t.flatten() + a + b =~= t.flatten() + (a + b));
    }
}

/// Splitting the chains and joining each pair of halves again gives back every
/// chain, without its middle draw when the shortest length is odd. Hence the
/// flattened split equals the flattened chains with those draws removed.
pub proof fn lemma_split_then_rejoin<T>(chains: Seq<Seq<T>>)
    ensures
        rejoin_pairs(split_spec(chains)) == chains.map_values(
            |c: Seq<T>| without_middle(c, min_len(chains)),
        ),
        split_spec(chains).flatten() == chains.map_values(
            |c: Seq<T>| without_middle(c, min_len(chains)),
        ).flatten(),
{
    let n = min_len(chains);
    let s = split_spec(chains);
    let w = chains.map_values(|c: Seq<T>| without_middle(c, n));
    if chains.len() > 0 {
        lemma_min_len_is_min(chains);
    }
    assert forall|i: int| 0 <= i < chains.len() implies #[trigger] rejoin_pairs(s)[i] == w[i] by {
        let c = chains[i];
        assert(n <= c.len());
        assert(s[2 * i] == first_half(c, n));
        assert(s[2 * i + 1] == second_half(c, n));
        assert(first_half(c, n) + second_half(c, n) =~= without_middle(c, n));
    }
    assert(rejoin_pairs(s) =~= w);
    lemma_rejoin_pairs_flatten(s);
}

/// When every chain has the same even length `n`, every half has length `n / 2`.
pub proof fn lemma_even_split_lengths<T>(chains: Seq<Seq<T>>, n: nat)
    requires
        n % 2 == 0,
        forall|i: int| 0 <= i < chains.len() ==> #[trigger] chains[i].len() == n,
    ensures
        forall|k: int| 0 <= k < split_spec(chains).len() ==> #[trigger] split_spec(chains)[k].len() == n / 2,
{
    if chains.len() > 0 {
        lemma_min_len_is_min(chains);
        assert(min_len(chains) == n);
    }
}

/// Copies the draws `lo .. hi` of a chain into a new vector.
fn copy_range<T: Copy>(v: &Vec<T>, lo: usize, hi: usize) -> (r: Vec<T>)
    requires
        lo <= hi <= v.len(),
    ensures
        r@ == v@.subrange(lo as int, hi as int),
{
    let mut r: Vec<T> = Vec::new();
    let mut i: usize = lo;
    while i < hi
        invariant
            lo <= i <= hi <= v.len(),
            r@ == v@.subrange(lo as int, i as int),
        decreases hi - i,
    {
        r.push(v[i]);
        i += 1;
        assert(r@ =~= v@.subrange(lo as int, i as int));
    }
    r
}

/// Length of the shortest chain of a non-empty chain set.
fn shortest_len<T>(chains: &Vec<Vec<T>>) -> (m: usize)
    requires
        chains.len() > 0,
    ensures
        m == min_len(chains_view(chains@)),
{
    let ghost v = chains_view(chains@);
    let mut m: usize = chains[0].len();
    let mut i: usize = 1;
    assert(v.take(1).len() == 1);
    while i < chains.len()
        invariant
            1 <= i <= chains.len(),
            v == chains_view(chains@),
            m == min_len(v.take(i as int)),
        decreases chains.len() - i,
    {
        let l = chains[i].len();
        proof {
            let t = v.take(i as int + 1);
            assert(t.drop_last() =~= v.take(i as int));
            assert(t.last() == chains@[i as int]@);
        }
        if l < m {
            m = l;
        }
        i += 1;
    }
    assert(v.take(chains.len() as int) =~= v);
    m
}

/// Concatenates all chains, in chain order, into one new sequence of draws.
pub fn flatten<T: Copy>(chains: &Vec<Vec<T>>) -> (flat: Vec<T>)
    ensures
        flat@ == chains_view(chains@).flatten(),
{
    let ghost v = chains_view(chains@);
    let mut flat: Vec<T> = Vec::new();
    let mut i: usize = 0;
    while i < chains.len()
        invariant
            0 <= i <= chains.len(),
            v == chains_view(chains@),
            flat@ == v.take(i as int).flatten(),
        decreases chains.len() - i,
    {
        let chain = &chains[i];
        let ghost done = flat@;
        let mut j: usize = 0;
        while j < chain.len()
            invariant
                0 <= j <= chain.len(),
                flat@ == done + chain@.take(j as int),
            decreases chain.len() - j,
        {
            flat.push(chain[j]);
            j += 1;
            assert(flat@ =~= done + chain@.take(j as int));
        }
        proof {
            assert(chain@.take(chain@.len() as int) =~= chain@);
            assert(v.take(i as int + 1) =~= v.take(i as int).push(chain@));
            v.take(i as int).lemma_flatten_push(chain@);
        }
        i += 1;
    }
    assert(v.take(chains.len() as int) =~= v);
    flat
}

/// Splits each chain into two halves for split-chain diagnostics.
///
/// The split point comes from the shortest chain's length `n`: the first half
/// of every chain holds its first `n / 2` draws; for odd `n` the draw at
/// `n / 2` is dropped; the second half holds all the draws after that. The
/// result lists the first and second half of each chain in turn. Fails with
/// `EmptyChainSet` when there are no chains and with `NoDraws` when some chain
/// is empty.
pub fn split_chains<T: Copy>(chains: Vec<Vec<T>>) -> (r: Result<Vec<Vec<T>>, StatsError>)
    ensures
        chains@.len() == 0 ==> r == Err::<Vec<Vec<T>>, StatsError>(StatsError::EmptyChainSet),
        chains@.len() > 0 && (exists|i: int| 0 <= i < chains@.len() && #[trigger] chains@[i]@.len() == 0)
            ==> r == Err::<Vec<Vec<T>>, StatsError>(StatsError::NoDraws),
        r is Ok <==> chains@.len() > 0 && (forall|i: int| 0 <= i < chains@.len() ==> #[trigger] chains@[i]@.len() > 0),
        r matches Ok(s) ==> chains_view(s@) == split_spec(chains_view(chains@)),
{
    let ghost v = chains_view(chains@);
    if chains.len() == 0 {
        return Err(StatsError::EmptyChainSet);
    }
    let num_draws = shortest_len(&chains);
    proof {
        lemma_min_len_is_min(v);
        assert forall|i: int| 0 <= i < chains@.len() implies min_len(v) <= #[trigger] chains@[i]@.len() by {
            assert(v[i] == chains@[i]@);
        }
        let j = choose|j: int| 0 <= j < v.len() && min_len(v) == #[trigger] v[j].len();
        assert(v[j] == chains@[j]@);
    }
    if num_draws < 1 {
        return Err(StatsError::NoDraws);
    }
    let (half, offset): (usize, usize) = if num_draws % 2 == 0 {
        (num_draws / 2, 0)
    } else {
        ((num_draws - 1) / 2, 1)
    };
    assert(half == num_draws / 2 && offset == num_draws % 2);
    let ghost expected = split_spec(v);
    let mut split_draws: Vec<Vec<T>> = Vec::new();
    let mut i: usize = 0;
    while i < chains.len()
        invariant
            0 < num_draws <= chains@[0]@.len(),
            v == chains_view(chains@),
            expected == split_spec(v),
            num_draws == min_len(v),
            half == num_draws / 2,
            offset == num_draws % 2,
            forall|k: int| 0 <= k < chains@.len() ==> num_draws <= #[trigger] chains@[k]@.len(),
            0 <= i <= chains.len(),
            split_draws@.len() == 2 * i,
            forall|k: int| 0 <= k < 2 * i ==> #[trigger] split_draws@[k]@ == expected[k],
        decreases chains.len() - i,
    {
        let chain = &chains[i];
        assert(num_draws <= chains@[i as int]@.len());
        let first = copy_range(chain, 0, half);
        let second = copy_range(chain, half + offset, chain.len());
        proof {
            assert(v[i as int] == chain@);
            assert(first@ =~= expected[2 * i as int]);
            assert(second@ =~= expected[2 * i as int + 1]);
        }
        split_draws.push(first);
        split_draws.push(second);
        i += 1;
    }
    assert(chains_view(split_draws@) =~= expected);
    Ok(split_draws)
}

} // verus!
