use vstd::prelude::*;
use crate::random::{index_step, Generator};
use vstd::multiset::Multiset;

verus! {

/// `<[T]>::swap`: the two positions exchange their elements and every other
/// position keeps its own.
#[verifier::external_body]
pub(crate) fn swap_items<T>(slice: &mut [T], a: usize, b: usize)
    requires
        a < old(slice)@.len(),
        b < old(slice)@.len(),
    ensures
        final(slice)@ == old(slice)@.update(a as int, old(slice)@[b as int]).update(
            b as int,
            old(slice)@[a as int],
        ),
{
    slice.swap(a, b)
}

/// `<[T]>::split_at_mut`: the slice is handed out as its first `mid`
/// elements and the rest, and is afterwards what the two parts have become,
/// the first followed by the second.
#[verifier::external_body]
pub(crate) fn split_view<T>(slice: &mut [T], mid: usize) -> (parts: (&mut [T], &mut [T]))
    requires
        mid <= old(slice)@.len(),
    ensures
        parts.0@ == old(slice)@.subrange(0, mid as int),
        parts.1@ == old(slice)@.subrange(mid as int, old(slice)@.len() as int),
        final(slice)@ == final(parts.0)@ + final(parts.1)@,
{
    slice.split_at_mut(mid)
}

/// Exchanging two elements of a sequence leaves its multiset of elements as
/// it was.
pub proof fn lemma_swap_keeps_multiset<T>(s: Seq<T>, a: int, b: int)
    requires
        0 <= a < s.len(),
        0 <= b < s.len(),
    ensures
        s.update(a, s[b]).update(b, s[a]).to_multiset() == s.to_multiset(),
{
    broadcast use vstd::multiset::group_multiset_axioms;

    let s1 = s.update(a, s[b]);
    vstd::seq_lib::to_multiset_update(s, a, s[b]);
    vstd::seq_lib::to_multiset_update(s1, b, s[a]);
    vstd::seq_lib::to_multiset_contains(s, s[a]);
    vstd::seq_lib::to_multiset_contains(s, s[b]);
    assert(s.contains(s[a]));
    assert(s.contains(s[b]));
    assert(s1.update(b, s[a]).to_multiset() =~= s.to_multiset());
}

/// What holds of every element of a sequence holds of every element of each
/// of its rearrangements.
pub proof fn lemma_rearranged_all<T>(a: Seq<T>, b: Seq<T>, p: spec_fn(T) -> bool)
    requires
        a.to_multiset() == b.to_multiset(),
        forall|i: int| 0 <= i < a.len() ==> p(#[trigger] a[i]),
    ensures
        forall|i: int| 0 <= i < b.len() ==> p(#[trigger] b[i]),
{
    assert forall|i: int| 0 <= i < b.len() implies p(#[trigger] b[i]) by {
        vstd::seq_lib::to_multiset_contains(b, b[i]);
        vstd::seq_lib::to_multiset_contains(a, b[i]);
        assert(b.contains(b[i]));
        assert(a.contains(b[i]));
        let j = choose|j: int| 0 <= j < a.len() && a[j] == b[i];
        assert(p(a[j]));
    }
}

/// The multiset of the values of `g` on a sequence, gathered element by
/// element.
spec fn gathered<A, B>(s: Seq<A>, g: spec_fn(A) -> B) -> Multiset<B> {
    s.fold_left(Multiset::<B>::empty(), |m: Multiset<B>, x: A| m.insert(g(x)))
}

proof fn lemma_gathered<A, B>(s: Seq<A>, g: spec_fn(A) -> B)
    ensures
        gathered(s, g) == s.map_values(g).to_multiset(),
    decreases s.len(),
{
    if s.len() == 0 {
        assert(s.map_values(g) =~= Seq::<B>::empty());
        vstd::seq_lib::to_multiset_len(s.map_values(g));
        assert(s.map_values(g).to_multiset() =~= Multiset::<B>::empty()) by {
            broadcast use vstd::multiset::group_multiset_axioms;

            assert forall|x: B| s.map_values(g).to_multiset().count(x) == 0 by {
                vstd::seq_lib::to_multiset_contains(s.map_values(g), x);
            }
        }
    } else {
        lemma_gathered(s.drop_last(), g);
        assert(s.map_values(g) =~= s.drop_last().map_values(g).push(g(s.last())));
        vstd::seq_lib::to_multiset_build(s.drop_last().map_values(g), g(s.last()));
    }
}

/// The values of a function on a rearranged sequence are a rearrangement of
/// its values on the sequence.
pub proof fn lemma_mapped_rearranged<A, B>(a: Seq<A>, b: Seq<A>, g: spec_fn(A) -> B)
    requires
        a.to_multiset() == b.to_multiset(),
    ensures
        a.map_values(g).to_multiset() == b.map_values(g).to_multiset(),
{
    let f = |m: Multiset<B>, x: A| m.insert(g(x));
    assert(vstd::seq_lib::commutative_foldl(f)) by {
        broadcast use vstd::multiset::group_multiset_axioms;

        assert forall|x: A, y: A, v: Multiset<B>| #[trigger] f(f(v, x), y) == f(f(v, y), x) by {
            assert(v.insert(g(x)).insert(g(y)) =~= v.insert(g(y)).insert(g(x)));
        }
    }
    vstd::seq_lib::lemma_fold_left_permutation(a, b, f, Multiset::<B>::empty());
    lemma_gathered(a, g);
    lemma_gathered(b, g);
}

/// Rearranges `data` in place so that the elements on which `pred` answers
/// `true` come first, and returns how many they are. Each element is asked
/// once; nothing is allocated. The order within either side is not kept.
pub fn partition<T, F: Fn(&T) -> bool>(data: &mut [T], pred: F) -> (pivot: usize)
    requires
        forall|i: int| 0 <= i < old(data)@.len() ==> call_requires(pred, (&#[trigger] old(data)@[i],)),
    ensures
        pivot <= final(data)@.len(),
        final(data)@.len() == old(data)@.len(),
        final(data)@.to_multiset() == old(data)@.to_multiset(),
        forall|k: int|
            0 <= k < pivot ==> call_ensures(pred, (&#[trigger] final(data)@[k],), true),
        forall|k: int|
            pivot <= k < final(data)@.len() ==> call_ensures(
                pred,
                (&#[trigger] final(data)@[k],),
                false,
            ),
{
    let n = data.len();
    let mut target: usize = 0;
    let mut i: usize = 0;
    while i < n
        invariant
            n == data@.len(),
            target <= i <= n,
            data@.len() == old(data)@.len(),
            data@.to_multiset() == old(data)@.to_multiset(),
            forall|k: int| 0 <= k < n ==> call_requires(pred, (&#[trigger] data@[k],)),
            forall|k: int| 0 <= k < target ==> call_ensures(pred, (&#[trigger] data@[k],), true),
            forall|k: int| target <= k < i ==> call_ensures(pred, (&#[trigger] data@[k],), false),
        decreases n - i,
    {
        if pred(&data[i]) {
            let ghost before = data@;
            swap_items(data, target, i);
            proof {
                lemma_swap_keeps_multiset(before, target as int, i as int);
            }
            target = target + 1;
        }
        i = i + 1;
    }
    target
}

/// Whether `item` is a clone of one of the elements of `data`.
pub open spec fn drawn_from<T: Clone>(data: Seq<T>, item: T) -> bool {
    exists|i: int| 0 <= i < data.len() && cloned(#[trigger] data[i], item)
}

/// The first `n` indices below `len` that are drawn, one after the other,
/// from a generator that starts in the state `words`, and the state after
/// them.
pub open spec fn index_draws(words: Seq<u32>, len: nat, n: nat) -> (Seq<usize>, Seq<u32>)
    decreases n,
{
    if n == 0 {
        (Seq::<usize>::empty(), words)
    } else {
        let earlier = index_draws(words, len, (n - 1) as nat);
        let step = index_step(earlier.1, len as usize);
        (earlier.0.push(step.0), step.1)
    }
}

/// Whether `drawn` are `n` elements drawn from `data` with replacement by a
/// generator that starts in the state `words` and ends in the state
/// `after`: the elements at the indices that `index_draws` names, cloned.
/// From empty data nothing is drawn, and the generator is left as it was.
pub open spec fn resampled<T: Clone>(
    data: Seq<T>,
    words: Seq<u32>,
    n: nat,
    drawn: Seq<T>,
    after: Seq<u32>,
) -> bool {
    if data.len() == 0 {
        drawn.len() == 0 && after == words
    } else {
        let draws = index_draws(words, data.len(), n);
        &&& drawn.len() == n
        &&& draws.0.len() == n
        &&& after == draws.1
        &&& forall|k: int|
            0 <= k < n ==> 0 <= #[trigger] draws.0[k] < data.len() && cloned(
                data[draws.0[k] as int],
                drawn[k],
            )
    }
}

/// Draws `n` elements of `data` with replacement, each position of `data`
/// being as likely as any other.
pub fn resample<T: Clone>(data: &[T], n: usize, rng: &mut Generator) -> (drawn: Vec<T>)
    ensures
        resampled(data@, old(rng)@, n as nat, drawn@, final(rng)@),
        forall|k: int| 0 <= k < drawn@.len() ==> drawn_from(data@, #[trigger] drawn@[k]),
{
    let mut drawn: Vec<T> = Vec::new();
    let len = data.len();
    if len == 0 {
        return drawn;
    }
    let ghost start = rng@;
    let mut k: usize = 0;
    while k < n
        invariant
            k <= n,
            len == data@.len(),
            0 < len,
            forall|j: int| 0 <= j < drawn@.len() ==> drawn_from(data@, #[trigger] drawn@[j]),
            resampled(data@, start, k as nat, drawn@, rng@),
        decreases n - k,
    {
        let ghost now = index_draws(start, len as nat, k as nat);
        let ghost had = drawn@;
        let i = rng.index_below(len);
        let item = data[i].clone();
        proof {
            assert(cloned(data@[i as int], item));
            assert(drawn_from(data@, item));
        }
        drawn.push(item);
        proof {
            let next = index_draws(start, len as nat, (k + 1) as nat);
            assert(next.0 == now.0.push(i));
            assert forall|j: int| 0 <= j < k + 1 implies 0 <= #[trigger] next.0[j] < len && cloned(
                data@[next.0[j] as int],
                drawn@[j],
            ) by {
                if j < k {
                    assert(next.0[j] == now.0[j]);
                    assert(drawn@[j] == had[j]);
                }
            }
        }
        k = k + 1;
    }
    drawn
}

} // verus!
