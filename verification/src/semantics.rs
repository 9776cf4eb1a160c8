use vstd::prelude::*;
use crate::message::{apply, lemma_run_concat, read, run, Belief, Op, Seed, Slot, Store};
use crate::nodes::{
    extend_prefix, extend_suffix, gather, prefix_pass, prod_program, scatter, share_pass,
    strip_prefix, strip_suffix, suffix_pass, sum_program,
};

verus! {

/// The product of `factors`, taken from the left, starting at the neutral
/// belief.
pub open spec fn product<M: Belief>(factors: Seq<M>) -> M
    decreases factors.len(),
{
    if factors.len() == 0 {
        M::seed(Seed::One)
    } else {
        product(factors.drop_last()).prod(factors.last())
    }
}

/// The sum of `terms`, taken from the left, starting at zero.
pub open spec fn total<M: Belief>(terms: Seq<M>) -> M
    decreases terms.len(),
{
    if terms.len() == 0 {
        M::seed(Seed::Zero)
    } else {
        total(terms.drop_last()).sum(terms.last())
    }
}

/// The sum of `terms`, taken from the right, starting at zero.
pub open spec fn total_from_back<M: Belief>(terms: Seq<M>) -> M
    decreases terms.len(),
{
    if terms.len() == 0 {
        M::seed(Seed::Zero)
    } else {
        total_from_back(terms.drop_first()).sum(terms.first())
    }
}

/// What comes in over each of `edges`.
pub open spec fn incoming<M: Belief>(edges: Seq<usize>, store: Store<M>) -> Seq<M> {
    Seq::new(edges.len(), |i: int| read(store, Slot::Up(edges[i])))
}

/// What goes out over each of `edges`.
pub open spec fn outgoing<M: Belief>(edges: Seq<usize>, store: Store<M>) -> Seq<M> {
    Seq::new(edges.len(), |i: int| read(store, Slot::Down(edges[i])))
}

/// Whether `slot` is one that nodes use for intermediate results.
pub open spec fn is_temporary(slot: Slot) -> bool {
    slot is Acc || slot is Prefix || slot is Suffix
}

proof fn lemma_gather<M: Belief>(edges: Seq<usize>, store: Store<M>, k: nat)
    requires
        k <= edges.len(),
    ensures
        ({
            let after = run(
                seq![Op::Load { dst: Slot::Acc, value: Seed::One }] + Seq::new(
                    k,
                    |i: int| gather(edges[i]),
                ),
                store,
            );
            &&& read(after, Slot::Acc) == product(incoming(edges, store).take(k as int))
            &&& forall|s: Slot| s != Slot::Acc ==> read(after, s) == read(store, s)
        }),
    decreases k,
{
    let head = seq![Op::Load { dst: Slot::Acc, value: Seed::One }];
    let ops = head + Seq::new(k, |i: int| gather(edges[i]));
    if k == 0 {
        assert(ops =~= head);
        assert(head.drop_last() =~= Seq::<Op>::empty());
        assert(run(head.drop_last(), store) == store);
        assert(incoming(edges, store).take(0) =~= Seq::<M>::empty());
    } else {
        let shorter = head + Seq::new((k - 1) as nat, |i: int| gather(edges[i]));
        lemma_gather(edges, store, (k - 1) as nat);
        assert(ops.drop_last() =~= shorter);
        assert(ops.last() == gather(edges[k - 1]));
        let taken = incoming(edges, store).take(k as int);
        assert(taken.drop_last() =~= incoming(edges, store).take(k - 1));
        assert(taken.last() == read(store, Slot::Up(edges[k - 1])));
    }
}

proof fn lemma_scatter<M: Belief>(edges: Seq<usize>, store: Store<M>, k: nat)
    requires
        k <= edges.len(),
    ensures
        ({
            let after = run(Seq::new(k, |i: int| scatter(edges[i])), store);
            &&& forall|i: int|
                0 <= i < k ==> read(after, Slot::Down(#[trigger] edges[i])) == read(store, Slot::Acc).quot(
                    read(store, Slot::Up(edges[i])),
                )
            &&& forall|s: Slot|
                !(exists|i: int| 0 <= i < k && s == Slot::Down(#[trigger] edges[i])) ==> read(after, s)
                    == read(store, s)
        }),
    decreases k,
{
    let ops = Seq::new(k, |i: int| scatter(edges[i]));
    if k > 0 {
        let shorter = Seq::new((k - 1) as nat, |i: int| scatter(edges[i]));
        lemma_scatter(edges, store, (k - 1) as nat);
        assert(ops.drop_last() =~= shorter);
        assert(ops.last() == scatter(edges[k - 1]));
        let mid = run(shorter, store);
        let after = run(ops, store);
        assert(after == apply(scatter(edges[k - 1]), mid));
        assert(read(mid, Slot::Acc) == read(store, Slot::Acc));
        assert(read(mid, Slot::Up(edges[k - 1])) == read(store, Slot::Up(edges[k - 1])));
        assert forall|i: int| 0 <= i < k implies read(after, Slot::Down(#[trigger] edges[i]))
            == read(store, Slot::Acc).quot(read(store, Slot::Up(edges[i]))) by {
            if edges[i] != edges[k - 1] {
                assert(i < k - 1);
            }
        }
        assert forall|s: Slot|
            !(exists|i: int| 0 <= i < k && s == Slot::Down(#[trigger] edges[i])) implies read(after, s)
                == read(store, s) by {
            assert(s != Slot::Down(edges[k - 1]));
            assert(!(exists|i: int| 0 <= i < k - 1 && s == Slot::Down(#[trigger] edges[i])));
        }
    }
}

/// What refreshing a product node does, in every message algebra: over each
/// edge goes the product of all that came in, divided by what came in over
/// that edge; nothing that came in is touched, nor any slot of another edge.
pub proof fn lemma_prod_node<M: Belief>(edges: Seq<usize>, store: Store<M>)
    ensures
        ({
            let after = run(prod_program(edges), store);
            let all = product(incoming(edges, store));
            &&& read(after, Slot::Acc) == all
            &&& forall|i: int|
                0 <= i < edges.len() ==> read(after, Slot::Down(#[trigger] edges[i])) == all.quot(
                    read(store, Slot::Up(edges[i])),
                )
            &&& forall|s: Slot|
                s != Slot::Acc && !(exists|i: int|
                    0 <= i < edges.len() && s == Slot::Down(#[trigger] edges[i])) ==> read(after, s)
                    == read(store, s)
        }),
{
    let n = edges.len();
    let first = seq![Op::Load { dst: Slot::Acc, value: Seed::One }] + Seq::new(
        n,
        |i: int| gather(edges[i]),
    );
    let second = Seq::new(n, |i: int| scatter(edges[i]));
    let mid = run(first, store);
    lemma_gather(edges, store, n);
    lemma_scatter(edges, mid, n);
    lemma_run_concat(first, second, store);
    assert(incoming(edges, store).take(n as int) =~= incoming(edges, store));
    assert(prod_program(edges) == first + second);
}

/// The sum of the first `i` messages that go out over `edges`.
pub open spec fn sum_before<M: Belief>(edges: Seq<usize>, store: Store<M>, i: int) -> M {
    total(outgoing(edges, store).take(i))
}

/// The sum of the messages that go out over `edges` from the `i`-th on,
/// taken from the last one backwards.
pub open spec fn sum_from<M: Belief>(edges: Seq<usize>, store: Store<M>, i: int) -> M {
    total_from_back(outgoing(edges, store).skip(i))
}

proof fn lemma_prefix_pass<M: Belief>(inputs: Seq<usize>, store: Store<M>, k: nat)
    requires
        k <= inputs.len() <= usize::MAX,
    ensures
        ({
            let after = run(
                seq![Op::Load { dst: Slot::Prefix(0), value: Seed::Zero }] + Seq::new(
                    k,
                    |i: int| extend_prefix(i, inputs[i]),
                ),
                store,
            );
            &&& forall|i: int|
                0 <= i <= k ==> read(after, Slot::Prefix(i as usize)) == #[trigger] sum_before(
                    inputs,
                    store,
                    i,
                )
            &&& forall|s: Slot| !(s is Prefix) ==> read(after, s) == read(store, s)
        }),
    decreases k,
{
    let head = seq![Op::Load { dst: Slot::Prefix(0), value: Seed::Zero }];
    let ops = head + Seq::new(k, |i: int| extend_prefix(i, inputs[i]));
    let sent = outgoing(inputs, store);
    if k == 0 {
        assert(ops =~= head);
        assert(head.drop_last() =~= Seq::<Op>::empty());
        assert(run(head.drop_last(), store) == store);
        assert(sent.take(0) =~= Seq::<M>::empty());
    } else {
        let shorter = head + Seq::new((k - 1) as nat, |i: int| extend_prefix(i, inputs[i]));
        lemma_prefix_pass(inputs, store, (k - 1) as nat);
        assert(ops.drop_last() =~= shorter);
        assert(ops.last() == extend_prefix(k - 1, inputs[k - 1]));
        let mid = run(shorter, store);
        let after = run(ops, store);
        assert(after == apply(ops.last(), mid));
        assert(sent.take(k as int).drop_last() =~= sent.take(k - 1));
        assert(sent.take(k as int).last() == read(store, Slot::Down(inputs[k - 1])));
        assert(read(mid, Slot::Prefix((k - 1) as usize)) == sum_before(inputs, store, k - 1));
        assert(read(after, Slot::Prefix(k as usize)) == sum_before(inputs, store, k as int));
        assert forall|i: int| 0 <= i <= k implies read(after, Slot::Prefix(i as usize))
            == #[trigger] sum_before(inputs, store, i) by {
            if i < k {
                assert(read(mid, Slot::Prefix(i as usize)) == sum_before(inputs, store, i));
            }
        }
    }
}

proof fn lemma_suffix_pass<M: Belief>(inputs: Seq<usize>, store: Store<M>, k: nat)
    requires
        k <= inputs.len() <= usize::MAX,
    ensures
        ({
            let n = inputs.len();
            let after = run(
                seq![Op::Load { dst: Slot::Suffix(n as usize), value: Seed::Zero }] + Seq::new(
                    k,
                    |j: int| extend_suffix(n - 1 - j, inputs[n - 1 - j]),
                ),
                store,
            );
            &&& forall|i: int|
                n - k <= i <= n ==> read(after, Slot::Suffix(i as usize)) == #[trigger] sum_from(
                    inputs,
                    store,
                    i,
                )
            &&& forall|s: Slot| !(s is Suffix) ==> read(after, s) == read(store, s)
        }),
    decreases k,
{
    let n = inputs.len();
    let head = seq![Op::Load { dst: Slot::Suffix(n as usize), value: Seed::Zero }];
    let ops = head + Seq::new(k, |j: int| extend_suffix(n - 1 - j, inputs[n - 1 - j]));
    let sent = outgoing(inputs, store);
    if k == 0 {
        assert(ops =~= head);
        assert(head.drop_last() =~= Seq::<Op>::empty());
        assert(run(head.drop_last(), store) == store);
        assert(sent.skip(n as int) =~= Seq::<M>::empty());
    } else {
        let shorter = head + Seq::new(
            (k - 1) as nat,
            |j: int| extend_suffix(n - 1 - j, inputs[n - 1 - j]),
        );
        lemma_suffix_pass(inputs, store, (k - 1) as nat);
        assert(ops.drop_last() =~= shorter);
        assert(ops.last() == extend_suffix(n - k, inputs[n - k]));
        let mid = run(shorter, store);
        let after = run(ops, store);
        assert(after == apply(ops.last(), mid));
        assert(sent.skip(n - k).drop_first() =~= sent.skip(n - k + 1));
        assert(sent.skip(n - k).first() == read(store, Slot::Down(inputs[n - k])));
        assert(read(mid, Slot::Suffix((n - k + 1) as usize)) == sum_from(inputs, store, n - k + 1));
        assert(read(after, Slot::Suffix((n - k) as usize)) == sum_from(inputs, store, n - k));
        assert forall|i: int| n - k <= i <= n implies read(after, Slot::Suffix(i as usize))
            == #[trigger] sum_from(inputs, store, i) by {
            if i > n - k {
                assert(read(mid, Slot::Suffix(i as usize)) == sum_from(inputs, store, i));
            }
        }
    }
}

/// What input `i` is told when the slots hold the running sums.
pub open spec fn share<M: Belief>(out_edge: usize, store: Store<M>, i: int) -> M {
    read(store, Slot::Down(out_edge)).diff(read(store, Slot::Prefix(i as usize))).diff(
        read(store, Slot::Suffix((i + 1) as usize)),
    )
}

proof fn lemma_share_pass<M: Belief>(out_edge: usize, inputs: Seq<usize>, store: Store<M>, m: nat)
    requires
        m <= inputs.len() <= usize::MAX,
        inputs.no_duplicates(),
    ensures
        ({
            let after = run(
                Seq::new(
                    2 * m,
                    |k: int|
                        if k % 2 == 0 {
                            strip_prefix(k / 2, out_edge)
                        } else {
                            strip_suffix(k / 2, inputs[k / 2])
                        },
                ),
                store,
            );
            &&& forall|i: int|
                0 <= i < m ==> read(after, Slot::Up(#[trigger] inputs[i])) == share(
                    out_edge,
                    store,
                    i,
                )
            &&& forall|s: Slot|
                s != Slot::Acc && !(exists|i: int| 0 <= i < m && s == Slot::Up(#[trigger] inputs[i]))
                    ==> read(after, s) == read(store, s)
        }),
    decreases m,
{
    let step = |k: int|
        if k % 2 == 0 {
            strip_prefix(k / 2, out_edge)
        } else {
            strip_suffix(k / 2, inputs[k / 2])
        };
    let ops = Seq::new(2 * m, step);
    if m > 0 {
        let shorter = Seq::new(2 * ((m - 1) as nat), step);
        lemma_share_pass(out_edge, inputs, store, (m - 1) as nat);
        assert(ops.drop_last().drop_last() =~= shorter);
        assert(ops.last() == strip_suffix(m - 1, inputs[m - 1]));
        assert(ops.drop_last().last() == strip_prefix(m - 1, out_edge));
        let mid = run(shorter, store);
        let half = run(ops.drop_last(), store);
        let after = run(ops, store);
        assert(half == apply(ops.drop_last().last(), mid));
        assert(after == apply(ops.last(), half));
        assert(read(half, Slot::Acc) == read(store, Slot::Down(out_edge)).diff(
            read(store, Slot::Prefix((m - 1) as usize)),
        ));
        assert(read(after, Slot::Up(inputs[m - 1])) == share(out_edge, store, m - 1));
        assert forall|i: int| 0 <= i < m implies read(after, Slot::Up(#[trigger] inputs[i]))
            == share(out_edge, store, i) by {
            if i < m - 1 {
                assert(inputs[i] != inputs[m - 1]);
                assert(read(mid, Slot::Up(inputs[i])) == share(out_edge, store, i));
            }
        }
        assert forall|s: Slot|
            s != Slot::Acc && !(exists|i: int|
                0 <= i < m && s == Slot::Up(#[trigger] inputs[i])) implies read(after, s) == read(
            store,
            s,
        ) by {
            assert(s != Slot::Up(inputs[m - 1]));
            assert(!(exists|i: int| 0 <= i < m - 1 && s == Slot::Up(#[trigger] inputs[i])));
        }
    }
}

/// What refreshing a sum node does, in every message algebra, when its edges
/// are all different: the output variable is told the sum of what the inputs
/// sent; each input is told what the output variable sent, less the inputs
/// before it, less the inputs behind it; nothing that was sent is touched,
/// nor any slot of another edge.
pub proof fn lemma_sum_node<M: Belief>(out_edge: usize, inputs: Seq<usize>, store: Store<M>)
    requires
        inputs.len() <= usize::MAX,
        inputs.no_duplicates(),
        !inputs.contains(out_edge),
    ensures
        ({
            let after = run(sum_program(out_edge, inputs), store);
            &&& read(after, Slot::Up(out_edge)) == total(outgoing(inputs, store))
            &&& forall|i: int|
                0 <= i < inputs.len() ==> read(after, Slot::Up(#[trigger] inputs[i])) == read(
                    store,
                    Slot::Down(out_edge),
                ).diff(sum_before(inputs, store, i)).diff(sum_from(inputs, store, i + 1))
            &&& forall|s: Slot|
                !is_temporary(s) && s != Slot::Up(out_edge) && !(exists|i: int|
                    0 <= i < inputs.len() && s == Slot::Up(#[trigger] inputs[i])) ==> read(after, s)
                    == read(store, s)
        }),
{
    let n = inputs.len();
    let copy = seq![Op::Copy { dst: Slot::Up(out_edge), src: Slot::Prefix(n as usize) }];
    let s1 = run(prefix_pass(inputs), store);
    let s2 = run(suffix_pass(inputs), s1);
    let s3 = run(copy, s2);
    let s4 = run(share_pass(out_edge, inputs), s3);
    lemma_prefix_pass(inputs, store, n);
    lemma_suffix_pass(inputs, s1, n);
    lemma_share_pass(out_edge, inputs, s3, n);
    lemma_run_concat(prefix_pass(inputs), suffix_pass(inputs), store);
    lemma_run_concat(prefix_pass(inputs) + suffix_pass(inputs), copy, store);
    lemma_run_concat(
        prefix_pass(inputs) + suffix_pass(inputs) + copy,
        share_pass(out_edge, inputs),
        store,
    );
    assert(run(sum_program(out_edge, inputs), store) == s4);
    assert(copy.drop_last() =~= Seq::<Op>::empty());
    assert(run(copy.drop_last(), s2) == s2);
    assert(s3 == apply(copy.last(), s2));
    assert(outgoing(inputs, s1) =~= outgoing(inputs, store));
    assert(outgoing(inputs, store).take(n as int) =~= outgoing(inputs, store));
    assert(read(s1, Slot::Prefix(n as usize)) == sum_before(inputs, store, n as int));
    assert(read(s3, Slot::Up(out_edge)) == total(outgoing(inputs, store)));
    assert(!(exists|i: int| 0 <= i < n && Slot::Up(out_edge) == Slot::Up(#[trigger] inputs[i])));
    assert forall|i: int| 0 <= i < n implies read(s4, Slot::Up(#[trigger] inputs[i])) == read(
        store,
        Slot::Down(out_edge),
    ).diff(sum_before(inputs, store, i)).diff(sum_from(inputs, store, i + 1)) by {
        assert(read(s1, Slot::Prefix(i as usize)) == sum_before(inputs, store, i));
        assert(read(s2, Slot::Suffix((i + 1) as usize)) == sum_from(inputs, s1, i + 1));
        assert(read(s4, Slot::Up(inputs[i])) == share(out_edge, s3, i));
    }
}

} // verus!
