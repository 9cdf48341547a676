use vstd::prelude::*;
use crate::sequence::Sequence;

verus! {

/// All entries of all trees, tree after tree.
pub open spec fn flat(results: Seq<Vec<(String, Sequence)>>) -> Seq<(String, Sequence)>
    decreases results.len(),
{
    if results.len() == 0 {
        Seq::empty()
    } else {
        flat(results.drop_last()) + results.last()@
    }
}

/// The symbols of the entries of `h` with id `k`, concatenated in order.
pub open spec fn joined(h: Seq<(String, Sequence)>, k: Seq<char>) -> Seq<u8>
    decreases h.len(),
{
    if h.len() == 0 {
        Seq::empty()
    } else {
        joined(h.drop_last(), k) + if h.last().0@ == k { h.last().1.symbols() } else { Seq::empty() }
    }
}

/// `k` is the id of some entry of `h`.
pub open spec fn has_id(h: Seq<(String, Sequence)>, k: Seq<char>) -> bool {
    exists|i: int| 0 <= i < h.len() && (#[trigger] h[i]).0@ == k
}

/// The joined sequence of an id over a concatenation of entry lists is the
/// joined sequence over the first list followed by that over the second.
pub proof fn lemma_joined_append(a: Seq<(String, Sequence)>, b: Seq<(String, Sequence)>, k: Seq<char>)
    ensures
        joined(a + b, k) == joined(a, k) + joined(b, k),
    decreases b.len(),
{
    if b.len() == 0 {
        assert(a + b =~= a);
        assert(joined(a, k) + joined(b, k) =~= joined(a, k));
    } else {
        assert((a + b).drop_last() =~= a + b.drop_last());
        lemma_joined_append(a, b.drop_last(), k);
        assert(joined(a, k) + joined(b, k) =~= joined(a, k) + joined(b.drop_last(), k) + if b.last().0@ == k { b.last().1.symbols() } else { Seq::empty() });
    }
}

/// Assembly keeps partition order: with one more tree, each taxon's assembled
/// sequence is what it was, followed by that taxon's sequence in the new tree.
pub proof fn lemma_assembly_in_partition_order(results: Seq<Vec<(String, Sequence)>>, h: Vec<(String, Sequence)>, k: Seq<char>)
    ensures
        joined(flat(results.push(h)), k) == joined(flat(results), k) + joined(h@, k),
{
    assert(results.push(h).drop_last() =~= results);
    lemma_joined_append(flat(results), h@, k);
}

fn append_symbols(acc: &mut Vec<u8>, s: &Sequence)
    ensures
        final(acc)@ == old(acc)@ + s.symbols(),
{
    let ghost start = acc@;
    let mut i: usize = 0;
    while i < s.len()
        invariant
            i <= s.symbols().len(),
            acc@ == start + s.symbols().take(i as int),
            start == old(acc)@,
        decreases s.symbols().len() - i,
    {
        acc.push(s.get(i));
        i = i + 1;
        assert(acc@ =~= start + s.symbols().take(i as int));
    }
    assert(s.symbols().take(i as int) =~= s.symbols());
}

/// Per-taxon sequences of several trees: for each id, in order of first
/// appearance, the symbols of its entries concatenated tree after tree.
pub fn assemble(results: &Vec<Vec<(String, Sequence)>>) -> (r: Vec<(String, Vec<u8>)>)
    ensures
        forall|j: int, l: int| 0 <= j < l < r.len() ==> (#[trigger] r[j]).0@ != (#[trigger] r[l]).0@,
        forall|j: int| 0 <= j < r.len() ==> has_id(flat(results@), (#[trigger] r[j]).0@)
            && r[j].1@ == joined(flat(results@), r[j].0@),
        forall|k: Seq<char>| #[trigger] has_id(flat(results@), k) ==> exists|j: int| 0 <= j < r.len() && (#[trigger] r[j]).0@ == k,
{
    let mut r: Vec<(String, Vec<u8>)> = Vec::new();
    let mut t: usize = 0;
    assert(results@.take(0) =~= Seq::<Vec<(String, Sequence)>>::empty());
    while t < results.len()
        invariant
            t <= results.len(),
            forall|j: int, l: int| 0 <= j < l < r.len() ==> (#[trigger] r[j]).0@ != (#[trigger] r[l]).0@,
            forall|j: int| 0 <= j < r.len() ==> has_id(flat(results@.take(t as int)), (#[trigger] r[j]).0@)
                && r[j].1@ == joined(flat(results@.take(t as int)), r[j].0@),
            forall|k: Seq<char>| #[trigger] has_id(flat(results@.take(t as int)), k) ==> exists|j: int| 0 <= j < r.len() && (#[trigger] r[j]).0@ == k,
        decreases results.len() - t,
    {
        let tree = &results[t];
        let ghost before = flat(results@.take(t as int));
        let mut e: usize = 0;
        while e < tree.len()
            invariant
                t < results.len(),
                tree == results[t as int],
                e <= tree.len(),
                forall|j: int, l: int| 0 <= j < l < r.len() ==> (#[trigger] r[j]).0@ != (#[trigger] r[l]).0@,
                forall|j: int| 0 <= j < r.len() ==> has_id(before + tree@.take(e as int), (#[trigger] r[j]).0@)
                    && r[j].1@ == joined(before + tree@.take(e as int), r[j].0@),
                forall|k: Seq<char>| #[trigger] has_id(before + tree@.take(e as int), k) ==> exists|j: int| 0 <= j < r.len() && (#[trigger] r[j]).0@ == k,
            decreases tree.len() - e,
        {
            let ghost done = before + tree@.take(e as int);
            let ghost next = before + tree@.take(e as int + 1);
            assert(next =~= done.push(tree@[e as int]));
            assert(next.drop_last() =~= done);
            let key = &tree[e].0;
            let mut j: usize = 0;
            while j < r.len() && r[j].0 != *key
                invariant
                    j <= r.len(),
                    forall|q: int| 0 <= q < j ==> (#[trigger] r[q]).0@ != key@,
                decreases r.len() - j,
            {
                j = j + 1;
            }
            let ghost rb = r@;
            if j < r.len() {
                let mut acc = Vec::new();
                std::mem::swap(&mut acc, &mut r[j].1);
                append_symbols(&mut acc, &tree[e].1);
                r[j].1 = acc;
                assert forall|q: int| 0 <= q < r.len() implies has_id(next, (#[trigger] r[q]).0@)
                    && r[q].1@ == joined(next, r[q].0@) by {
                    let w = choose|i: int| 0 <= i < done.len() && (#[trigger] done[i]).0@ == rb[q].0@;
                    assert(next[w] == done[w]);
                }
            } else {
                let mut acc = Vec::new();
                append_symbols(&mut acc, &tree[e].1);
                assert(joined(done, key@) =~= Seq::<u8>::empty()) by {
                    lemma_joined_absent(done, key@, rb);
                }
                r.push((key.clone(), acc));
                assert forall|q: int| 0 <= q < r.len() implies has_id(next, (#[trigger] r[q]).0@)
                    && r[q].1@ == joined(next, r[q].0@) by {
                    if q < rb.len() {
                        let w = choose|i: int| 0 <= i < done.len() && (#[trigger] done[i]).0@ == rb[q].0@;
                        assert(next[w] == done[w]);
                    } else {
                        assert(next[done.len() as int] == tree@[e as int]);
                    }
                }
            }
            assert forall|k: Seq<char>| #[trigger] has_id(next, k) implies exists|q: int| 0 <= q < r.len() && (#[trigger] r[q]).0@ == k by {
                let w = choose|i: int| 0 <= i < next.len() && (#[trigger] next[i]).0@ == k;
                if w < done.len() {
                    assert(done[w] == next[w]);
                    assert(has_id(done, k));
                    let q = choose|q: int| 0 <= q < rb.len() && (#[trigger] rb[q]).0@ == k;
                    assert(r[q].0@ == k);
                } else {
                    assert(r[j as int].0@ == k);
                }
            }
            e = e + 1;
        }
        assert(before + tree@.take(e as int) =~= flat(results@.take(t as int + 1))) by {
            assert(results@.take(t as int + 1).drop_last() =~= results@.take(t as int));
            assert(tree@.take(e as int) =~= tree@);
        }
        t = t + 1;
    }
    assert(results@.take(t as int) =~= results@);
    r
}

proof fn lemma_joined_absent(h: Seq<(String, Sequence)>, k: Seq<char>, r: Seq<(String, Vec<u8>)>)
    requires
        forall|k2: Seq<char>| #[trigger] has_id(h, k2) ==> exists|j: int| 0 <= j < r.len() && (#[trigger] r[j]).0@ == k2,
        forall|q: int| 0 <= q < r.len() ==> (#[trigger] r[q]).0@ != k,
    ensures
        joined(h, k) == Seq::<u8>::empty(),
    decreases h.len(),
{
    if h.len() > 0 {
        if h.last().0@ == k {
            assert(has_id(h, k));
        }
        assert forall|k2: Seq<char>| #[trigger] has_id(h.drop_last(), k2) implies exists|j: int| 0 <= j < r.len() && (#[trigger] r[j]).0@ == k2 by {
            let w = choose|i: int| 0 <= i < h.drop_last().len() && (#[trigger] h.drop_last()[i]).0@ == k2;
            assert(h[w] == h.drop_last()[w]);
            assert(has_id(h, k2));
        }
        lemma_joined_absent(h.drop_last(), k, r);
    }
}

} // verus!
