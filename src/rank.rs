//! Choosing the `limit` smallest of a set of distinct ranking keys.
use vstd::prelude::*;

verus! {

/// A ranking key; keys compare lexicographically.
pub type Key = (i128, i128, i128);

/// Strict lexicographic order on keys.
pub open spec fn key_lt(a: Key, b: Key) -> bool {
    a.0 < b.0 || (a.0 == b.0 && (a.1 < b.1 || (a.1 == b.1 && a.2 < b.2)))
}

pub open spec fn keys_distinct(k: Seq<Key>) -> bool {
    forall|x: int, y: int| 0 <= x < k.len() && 0 <= y < k.len() && x != y ==> k[x] != k[y]
}

pub open spec fn min_len(a: int, b: int) -> int {
    if a < b { a } else { b }
}

/// `r` lists, smallest first, the positions of the `limit` smallest keys (all
/// of them when there are fewer).
pub open spec fn is_selection(keys: Seq<Key>, limit: int, r: Seq<usize>) -> bool {
    &&& r.len() == min_len(limit, keys.len() as int)
    &&& forall|a: int| 0 <= a < r.len() ==> (r[a] as int) < keys.len()
    &&& forall|a: int, b: int| 0 <= a < b < r.len() ==> key_lt(keys[r[a] as int], keys[r[b] as int])
    &&& forall|x: int, a: int| 0 <= x < keys.len() && !r.contains(x as usize) && 0 <= a < r.len() ==>
        #[trigger] key_lt(keys[r[a] as int], keys[x])
}

fn lt(a: &Key, b: &Key) -> (r: bool)
    ensures
        r == key_lt(*a, *b),
{
    a.0 < b.0 || (a.0 == b.0 && (a.1 < b.1 || (a.1 == b.1 && a.2 < b.2)))
}

/// The positions of the `limit` smallest keys, smallest first.
pub fn select_smallest(keys: &Vec<Key>, limit: usize) -> (r: Vec<usize>)
    requires
        keys_distinct(keys@),
    ensures
        is_selection(keys@, limit as int, r@),
{
    let mut buf: Vec<usize> = Vec::new();
    let mut i: usize = 0;
    while i < keys.len()
        invariant
            i <= keys.len(),
            keys_distinct(keys@),
            buf@.len() == min_len(limit as int, i as int),
            buf@.len() < limit ==> forall|x: usize| x < i ==> #[trigger] buf@.contains(x),
            forall|a: int| 0 <= a < buf@.len() ==> (buf@[a] as int) < i,
            forall|a: int, b: int| 0 <= a < b < buf@.len() ==> key_lt(keys@[buf@[a] as int], keys@[buf@[b] as int]),
            forall|x: int, a: int| 0 <= x < i && !buf@.contains(x as usize) && 0 <= a < buf@.len() ==>
                #[trigger] key_lt(keys@[buf@[a] as int], keys@[x]),
        decreases keys.len() - i,
    {
        let ki = keys[i];
        let mut p: usize = 0;
        while p < buf.len() && !lt(&ki, &keys[buf[p]])
            invariant
                p <= buf@.len(),
                forall|a: int| 0 <= a < buf@.len() ==> (buf@[a] as int) < i,
                forall|a: int| 0 <= a < p ==> key_lt(keys@[buf@[a] as int], ki),
                keys_distinct(keys@),
                i < keys@.len(),
                ki == keys@[i as int],
            decreases buf@.len() - p,
        {
            assert(keys@[buf@[p as int] as int] != ki);
            p += 1;
        }
        let ghost old_buf = buf@;
        proof {
            if p < old_buf.len() {
                assert forall|a: int| p <= a < old_buf.len() implies key_lt(ki, keys@[old_buf[a] as int]) by {
                    if a > p {
                        assert(key_lt(keys@[old_buf[p as int] as int], keys@[old_buf[a] as int]));
                    }
                }
            }
        }
        if p < limit {
            buf.insert(p, i);
            let ghost ins = buf@;
            assert(ins == old_buf.insert(p as int, i));
            assert forall|a: int, b: int| 0 <= a < b < ins.len() implies key_lt(keys@[ins[a] as int], keys@[ins[b] as int]) by {
                if b < p {
                    assert(ins[a] == old_buf[a] && ins[b] == old_buf[b]);
                } else if b == p {
                    assert(ins[a] == old_buf[a] && ins[b] == i);
                } else if a < p {
                    assert(ins[a] == old_buf[a] && ins[b] == old_buf[b - 1]);
                } else if a == p {
                    assert(ins[a] == i && ins[b] == old_buf[b - 1]);
                } else {
                    assert(ins[a] == old_buf[a - 1] && ins[b] == old_buf[b - 1]);
                }
            }
            assert forall|x: usize| #[trigger] old_buf.contains(x) implies ins.contains(x) by {
                let j = choose|j: int| 0 <= j < old_buf.len() && old_buf[j] == x;
                if j < p {
                    assert(ins[j] == x);
                } else {
                    assert(ins[j + 1] == x);
                }
            }
            assert(ins[p as int] == i);
            if buf.len() > limit {
                buf.pop();
                assert(buf@ =~= ins.drop_last());
                assert(old_buf.len() == limit);
                assert forall|x: int, a: int| 0 <= x < i + 1 && !buf@.contains(x as usize) && 0 <= a < buf@.len() implies
                    #[trigger] key_lt(keys@[buf@[a] as int], keys@[x]) by {
                    assert(buf@[a] == ins[a]);
                    if x as usize == ins.last() {
                        assert(key_lt(keys@[ins[a] as int], keys@[ins[ins.len() - 1] as int]));
                    } else {
                        assert(!ins.contains(x as usize)) by {
                            if ins.contains(x as usize) {
                                let j = choose|j: int| 0 <= j < ins.len() && ins[j] == x as usize;
                                if j < buf@.len() {
                                    assert(buf@[j] == x as usize);
                                }
                            }
                        }
                        assert(x != i);
                        assert(!old_buf.contains(x as usize));
                        if ins[a] == i {
                            assert(key_lt(keys@[old_buf[p as int] as int], keys@[x]));
                        } else {
                            assert(a != p);
                            if a < p {
                                assert(ins[a] == old_buf[a]);
                            } else {
                                assert(ins[a] == old_buf[a - 1]);
                            }
                        }
                    }
                }
            } else {
                assert(old_buf.len() < limit);
                assert forall|x: usize| x < i + 1 implies #[trigger] buf@.contains(x) by {
                    if x < i {
                        assert(old_buf.contains(x));
                    }
                }
            }
        } else {
            assert(!buf@.contains(i));
            assert(old_buf.len() == limit);
        }
        i += 1;
    }
    buf
}


proof fn lemma_selection_agree(keys: Seq<Key>, n: int, m: int, r1: Seq<usize>, r2: Seq<usize>, i: int)
    requires
        keys_distinct(keys),
        0 <= n <= m,
        is_selection(keys, n, r1),
        is_selection(keys, m, r2),
        0 <= i < r1.len(),
    ensures
        i < r2.len(),
        r1[i] == r2[i],
    decreases i,
{
    assert forall|j: int| 0 <= j < i implies r1[j] == r2[j] by {
        lemma_selection_agree(keys, n, m, r1, r2, j);
    }
    let a = r1[i];
    let b = r2[i];
    if a != b {
        assert(keys[a as int] != keys[b as int]);
        if key_lt(keys[a as int], keys[b as int]) {
            if r2.contains(a) {
                let q = choose|q: int| 0 <= q < r2.len() && r2[q] == a;
                if q < i {
                    assert(r1[q] == a);
                    assert(key_lt(keys[r1[q] as int], keys[r1[i] as int]));
                } else {
                    assert(key_lt(keys[r2[i] as int], keys[r2[q] as int]));
                }
            } else {
                assert(key_lt(keys[r2[i] as int], keys[a as int]));
            }
        } else {
            assert(key_lt(keys[b as int], keys[a as int]));
            if r1.contains(b) {
                let q = choose|q: int| 0 <= q < r1.len() && r1[q] == b;
                if q < i {
                    assert(r2[q] == b);
                    assert(key_lt(keys[r2[q] as int], keys[r2[i] as int]));
                } else {
                    assert(key_lt(keys[r1[i] as int], keys[r1[q] as int]));
                }
            } else {
                assert(key_lt(keys[r1[i] as int], keys[b as int]));
            }
        }
    }
}

/// Of two selections from the same distinct keys, the one with the smaller
/// limit is a prefix of the other; with equal limits they are equal.
pub proof fn lemma_selection_prefix(keys: Seq<Key>, n: int, m: int, r1: Seq<usize>, r2: Seq<usize>)
    requires
        keys_distinct(keys),
        0 <= n <= m,
        is_selection(keys, n, r1),
        is_selection(keys, m, r2),
    ensures
        r1.len() <= r2.len(),
        r1 == r2.take(r1.len() as int),
{
    assert forall|i: int| 0 <= i < r1.len() implies r1[i] == r2[i] by {
        lemma_selection_agree(keys, n, m, r1, r2, i);
    }
    assert(r1 =~= r2.take(r1.len() as int));
}

} // verus!
