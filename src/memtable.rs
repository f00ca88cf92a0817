use vstd::prelude::*;

use crate::lex::{compare_bytes, lemma_lex_facts, lemma_lex_transitive, lex_lt};
use crate::sstable::{lemma_lookup_unique, lookup, records_of, sorted_records, Record};

verus! {

/// Two sorted record sequences that hold the same records under `k` give the same lookup.
pub proof fn lemma_same_lookup(
    a: Seq<Record>,
    b: Seq<Record>,
    k: Seq<u8>,
    f: spec_fn(int) -> int,
    g: spec_fn(int) -> int,
)
    requires
        sorted_records(a),
        sorted_records(b),
        forall|j: int|
            0 <= j < a.len() && a[j].0 == k ==> 0 <= #[trigger] f(j) < b.len() && b[f(j)] == a[j],
        forall|j: int|
            0 <= j < b.len() && b[j].0 == k ==> 0 <= #[trigger] g(j) < a.len() && a[g(j)] == b[j],
    ensures
        lookup(a, k) == lookup(b, k),
{
    if exists|j: int| 0 <= j < a.len() && #[trigger] a[j].0 == k {
        let j = choose|j: int| 0 <= j < a.len() && #[trigger] a[j].0 == k;
        let j2 = f(j);
        lemma_lookup_unique(a, j);
        lemma_lookup_unique(b, j2);
    } else if exists|j: int| 0 <= j < b.len() && #[trigger] b[j].0 == k {
        let j = choose|j: int| 0 <= j < b.len() && #[trigger] b[j].0 == k;
        let j2 = g(j);
        assert(a[j2].0 == k);
    }
}

/// Looking up in a sorted prefix one record longer.
pub proof fn lemma_lookup_extend(e: Seq<Record>, r: int, k: Seq<u8>)
    requires
        sorted_records(e),
        0 <= r < e.len(),
    ensures
        lookup(e.subrange(0, r + 1), k) == if k == e[r].0 {
            Some(e[r].1)
        } else {
            lookup(e.subrange(0, r), k)
        },
{
    let a = e.subrange(0, r + 1);
    let b = e.subrange(0, r);
    assert(sorted_records(a));
    assert(sorted_records(b));
    if k == e[r].0 {
        lemma_lookup_unique(a, r);
    } else {
        lemma_same_lookup(a, b, k, |j: int| j, |j: int| j);
    }
}

/// Stores `value` under `key` in a vector of records sorted by key, replacing the record of
/// that key if there is one.
pub fn put_sorted(map: &mut Vec<(Vec<u8>, Vec<u8>)>, key: Vec<u8>, value: Vec<u8>)
    requires
        sorted_records(records_of(old(map)@)),
    ensures
        sorted_records(records_of(final(map)@)),
        forall|k: Seq<u8>|
            #[trigger] lookup(records_of(final(map)@), k) == if k == key@ {
                Some(value@)
            } else {
                lookup(records_of(old(map)@), k)
            },
        final(map)@.len() == old(map)@.len() + if lookup(records_of(old(map)@), key@) is Some {
            0int
        } else {
            1int
        },
{
    let ghost a = records_of(map@);
    let ghost kv: Record = (key@, value@);
    let mut i: usize = 0;
    while i < map.len() && compare_bytes(map[i].0.as_slice(), key.as_slice()) < 0
        invariant
            a == records_of(map@),
            map@ == old(map)@,
            i <= map@.len(),
            forall|x: int| 0 <= x < i ==> lex_lt(#[trigger] a[x].0, key@),
        decreases map@.len() - i,
    {
        i = i + 1;
    }
    let replace = i < map.len() && compare_bytes(map[i].0.as_slice(), key.as_slice()) == 0;
    if replace {
        map.set(i, (key, value));
        proof {
            let b = records_of(map@);
            assert(b =~= a.update(i as int, kv));
            assert(sorted_records(b)) by {
                assert forall|x: int, y: int| 0 <= x < y < b.len() implies lex_lt(
                    #[trigger] b[x].0,
                    #[trigger] b[y].0,
                ) by {
                    assert(lex_lt(a[x].0, a[y].0));
                }
            }
            assert(lookup(a, kv.0) is Some) by {
                assert(0 <= i < a.len() && a[i as int].0 == kv.0);
            }
            assert forall|k: Seq<u8>| #[trigger] lookup(b, k) == if k == kv.0 {
                Some(kv.1)
            } else {
                lookup(a, k)
            } by {
                if k == kv.0 {
                    lemma_lookup_unique(b, i as int);
                } else {
                    lemma_same_lookup(a, b, k, |j: int| j, |j: int| j);
                }
            }
        }
    } else {
        map.insert(i, (key, value));
        proof {
            let b = records_of(map@);
            assert(b =~= a.insert(i as int, kv));
            // Every key from position `i` on sorts after `key`.
            assert forall|y: int| i <= y < a.len() implies lex_lt(kv.0, #[trigger] a[y].0) by {
                lemma_lex_facts(a[i as int].0, kv.0);
                if y > i {
                    assert(lex_lt(a[i as int].0, a[y].0));
                    lemma_lex_transitive(kv.0, a[i as int].0, a[y].0);
                }
            }
            assert(sorted_records(b)) by {
                assert forall|x: int, y: int| 0 <= x < y < b.len() implies lex_lt(
                    #[trigger] b[x].0,
                    #[trigger] b[y].0,
                ) by {
                    if y < i {
                        assert(lex_lt(a[x].0, a[y].0));
                    } else if y == i {
                        assert(lex_lt(a[x].0, kv.0));
                    } else if x < i {
                        assert(lex_lt(a[x].0, kv.0));
                        assert(lex_lt(kv.0, a[y - 1].0));
                        lemma_lex_transitive(a[x].0, kv.0, a[y - 1].0);
                    } else if x == i {
                        assert(lex_lt(kv.0, a[y - 1].0));
                    } else {
                        assert(lex_lt(a[x - 1].0, a[y - 1].0));
                    }
                }
            }
            assert(lookup(a, kv.0) is None) by {
                if exists|j: int| 0 <= j < a.len() && #[trigger] a[j].0 == kv.0 {
                    let j = choose|j: int| 0 <= j < a.len() && #[trigger] a[j].0 == kv.0;
                    crate::lex::lemma_lex_irreflexive(kv.0);
                    if j < i {
                        assert(lex_lt(a[j].0, kv.0));
                    } else {
                        assert(lex_lt(kv.0, a[j].0));
                    }
                }
            }
            assert forall|k: Seq<u8>| #[trigger] lookup(b, k) == if k == kv.0 {
                Some(kv.1)
            } else {
                lookup(a, k)
            } by {
                if k == kv.0 {
                    lemma_lookup_unique(b, i as int);
                } else {
                    let ii = i as int;
                    lemma_same_lookup(
                        a,
                        b,
                        k,
                        |j: int|
                            if j < ii {
                                j
                            } else {
                                j + 1
                            },
                        |j: int|
                            if j < ii {
                                j
                            } else {
                                j - 1
                            },
                    );
                }
            }
        }
    }
}

/// The value stored under `key` in a vector of records sorted by key.
pub fn get_sorted(map: &Vec<(Vec<u8>, Vec<u8>)>, key: &Vec<u8>) -> (r: Option<Vec<u8>>)
    requires
        sorted_records(records_of(map@)),
    ensures
        r is Some <==> lookup(records_of(map@), key@) is Some,
        r is Some ==> r.unwrap()@ == lookup(records_of(map@), key@).unwrap(),
{
    let ghost a = records_of(map@);
    let mut i: usize = 0;
    while i < map.len()
        invariant
            a == records_of(map@),
            sorted_records(a),
            i <= map@.len(),
            forall|x: int| 0 <= x < i ==> #[trigger] a[x].0 != key@,
        decreases map@.len() - i,
    {
        if compare_bytes(map[i].0.as_slice(), key.as_slice()) == 0 {
            proof {
                lemma_lookup_unique(a, i as int);
            }
            let v = map[i].1.clone();
            proof {
                assert(v@ =~= map@[i as int].1@);
            }
            return Some(v);
        }
        i = i + 1;
    }
    None
}

} // verus!
