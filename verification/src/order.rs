//! The order in which lists are given: by a time, then by id text, and the
//! first few rows in that order.
use vstd::prelude::*;

verus! {

/// Text order: character by character, by code point; a proper prefix
/// comes first.
pub open spec fn text_less(a: Seq<char>, b: Seq<char>) -> bool
    decreases a.len(),
{
    if a.len() == 0 {
        b.len() > 0
    } else if b.len() == 0 {
        false
    } else if a[0] != b[0] {
        (a[0] as int) < (b[0] as int)
    } else {
        text_less(a.drop_first(), b.drop_first())
    }
}

/// A sort key: a time, and the id that breaks ties.
pub type SortKey = (i64, Seq<char>);

/// Key order: by time, then by id text.
pub open spec fn key_less(a: SortKey, b: SortKey) -> bool {
    a.0 < b.0 || (a.0 == b.0 && text_less(a.1, b.1))
}

/// `a` comes before `b`: the larger key first when `newest_first`, the
/// smaller key first otherwise.
pub open spec fn precedes(newest_first: bool, a: SortKey, b: SortKey) -> bool {
    if newest_first {
        key_less(b, a)
    } else {
        key_less(a, b)
    }
}

/// No text comes before itself.
pub proof fn lemma_text_less_irreflexive(a: Seq<char>)
    ensures
        !text_less(a, a),
    decreases a.len(),
{
    if a.len() > 0 {
        lemma_text_less_irreflexive(a.drop_first());
    }
}

/// Text order is transitive.
pub proof fn lemma_text_less_transitive(a: Seq<char>, b: Seq<char>, c: Seq<char>)
    requires
        text_less(a, b),
        text_less(b, c),
    ensures
        text_less(a, c),
    decreases a.len(),
{
    if a.len() > 0 && b.len() > 0 && c.len() > 0 && a[0] == b[0] && b[0] == c[0] {
        lemma_text_less_transitive(a.drop_first(), b.drop_first(), c.drop_first());
    }
}

/// Of two different texts, one comes first.
pub proof fn lemma_text_less_total(a: Seq<char>, b: Seq<char>)
    requires
        a != b,
    ensures
        text_less(a, b) || text_less(b, a),
    decreases a.len(),
{
    if a.len() > 0 && b.len() > 0 && a[0] == b[0] {
        if a.drop_first() == b.drop_first() {
            assert(a == seq![a[0]] + a.drop_first());
            assert(b == seq![b[0]] + b.drop_first());
        }
        lemma_text_less_total(a.drop_first(), b.drop_first());
    } else if a.len() > 0 && b.len() > 0 {
        assert((a[0] as int) != (b[0] as int));
    } else if a.len() == 0 && b.len() == 0 {
        assert(a == b);
    }
}

/// No key precedes itself.
pub proof fn lemma_precedes_irreflexive(newest_first: bool, a: SortKey)
    ensures
        !precedes(newest_first, a, a),
{
    lemma_text_less_irreflexive(a.1);
}

/// Key order is transitive.
pub proof fn lemma_precedes_transitive(newest_first: bool, a: SortKey, b: SortKey, c: SortKey)
    requires
        precedes(newest_first, a, b),
        precedes(newest_first, b, c),
    ensures
        precedes(newest_first, a, c),
{
    if newest_first {
        if a.0 == b.0 && b.0 == c.0 {
            lemma_text_less_transitive(c.1, b.1, a.1);
        }
    } else {
        if a.0 == b.0 && b.0 == c.0 {
            lemma_text_less_transitive(a.1, b.1, c.1);
        }
    }
}

/// Of two different keys, one precedes the other.
pub proof fn lemma_precedes_total(newest_first: bool, a: SortKey, b: SortKey)
    requires
        a != b,
    ensures
        precedes(newest_first, a, b) || precedes(newest_first, b, a),
{
    if a.0 == b.0 {
        lemma_text_less_total(a.1, b.1);
    }
}

/// Whether text `a` comes before text `b`.
pub fn text_is_less(a: &Vec<char>, b: &Vec<char>) -> (r: bool)
    ensures
        r == text_less(a@, b@),
{
    let mut i: usize = 0;
    assert(a@.skip(0) == a@);
    assert(b@.skip(0) == b@);
    while i < a.len() && i < b.len()
        invariant
            i <= a.len(),
            i <= b.len(),
            text_less(a@, b@) == text_less(a@.skip(i as int), b@.skip(i as int)),
        decreases a.len() - i,
    {
        if a[i] != b[i] {
            return a[i] < b[i];
        }
        assert(a@.skip(i as int).drop_first() == a@.skip(i + 1));
        assert(b@.skip(i as int).drop_first() == b@.skip(i + 1));
        i += 1;
    }
    a.len() < b.len()
}

/// The plain value of a key.
pub open spec fn key_view(k: (i64, Vec<char>)) -> SortKey {
    (k.0, k.1@)
}

/// The plain values of keys.
pub open spec fn key_views(keys: Seq<(i64, Vec<char>)>) -> Seq<SortKey> {
    keys.map_values(|k: (i64, Vec<char>)| key_view(k))
}

/// Whether key `a` comes before key `b`.
pub fn key_precedes(newest_first: bool, a: &(i64, Vec<char>), b: &(i64, Vec<char>)) -> (r: bool)
    ensures
        r == precedes(newest_first, key_view(*a), key_view(*b)),
{
    if newest_first {
        b.0 < a.0 || (b.0 == a.0 && text_is_less(&b.1, &a.1))
    } else {
        a.0 < b.0 || (a.0 == b.0 && text_is_less(&a.1, &b.1))
    }
}

/// `idx` names the first `limit` keys in order (all of them when there are
/// fewer), each once, in that order.
pub open spec fn ranked(keys: Seq<SortKey>, newest_first: bool, limit: int, idx: Seq<usize>) -> bool {
    &&& idx.len() == if limit < keys.len() {
        limit
    } else {
        keys.len() as int
    }
    &&& forall|i: int| 0 <= i < idx.len() ==> #[trigger] idx[i] < keys.len()
    &&& forall|i: int, j: int|
        0 <= i < j < idx.len() ==> precedes(newest_first, keys[#[trigger] idx[i] as int], keys[#[trigger] idx[j] as int])
    &&& forall|k: int, i: int|
        0 <= k < keys.len() && !idx.contains(k as usize) && 0 <= i < idx.len() ==> precedes(
            newest_first,
            keys[#[trigger] idx[i] as int],
            #[trigger] keys[k],
        )
}

/// `chosen` holds the first `limit` candidates in key order (all of them
/// when there are fewer), in that order: each candidate not chosen comes
/// after every chosen one.
pub open spec fn first_by<T>(
    cands: Seq<T>,
    key: spec_fn(T) -> SortKey,
    newest_first: bool,
    limit: int,
    chosen: Seq<T>,
) -> bool {
    &&& chosen.len() == if limit < cands.len() {
        limit
    } else {
        cands.len() as int
    }
    &&& forall|i: int| 0 <= i < chosen.len() ==> cands.contains(#[trigger] chosen[i])
    &&& forall|i: int, j: int|
        0 <= i < j < chosen.len() ==> precedes(newest_first, key(#[trigger] chosen[i]), key(#[trigger] chosen[j]))
    &&& forall|c: T, i: int|
        cands.contains(c) && !chosen.contains(c) && 0 <= i < chosen.len() ==> precedes(
            newest_first,
            key(#[trigger] chosen[i]),
            #[trigger] key(c),
        )
}

/// When the limit leaves room for every candidate, every candidate is
/// chosen.
pub proof fn lemma_first_by_takes_all<T>(
    cands: Seq<T>,
    key: spec_fn(T) -> SortKey,
    newest_first: bool,
    limit: int,
    chosen: Seq<T>,
    c: T,
)
    requires
        first_by(cands, key, newest_first, limit, chosen),
        cands.len() <= limit,
        cands.contains(c),
    ensures
        chosen.contains(c),
{
    broadcast use vstd::seq_lib::seq_to_set_is_finite;
    if !chosen.contains(c) {
        assert(chosen.no_duplicates()) by {
            assert forall|i: int, j: int|
                0 <= i < chosen.len() && 0 <= j < chosen.len() && i != j implies chosen[i]
                != chosen[j] by {
                lemma_precedes_irreflexive(newest_first, key(chosen[i]));
                if i < j {
                    assert(precedes(newest_first, key(chosen[i]), key(chosen[j])));
                } else {
                    assert(precedes(newest_first, key(chosen[j]), key(chosen[i])));
                }
            }
        }
        chosen.unique_seq_to_set();
        cands.lemma_cardinality_of_set();
        let rest = cands.to_set().remove(c);
        assert(chosen.to_set().subset_of(rest)) by {
            assert forall|x: T| chosen.to_set().contains(x) implies rest.contains(x) by {
                let i = choose|i: int| 0 <= i < chosen.len() && chosen[i] == x;
                assert(cands.contains(chosen[i]));
            }
        }
        assert(cands.to_set().contains(c));
        vstd::set::axiom_set_remove_len(cands.to_set(), c);
        vstd::set_lib::lemma_len_subset(chosen.to_set(), rest);
        assert(false);
    }
}

/// The candidates at the ranked places are the first ones in key order.
pub proof fn lemma_ranked_first_by<T>(
    cands: Seq<T>,
    key: spec_fn(T) -> SortKey,
    newest_first: bool,
    limit: int,
    idx: Seq<usize>,
)
    requires
        cands.len() <= usize::MAX,
        ranked(cands.map_values(|c: T| key(c)), newest_first, limit, idx),
    ensures
        first_by(cands, key, newest_first, limit, idx.map_values(|i: usize| cands[i as int])),
{
    let keys = cands.map_values(|c: T| key(c));
    let chosen = idx.map_values(|i: usize| cands[i as int]);
    assert forall|i: int| 0 <= i < chosen.len() implies cands.contains(#[trigger] chosen[i]) by {
        assert(idx[i] < keys.len());
        assert(cands[idx[i] as int] == chosen[i]);
    }
    assert forall|i: int, j: int| 0 <= i < j < chosen.len() implies precedes(
        newest_first,
        key(#[trigger] chosen[i]),
        key(#[trigger] chosen[j]),
    ) by {
        assert(keys[idx[i] as int] == key(chosen[i]));
        assert(keys[idx[j] as int] == key(chosen[j]));
    }
    assert forall|c: T, i: int|
        cands.contains(c) && !chosen.contains(c) && 0 <= i < chosen.len() implies precedes(
        newest_first,
        key(#[trigger] chosen[i]),
        #[trigger] key(c),
    ) by {
        let k = choose|k: int| 0 <= k < cands.len() && cands[k] == c;
        assert(!idx.contains(k as usize)) by {
            if idx.contains(k as usize) {
                let p = choose|p: int| 0 <= p < idx.len() && idx[p] == k as usize;
                assert(chosen[p] == c);
            }
        }
        assert(idx[i] < keys.len());
        assert(keys[idx[i] as int] == key(chosen[i]));
        assert(keys[k] == key(c));
    }
}

/// The places of the first `limit` keys, in order.
pub fn rank(keys: &Vec<(i64, Vec<char>)>, newest_first: bool, limit: usize) -> (idx: Vec<usize>)
    requires
        forall|i: int, j: int|
            0 <= i < j < keys.len() ==> key_view(#[trigger] keys@[i]) != key_view(#[trigger] keys@[j]),
    ensures
        ranked(key_views(keys@), newest_first, limit as int, idx@),
{
    let n = keys.len();
    let ghost kv = key_views(keys@);
    let mut idx: Vec<usize> = Vec::new();
    let mut rest: Vec<usize> = Vec::new();
    let mut k: usize = 0;
    while k < n
        invariant
            k <= n == keys.len(),
            rest@.len() == k,
            forall|i: int| 0 <= i < k ==> #[trigger] rest@[i] == i,
        decreases n - k,
    {
        rest.push(k);
        k += 1;
    }
    assert forall|m: usize| m < n && !idx@.contains(m) implies #[trigger] rest@.contains(m) by {
        assert(rest@[m as int] == m);
    }
    while idx.len() < limit && rest.len() > 0
        invariant
            n == keys.len(),
            kv == key_views(keys@),
            forall|i: int, j: int|
                0 <= i < j < keys.len() ==> key_view(#[trigger] keys@[i]) != key_view(
                    #[trigger] keys@[j],
                ),
            idx@.len() + rest@.len() == n,
            idx@.len() <= limit,
            forall|i: int| 0 <= i < idx@.len() ==> #[trigger] idx@[i] < n,
            forall|i: int| 0 <= i < rest@.len() ==> #[trigger] rest@[i] < n,
            forall|m: usize| m < n && !idx@.contains(m) ==> #[trigger] rest@.contains(m),
            forall|i: int, j: int|
                0 <= i < j < idx@.len() ==> precedes(newest_first, kv[#[trigger] idx@[i] as int], kv[#[trigger] idx@[j] as int]),
            forall|i: int, j: int|
                0 <= i < idx@.len() && 0 <= j < rest@.len() ==> precedes(
                    newest_first,
                    kv[#[trigger] idx@[i] as int],
                    kv[#[trigger] rest@[j] as int],
                ),
            forall|i: int, j: int|
                0 <= i < j < rest@.len() ==> #[trigger] rest@[i] != #[trigger] rest@[j],
        decreases rest@.len(),
    {
        let mut best: usize = 0;
        let mut j: usize = 1;
        while j < rest.len()
            invariant
                n == keys.len(),
                kv == key_views(keys@),
                1 <= j <= rest@.len(),
                best < j,
                forall|i: int| 0 <= i < rest@.len() ==> #[trigger] rest@[i] < n,
                forall|i: int, m: int|
                    0 <= i < j && i != best && 0 <= m < rest@.len() && m == best ==> precedes(
                        newest_first,
                        kv[#[trigger] rest@[m] as int],
                        kv[#[trigger] rest@[i] as int],
                    ),
                forall|i: int, j2: int|
                    0 <= i < j2 < keys.len() ==> key_view(#[trigger] keys@[i]) != key_view(
                        #[trigger] keys@[j2],
                    ),
                forall|i: int, j2: int|
                    0 <= i < j2 < rest@.len() ==> #[trigger] rest@[i] != #[trigger] rest@[j2],
            decreases rest@.len() - j,
        {
            if key_precedes(newest_first, &keys[rest[j]], &keys[rest[best]]) {
                proof {
                    assert forall|i: int, m: int|
                        0 <= i < j + 1 && i != j && 0 <= m < rest@.len() && m == j implies precedes(
                            newest_first,
                            kv[#[trigger] rest@[m] as int],
                            kv[#[trigger] rest@[i] as int],
                        ) by {
                        if i != best {
                            lemma_precedes_transitive(
                                newest_first,
                                kv[rest@[j as int] as int],
                                kv[rest@[best as int] as int],
                                kv[rest@[i] as int],
                            );
                        }
                    }
                }
                best = j;
            } else {
                proof {
                    let a = rest@[j as int] as int;
                    let b = rest@[best as int] as int;
                    assert(a != b);
                    assert(kv[a] == key_view(keys@[a]));
                    assert(kv[b] == key_view(keys@[b]));
                    if a < b {
                        assert(key_view(keys@[a]) != key_view(keys@[b]));
                    } else {
                        assert(key_view(keys@[b]) != key_view(keys@[a]));
                    }
                    lemma_precedes_total(newest_first, kv[a], kv[b]);
                }
            }
            j += 1;
        }
        let ghost old_idx = idx@;
        let ghost old_rest = rest@;
        let chosen = rest.remove(best);
        idx.push(chosen);
        proof {
            assert forall|i: int, j2: int|
                0 <= i < j2 < idx@.len() implies precedes(newest_first, kv[#[trigger] idx@[i] as int], kv[#[trigger] idx@[j2] as int]) by {
                if j2 == idx@.len() - 1 {
                    assert(old_rest[best as int] == chosen);
                }
            }
            assert forall|i: int, j2: int|
                0 <= i < idx@.len() && 0 <= j2 < rest@.len() implies precedes(
                    newest_first,
                    kv[#[trigger] idx@[i] as int],
                    kv[#[trigger] rest@[j2] as int],
                ) by {
                if i == idx@.len() - 1 {
                    if j2 < best {
                        assert(rest@[j2] == old_rest[j2]);
                    } else {
                        assert(rest@[j2] == old_rest[j2 + 1]);
                    }
                } else {
                    if j2 < best {
                        assert(rest@[j2] == old_rest[j2]);
                    } else {
                        assert(rest@[j2] == old_rest[j2 + 1]);
                    }
                }
            }
            assert forall|m: usize| m < n && !idx@.contains(m) implies #[trigger] rest@.contains(
                m,
            ) by {
                assert(!old_idx.contains(m)) by {
                    if old_idx.contains(m) {
                        let p = choose|p: int| 0 <= p < old_idx.len() && old_idx[p] == m;
                        assert(idx@[p] == m);
                    }
                }
                assert(old_rest.contains(m));
                let p = choose|p: int| 0 <= p < old_rest.len() && old_rest[p] == m;
                assert(p != best) by {
                    if p == best {
                        assert(idx@[idx@.len() - 1] == m);
                    }
                }
                if p < best {
                    assert(rest@[p] == m);
                } else {
                    assert(rest@[p - 1] == m);
                }
            }
            assert forall|i: int, j2: int|
                0 <= i < j2 < rest@.len() implies #[trigger] rest@[i] != #[trigger] rest@[j2] by {
                let oi = if i < best {
                    i
                } else {
                    i + 1
                };
                let oj = if j2 < best {
                    j2
                } else {
                    j2 + 1
                };
                assert(rest@[i] == old_rest[oi]);
                assert(rest@[j2] == old_rest[oj]);
            }
        }
    }
    proof {
        assert forall|k2: int, i: int|
            0 <= k2 < kv.len() && !idx@.contains(k2 as usize) && 0 <= i < idx@.len() implies precedes(
                newest_first,
                kv[#[trigger] idx@[i] as int],
                #[trigger] kv[k2],
            ) by {
            assert(rest@.contains(k2 as usize));
            let p = choose|p: int| 0 <= p < rest@.len() && rest@[p] == k2 as usize;
            assert(kv[rest@[p] as int] == kv[k2]);
        }
        if idx@.len() < limit {
            assert(rest@.len() == 0);
        }
    }
    idx
}

} // verus!
