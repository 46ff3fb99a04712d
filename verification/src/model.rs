//! The mathematical model of the registry: what each mutation does to the
//! sequences of name views, and the facts about those operations that the
//! executable code is proved against.

use vstd::prelude::*;

verus! {

/// `s` with every occurrence of `n` removed, order kept.
pub open spec fn remove_name(s: Seq<Seq<char>>, n: Seq<char>) -> Seq<Seq<char>>
    decreases s.len(),
{
    if s.len() == 0 {
        Seq::empty()
    } else {
        let rest = remove_name(s.drop_last(), n);
        if s.last() == n {
            rest
        } else {
            rest.push(s.last())
        }
    }
}

/// The first `cap` entries of `s`, or all of `s` if it is shorter.
pub open spec fn clip(s: Seq<Seq<char>>, cap: int) -> Seq<Seq<char>> {
    if s.len() <= cap {
        s
    } else {
        s.take(cap)
    }
}

/// What recording `n` does to a recent history `r`: existing occurrences go,
/// `n` moves to the front, and the list is cut to `cap` entries.
pub open spec fn record_recent_spec(r: Seq<Seq<char>>, n: Seq<char>, cap: int) -> Seq<Seq<char>> {
    clip(seq![n] + remove_name(r, n), cap)
}

/// `s` deduplicated, keeping the first occurrence of each name.
pub open spec fn dedup_first(s: Seq<Seq<char>>) -> Seq<Seq<char>>
    decreases s.len(),
{
    if s.len() == 0 {
        Seq::empty()
    } else {
        let rest = dedup_first(s.drop_last());
        if rest.contains(s.last()) {
            rest
        } else {
            rest.push(s.last())
        }
    }
}

/// Whether some pair in `s` has key `k`.
pub open spec fn has_key(s: Seq<(Seq<char>, Seq<char>)>, k: Seq<char>) -> bool {
    exists|i: int| 0 <= i < s.len() && s[i].0 == k
}

/// The index of the pair with key `k` (meaningful only when `has_key`).
pub open spec fn key_at(s: Seq<(Seq<char>, Seq<char>)>, k: Seq<char>) -> int {
    choose|i: int| 0 <= i < s.len() && s[i].0 == k
}

/// The value of the pair with key `k` (meaningful only when `has_key`).
pub open spec fn val_of(s: Seq<(Seq<char>, Seq<char>)>, k: Seq<char>) -> Seq<char> {
    s[key_at(s, k)].1
}

/// Insert or overwrite: replace the value at key `k`, or append the pair.
pub open spec fn upsert(s: Seq<(Seq<char>, Seq<char>)>, k: Seq<char>, v: Seq<char>) -> Seq<
    (Seq<char>, Seq<char>),
> {
    if has_key(s, k) {
        s.update(key_at(s, k), (k, v))
    } else {
        s.push((k, v))
    }
}

/// `s` with the pair keyed `k` removed, order kept.
pub open spec fn remove_key(s: Seq<(Seq<char>, Seq<char>)>, k: Seq<char>) -> Seq<
    (Seq<char>, Seq<char>),
>
    decreases s.len(),
{
    if s.len() == 0 {
        Seq::empty()
    } else {
        let rest = remove_key(s.drop_last(), k);
        if s.last().0 == k {
            rest
        } else {
            rest.push(s.last())
        }
    }
}

/// Folding `upsert` over a whole pair sequence, front to back.
pub open spec fn upsert_all(s: Seq<(Seq<char>, Seq<char>)>) -> Seq<(Seq<char>, Seq<char>)>
    decreases s.len(),
{
    if s.len() == 0 {
        Seq::empty()
    } else {
        upsert(upsert_all(s.drop_last()), s.last().0, s.last().1)
    }
}

/// No name occurs twice.
pub open spec fn no_dups(s: Seq<Seq<char>>) -> bool {
    forall|i: int, j: int| 0 <= i < j < s.len() ==> s[i] != s[j]
}

/// No key occurs twice among the pairs.
pub open spec fn keys_unique(s: Seq<(Seq<char>, Seq<char>)>) -> bool {
    forall|i: int, j: int| 0 <= i < j < s.len() ==> s[i].0 != s[j].0
}

/// Membership in a sequence splits into the front part and the last element.
pub proof fn lemma_contains_split<T>(s: Seq<T>, m: T)
    requires
        s.len() > 0,
    ensures
        s.contains(m) <==> (s.drop_last().contains(m) || s.last() == m),
{
    if s.drop_last().contains(m) {
        let i = choose|i: int| 0 <= i < s.drop_last().len() && s.drop_last()[i] == m;
        assert(s[i] == m);
    }
    if s.last() == m {
        assert(s[s.len() - 1] == m);
    }
    if s.contains(m) {
        let i = choose|i: int| 0 <= i < s.len() && s[i] == m;
        if i < s.len() - 1 {
            assert(s.drop_last()[i] == m);
        }
    }
}

/// Membership in a pushed sequence splits likewise.
pub proof fn lemma_contains_push<T>(s: Seq<T>, x: T, m: T)
    ensures
        s.push(x).contains(m) <==> (s.contains(m) || x == m),
{
    assert(s.push(x).drop_last() =~= s);
    lemma_contains_split(s.push(x), m);
}

/// Dropping the last element keeps names distinct.
pub proof fn lemma_no_dups_drop_last(s: Seq<Seq<char>>)
    requires
        no_dups(s),
        s.len() > 0,
    ensures
        no_dups(s.drop_last()),
{
    assert forall|i: int, j: int| 0 <= i < j < s.drop_last().len() implies s.drop_last()[i]
        != s.drop_last()[j] by {
        assert(s[i] == s.drop_last()[i]);
        assert(s[j] == s.drop_last()[j]);
    }
}

/// Everything `remove_name` claims: length, membership, distinctness, and
/// that it does nothing to a distinct list not containing the name.
pub proof fn lemma_remove_name(s: Seq<Seq<char>>, n: Seq<char>)
    ensures
        remove_name(s, n).len() <= s.len(),
        forall|m: Seq<char>| #![trigger remove_name(s, n).contains(m)]
            remove_name(s, n).contains(m) <==> (s.contains(m) && m != n),
        no_dups(s) ==> no_dups(remove_name(s, n)),
        no_dups(s) && !s.contains(n) ==> remove_name(s, n) == s,
    decreases s.len(),
{
    if s.len() == 0 {
        assert(s =~= Seq::<Seq<char>>::empty());
        assert forall|m: Seq<char>| !(#[trigger] s.contains(m)) by {}
    } else {
        let d = s.drop_last();
        let rest = remove_name(d, n);
        lemma_remove_name(d, n);
        assert forall|m: Seq<char>| remove_name(s, n).contains(m) <==> (s.contains(m) && m
            != n) by {
            lemma_contains_split(s, m);
            assert(rest.contains(m) <==> (d.contains(m) && m != n));
            if s.last() == n {
                assert(remove_name(s, n) == rest);
            } else {
                lemma_contains_push(rest, s.last(), m);
                assert(remove_name(s, n) == rest.push(s.last()));
            }
        }
        if no_dups(s) {
            lemma_no_dups_drop_last(s);
            if s.last() != n {
                // the last element is not in the front part, so not in `rest`
                assert(!d.contains(s.last())) by {
                    if d.contains(s.last()) {
                        let i = choose|i: int| 0 <= i < d.len() && d[i] == s.last();
                        assert(s[i] == s[s.len() - 1]);
                    }
                }
                assert forall|i: int, j: int|
                    0 <= i < j < rest.push(s.last()).len() implies rest.push(s.last())[i]
                    != rest.push(s.last())[j] by {
                    if j == rest.len() {
                        assert(rest.contains(rest[i]));
                    }
                }
                if !s.contains(n) {
                    assert(!d.contains(n)) by {
                        lemma_contains_split(s, n);
                    }
                    assert(remove_name(s, n) =~= s);
                }
            } else {
                assert(s.contains(n)) by {
                    assert(s[s.len() - 1] == n);
                }
            }
        }
    }
}

/// Recording keeps the history distinct, bounded, and fronted by the name.
pub proof fn lemma_record_recent(r: Seq<Seq<char>>, n: Seq<char>, cap: int)
    requires
        no_dups(r),
        cap >= 1,
    ensures
        no_dups(record_recent_spec(r, n, cap)),
        record_recent_spec(r, n, cap).len() <= cap,
        record_recent_spec(r, n, cap).len() >= 1,
        record_recent_spec(r, n, cap)[0] == n,
        forall|m: Seq<char>|
            record_recent_spec(r, n, cap).contains(m) ==> (m == n || r.contains(m)),
{
    lemma_remove_name(r, n);
    let full = seq![n] + remove_name(r, n);
    let rec = record_recent_spec(r, n, cap);
    assert(full[0] == n);
    assert(forall|i: int| 0 <= i < rec.len() ==> rec[i] == full[i]);
    assert forall|i: int, j: int| 0 <= i < j < rec.len() implies rec[i] != rec[j] by {
        if i == 0 {
            assert(remove_name(r, n)[j - 1] == full[j]);
            assert(remove_name(r, n).contains(remove_name(r, n)[j - 1]));
        } else {
            assert(remove_name(r, n)[i - 1] == full[i]);
            assert(remove_name(r, n)[j - 1] == full[j]);
        }
    }
    assert forall|m: Seq<char>| rec.contains(m) implies (m == n || r.contains(m)) by {
        let i = choose|i: int| 0 <= i < rec.len() && rec[i] == m;
        if i > 0 {
            assert(remove_name(r, n)[i - 1] == m);
            assert(remove_name(r, n).contains(m));
        }
    }
}

/// Everything `dedup_first` claims: membership is kept, duplicates go, and a
/// distinct list comes back unchanged.
pub proof fn lemma_dedup_first(s: Seq<Seq<char>>)
    ensures
        dedup_first(s).len() <= s.len(),
        forall|m: Seq<char>| #![trigger dedup_first(s).contains(m)]
            dedup_first(s).contains(m) <==> s.contains(m),
        no_dups(dedup_first(s)),
        no_dups(s) ==> dedup_first(s) == s,
    decreases s.len(),
{
    if s.len() == 0 {
        assert(s =~= Seq::<Seq<char>>::empty());
        assert forall|m: Seq<char>| !(#[trigger] s.contains(m)) by {}
    } else {
        let d = s.drop_last();
        let rest = dedup_first(d);
        lemma_dedup_first(d);
        assert forall|m: Seq<char>| dedup_first(s).contains(m) <==> s.contains(m) by {
            lemma_contains_split(s, m);
            if !rest.contains(s.last()) {
                lemma_contains_push(rest, s.last(), m);
            }
        }
        if !rest.contains(s.last()) {
            assert forall|i: int, j: int|
                0 <= i < j < rest.push(s.last()).len() implies rest.push(s.last())[i]
                != rest.push(s.last())[j] by {
                if j == rest.len() {
                    assert(rest.contains(rest[i]));
                }
            }
        }
        if no_dups(s) {
            lemma_no_dups_drop_last(s);
            assert(!d.contains(s.last())) by {
                if d.contains(s.last()) {
                    let i = choose|i: int| 0 <= i < d.len() && d[i] == s.last();
                    assert(s[i] == s[s.len() - 1]);
                }
            }
            assert(dedup_first(s) =~= s);
        }
    }
}

/// Everything `upsert` claims, under unique keys: the key maps to the new
/// value, every other key is untouched, and uniqueness is kept.
pub proof fn lemma_upsert(s: Seq<(Seq<char>, Seq<char>)>, k: Seq<char>, v: Seq<char>)
    requires
        keys_unique(s),
    ensures
        keys_unique(upsert(s, k, v)),
        has_key(upsert(s, k, v), k),
        val_of(upsert(s, k, v), k) == v,
        forall|k2: Seq<char>| k2 != k ==> (has_key(upsert(s, k, v), k2) <==> has_key(s, k2)),
        forall|k2: Seq<char>|
            k2 != k && has_key(s, k2) ==> val_of(upsert(s, k, v), k2) == val_of(s, k2),
        upsert(s, k, v).len() == if has_key(s, k) {
            s.len()
        } else {
            s.len() + 1
        },
        !has_key(s, k) ==> upsert(s, k, v) == s.push((k, v)),
    decreases s.len(),
{
    let out = upsert(s, k, v);
    if has_key(s, k) {
        let i0 = key_at(s, k);
        assert(0 <= i0 < s.len() && s[i0].0 == k);
        assert forall|i: int, j: int| 0 <= i < j < out.len() implies out[i].0 != out[j].0 by {
            assert(out[i].0 == s[i].0);
            assert(out[j].0 == s[j].0);
        }
        assert(out[i0] == (k, v));
        lemma_key_pinned(out, k, i0);
        assert forall|k2: Seq<char>| k2 != k implies (has_key(out, k2) <==> has_key(
            s,
            k2,
        )) by {
            if has_key(out, k2) {
                let i = key_at(out, k2);
                assert(s[i].0 == k2);
            }
            if has_key(s, k2) {
                let i = key_at(s, k2);
                assert(i != i0);
                assert(out[i].0 == k2);
            }
        }
        assert forall|k2: Seq<char>| k2 != k && has_key(s, k2) implies val_of(out, k2) == val_of(
            s,
            k2,
        ) by {
            let i = key_at(s, k2);
            assert(i != i0);
            assert(out[i].0 == k2);
            lemma_key_pinned(out, k2, i);
            lemma_key_pinned(s, k2, i);
        }
    } else {
        assert(out == s.push((k, v)));
        assert forall|i: int, j: int| 0 <= i < j < out.len() implies out[i].0 != out[j].0 by {
            if j == s.len() {
                assert(s[i].0 != k);
            }
        }
        assert(out[s.len() as int] == (k, v));
        lemma_key_pinned(out, k, s.len() as int);
        assert forall|k2: Seq<char>| k2 != k implies (has_key(out, k2) <==> has_key(
            s,
            k2,
        )) by {
            if has_key(out, k2) {
                let i = key_at(out, k2);
                assert(i < s.len());
                assert(s[i].0 == k2);
            }
            if has_key(s, k2) {
                let i = key_at(s, k2);
                assert(out[i].0 == k2);
            }
        }
        assert forall|k2: Seq<char>| k2 != k && has_key(s, k2) implies val_of(out, k2) == val_of(
            s,
            k2,
        ) by {
            let i = key_at(s, k2);
            assert(out[i].0 == k2);
            lemma_key_pinned(out, k2, i);
            lemma_key_pinned(s, k2, i);
        }
    }
}

/// Under unique keys, any index holding key `k` is the chosen one.
pub proof fn lemma_key_pinned(s: Seq<(Seq<char>, Seq<char>)>, k: Seq<char>, i: int)
    requires
        keys_unique(s),
        0 <= i < s.len(),
        s[i].0 == k,
    ensures
        has_key(s, k),
        key_at(s, k) == i,
        val_of(s, k) == s[i].1,
{
    assert(has_key(s, k));
    let j = key_at(s, k);
    if i < j {
        assert(s[i].0 != s[j].0);
    } else if j < i {
        assert(s[j].0 != s[i].0);
    }
}

/// Everything `remove_key` claims, under unique keys.
pub proof fn lemma_remove_key(s: Seq<(Seq<char>, Seq<char>)>, k: Seq<char>)
    requires
        keys_unique(s),
    ensures
        keys_unique(remove_key(s, k)),
        !has_key(remove_key(s, k), k),
        forall|k2: Seq<char>| k2 != k ==> (has_key(remove_key(s, k), k2) <==> has_key(s, k2)),
        forall|k2: Seq<char>|
            k2 != k && has_key(s, k2) ==> val_of(remove_key(s, k), k2) == val_of(s, k2),
        !has_key(s, k) ==> remove_key(s, k) == s,
        remove_key(s, k).len() <= s.len(),
        forall|p: (Seq<char>, Seq<char>)| #![trigger remove_key(s, k).contains(p)]
            remove_key(s, k).contains(p) <==> (s.contains(p) && p.0 != k),
    decreases s.len(),
{
    if s.len() == 0 {
        assert(s =~= Seq::<(Seq<char>, Seq<char>)>::empty());
        assert forall|p: (Seq<char>, Seq<char>)| !(#[trigger] s.contains(p)) by {}
        assert forall|k2: Seq<char>| !(#[trigger] has_key(s, k2)) by {}
        assert(!has_key(remove_key(s, k), k));
    } else {
        let d = s.drop_last();
        let rest = remove_key(d, k);
        assert forall|i: int, j: int| 0 <= i < j < d.len() implies d[i].0 != d[j].0 by {
            assert(s[i] == d[i]);
            assert(s[j] == d[j]);
        }
        lemma_remove_key(d, k);
        let out = remove_key(s, k);
        // membership characterization
        assert forall|p: (Seq<char>, Seq<char>)| out.contains(p) <==> (s.contains(p) && p.0
            != k) by {
            lemma_contains_split(s, p);
            if s.last().0 != k {
                lemma_contains_push(rest, s.last(), p);
            }
        }
        // uniqueness
        if s.last().0 != k {
            assert(!has_key(d, s.last().0)) by {
                if has_key(d, s.last().0) {
                    let i = key_at(d, s.last().0);
                    assert(s[i].0 == s[s.len() - 1].0);
                }
            }
            assert forall|i: int, j: int|
                0 <= i < j < rest.push(s.last()).len() implies rest.push(s.last())[i].0
                != rest.push(s.last())[j].0 by {
                if j == rest.len() {
                    let p = rest[i];
                    assert(rest.contains(p));
                    assert(d.contains(p) && p.0 != k);
                    let ii = choose|ii: int| 0 <= ii < d.len() && d[ii] == p;
                    assert(s[ii] == p);
                    if p.0 == s.last().0 {
                        assert(s[ii].0 == s[s.len() - 1].0);
                    }
                }
            }
        }
        // no key k left
        assert(!has_key(out, k)) by {
            if has_key(out, k) {
                let i = key_at(out, k);
                assert(out.contains(out[i]));
            }
        }
        // other keys kept, with their values
        assert forall|k2: Seq<char>| k2 != k implies (has_key(out, k2) <==> has_key(s, k2)) by {
            if has_key(out, k2) {
                let i = key_at(out, k2);
                assert(out.contains(out[i]));
                let p = out[i];
                let ii = choose|ii: int| 0 <= ii < s.len() && s[ii] == p;
                assert(s[ii].0 == k2);
            }
            if has_key(s, k2) {
                let i = key_at(s, k2);
                assert(s.contains(s[i]));
                assert(out.contains(s[i]));
                let j = choose|j: int| 0 <= j < out.len() && out[j] == s[i];
                assert(out[j].0 == k2);
            }
        }
        assert forall|k2: Seq<char>| k2 != k && has_key(s, k2) implies val_of(out, k2) == val_of(
            s,
            k2,
        ) by {
            let i = key_at(s, k2);
            assert(s.contains(s[i]));
            assert(out.contains(s[i]));
            let j = choose|j: int| 0 <= j < out.len() && out[j] == s[i];
            lemma_key_pinned(out, k2, j);
            lemma_key_pinned(s, k2, i);
        }
        // untouched when the key is absent
        if !has_key(s, k) {
            assert(s.last().0 != k) by {
                if s.last().0 == k {
                    assert(s[s.len() - 1].0 == k);
                }
            }
            assert(!has_key(d, k)) by {
                if has_key(d, k) {
                    let i = key_at(d, k);
                    assert(s[i].0 == k);
                }
            }
            assert(out =~= s);
        }
    }
}

/// Folding `upsert` over pairs with unique keys rebuilds them unchanged.
pub proof fn lemma_upsert_all_unique(s: Seq<(Seq<char>, Seq<char>)>)
    requires
        keys_unique(s),
    ensures
        upsert_all(s) == s,
    decreases s.len(),
{
    if s.len() == 0 {
        assert(upsert_all(s) =~= s);
    } else {
        let d = s.drop_last();
        assert forall|i: int, j: int| 0 <= i < j < d.len() implies d[i].0 != d[j].0 by {
            assert(s[i] == d[i]);
            assert(s[j] == d[j]);
        }
        lemma_upsert_all_unique(d);
        assert(!has_key(d, s.last().0)) by {
            if has_key(d, s.last().0) {
                let i = key_at(d, s.last().0);
                assert(s[i].0 == s[s.len() - 1].0);
            }
        }
        lemma_upsert(d, s.last().0, s.last().1);
        assert(upsert_all(s) == d.push(s.last()));
        assert(d.push(s.last()) =~= s);
    }
}

/// Replaying a list of names into a recent history, front to back.
pub open spec fn merge_recent_spec(r: Seq<Seq<char>>, inc: Seq<Seq<char>>, cap: int) -> Seq<
    Seq<char>,
>
    decreases inc.len(),
{
    if inc.len() == 0 {
        r
    } else {
        record_recent_spec(merge_recent_spec(r, inc.drop_last(), cap), inc.last(), cap)
    }
}

/// Step of the `merge_recent_spec` recursion along a prefix.
pub proof fn lemma_merge_recent_step(r: Seq<Seq<char>>, inc: Seq<Seq<char>>, cap: int, i: int)
    requires
        0 <= i < inc.len(),
    ensures
        merge_recent_spec(r, inc.take(i + 1), cap) == record_recent_spec(
            merge_recent_spec(r, inc.take(i), cap),
            inc[i],
            cap,
        ),
{
    assert(inc.take(i + 1).drop_last() =~= inc.take(i));
    assert(inc.take(i + 1).last() == inc[i]);
}

/// A prefix one longer is the prefix plus the next element.
pub proof fn lemma_take_push<T>(s: Seq<T>, i: int)
    requires
        0 <= i < s.len(),
    ensures
        s.take(i + 1) == s.take(i).push(s[i]),
{
    assert(s.take(i + 1) =~= s.take(i).push(s[i]));
}

/// Key membership in a pushed pair sequence splits likewise.
pub proof fn lemma_has_key_push(s: Seq<(Seq<char>, Seq<char>)>, p: (Seq<char>, Seq<char>), k: Seq<char>)
    ensures
        has_key(s.push(p), k) <==> (has_key(s, k) || p.0 == k),
{
    if has_key(s, k) {
        let i = key_at(s, k);
        assert(s.push(p)[i].0 == k);
    }
    if p.0 == k {
        assert(s.push(p)[s.len() as int].0 == k);
    }
    if has_key(s.push(p), k) {
        let i = key_at(s.push(p), k);
        if i < s.len() {
            assert(s[i].0 == k);
        }
    }
}

/// The recent history resolved against the projects: the names that still
/// exist, paired with their paths, in history order.
pub open spec fn resolved_recent(r: Seq<Seq<char>>, ps: Seq<(Seq<char>, Seq<char>)>) -> Seq<
    (Seq<char>, Seq<char>),
>
    decreases r.len(),
{
    if r.len() == 0 {
        Seq::empty()
    } else {
        let rest = resolved_recent(r.drop_last(), ps);
        if has_key(ps, r.last()) {
            rest.push((r.last(), val_of(ps, r.last())))
        } else {
            rest
        }
    }
}

/// Step of the `resolved_recent` recursion along a prefix.
pub proof fn lemma_resolved_recent_step(r: Seq<Seq<char>>, ps: Seq<(Seq<char>, Seq<char>)>, i: int)
    requires
        0 <= i < r.len(),
    ensures
        resolved_recent(r.take(i + 1), ps) == if has_key(ps, r[i]) {
            resolved_recent(r.take(i), ps).push((r[i], val_of(ps, r[i])))
        } else {
            resolved_recent(r.take(i), ps)
        },
{
    assert(r.take(i + 1).drop_last() =~= r.take(i));
    assert(r.take(i + 1).last() == r[i]);
}

/// Step of the `dedup_first` recursion along a prefix.
pub proof fn lemma_dedup_first_step(s: Seq<Seq<char>>, i: int)
    requires
        0 <= i < s.len(),
    ensures
        dedup_first(s.take(i + 1)) == if dedup_first(s.take(i)).contains(s[i]) {
            dedup_first(s.take(i))
        } else {
            dedup_first(s.take(i)).push(s[i])
        },
{
    assert(s.take(i + 1).drop_last() =~= s.take(i));
    assert(s.take(i + 1).last() == s[i]);
}

/// Step of the `upsert_all` recursion along a prefix.
pub proof fn lemma_upsert_all_step(s: Seq<(Seq<char>, Seq<char>)>, i: int)
    requires
        0 <= i < s.len(),
    ensures
        upsert_all(s.take(i + 1)) == upsert(upsert_all(s.take(i)), s[i].0, s[i].1),
{
    assert(s.take(i + 1).drop_last() =~= s.take(i));
    assert(s.take(i + 1).last() == s[i]);
}

/// Folding `upsert` always yields unique keys.
pub proof fn lemma_upsert_all_keys_unique(s: Seq<(Seq<char>, Seq<char>)>)
    ensures
        keys_unique(upsert_all(s)),
    decreases s.len(),
{
    if s.len() == 0 {
    } else {
        lemma_upsert_all_keys_unique(s.drop_last());
        lemma_upsert(upsert_all(s.drop_last()), s.last().0, s.last().1);
    }
}

/// Clipping keeps names distinct.
pub proof fn lemma_clip_no_dups(s: Seq<Seq<char>>, cap: int)
    requires
        no_dups(s),
        cap >= 0,
    ensures
        no_dups(clip(s, cap)),
        clip(s, cap).len() <= cap,
{
    assert forall|i: int, j: int| 0 <= i < j < clip(s, cap).len() implies clip(s, cap)[i] != clip(
        s,
        cap,
    )[j] by {
        assert(clip(s, cap)[i] == s[i]);
        assert(clip(s, cap)[j] == s[j]);
    }
}

} // verus!
