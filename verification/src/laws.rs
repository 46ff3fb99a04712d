//! Laws of the registry: facts that relate whole operations, proved once
//! from the model and stated for every input, not just the tested ones.

use vstd::prelude::*;
use crate::config::{Config, RECENT_LIMIT};
use crate::model::{
    remove_name, clip, has_key, val_of, upsert, remove_key, upsert_all, dedup_first, no_dups,
    keys_unique, merge_recent_spec, lemma_remove_name, lemma_record_recent, lemma_upsert,
    lemma_remove_key, lemma_upsert_all_unique, lemma_dedup_first, lemma_upsert_all_keys_unique,
};

verus! {

/// Uniqueness: adding keeps one entry per name, and the added path wins;
/// adding the same name again replaces the path with the most recent one.
pub proof fn lemma_add_project_uniqueness(
    s: Seq<(Seq<char>, Seq<char>)>,
    k: Seq<char>,
    v1: Seq<char>,
    v2: Seq<char>,
)
    requires
        keys_unique(s),
    ensures
        keys_unique(upsert(s, k, v1)),
        val_of(upsert(s, k, v1), k) == v1,
        val_of(upsert(upsert(s, k, v1), k, v2), k) == v2,
        forall|k2: Seq<char>| k2 != k ==> (has_key(upsert(s, k, v1), k2) <==> has_key(s, k2)),
    decreases s.len(),
{
    lemma_upsert(s, k, v1);
    lemma_upsert(upsert(s, k, v1), k, v2);
}

/// Uniqueness over a whole history of additions: folding any sequence of
/// insertions leaves unique keys, and a name whose addition no later
/// addition repeats maps to exactly the path it was last added with.
pub proof fn lemma_adds_last_wins(s: Seq<(Seq<char>, Seq<char>)>, i: int)
    requires
        0 <= i < s.len(),
        forall|j: int| i < j < s.len() ==> s[j].0 != s[i].0,
    ensures
        keys_unique(upsert_all(s)),
        has_key(upsert_all(s), s[i].0),
        val_of(upsert_all(s), s[i].0) == s[i].1,
    decreases s.len(),
{
    lemma_upsert_all_keys_unique(s);
    let d = s.drop_last();
    lemma_upsert_all_keys_unique(d);
    lemma_upsert(upsert_all(d), s.last().0, s.last().1);
    if i == s.len() - 1 {
    } else {
        assert forall|j: int| i < j < d.len() implies d[j].0 != d[i].0 by {
            assert(d[j] == s[j]);
            assert(d[i] == s[i]);
        }
        lemma_adds_last_wins(d, i);
        assert(s.last().0 != s[i].0);
    }
}

/// Recent bound and order: replaying any sequence of recordings on a valid
/// history leaves at most the capacity, no duplicates, and the last recorded
/// name in front. `merge_recent_spec` is exactly the deduplicated,
/// last-touched-first history that `add_recent` builds call by call.
pub proof fn lemma_recent_replay(r: Seq<Seq<char>>, calls: Seq<Seq<char>>, cap: int)
    requires
        no_dups(r),
        r.len() <= cap,
        cap >= 1,
    ensures
        no_dups(merge_recent_spec(r, calls, cap)),
        merge_recent_spec(r, calls, cap).len() <= cap,
        calls.len() > 0 ==> merge_recent_spec(r, calls, cap)[0] == calls.last(),
        forall|m: Seq<char>|
            merge_recent_spec(r, calls, cap).contains(m) ==> (r.contains(m) || calls.contains(m)),
    decreases calls.len(),
{
    if calls.len() > 0 {
        lemma_recent_replay(r, calls.drop_last(), cap);
        let mid = merge_recent_spec(r, calls.drop_last(), cap);
        lemma_record_recent(mid, calls.last(), cap);
        assert forall|m: Seq<char>|
            merge_recent_spec(r, calls, cap).contains(m) implies (r.contains(m)
            || calls.contains(m)) by {
            if m == calls.last() {
                assert(calls[calls.len() - 1] == m);
            } else if merge_recent_spec(r, calls, cap).contains(m) {
                assert(mid.contains(m));
                if calls.drop_last().contains(m) {
                    let w = choose|w: int|
                        0 <= w < calls.drop_last().len() && calls.drop_last()[w] == m;
                    assert(calls[w] == m);
                }
            }
        }
    }
}

/// Favorite idempotence: marking a name favorite twice leaves exactly the
/// favorites that marking it once leaves.
pub proof fn lemma_favorite_idempotent(s: Seq<Seq<char>>, n: Seq<char>)
    requires
        no_dups(s),
    ensures
        remove_name(remove_name(s, n).push(n), n).push(n) == remove_name(s, n).push(n),
{
    lemma_remove_name(s, n);
    let r1 = remove_name(s, n);
    assert(remove_name(r1.push(n), n) == remove_name(r1, n)) by {
        assert(r1.push(n).drop_last() =~= r1);
        assert(r1.push(n).last() == n);
    }
    lemma_remove_name(r1, n);
}

/// Cascade on remove: after a removal the name is gone from the projects
/// and from the favorites alike.
pub proof fn lemma_remove_cascade(c: Config, n: Seq<char>)
    requires
        c.wf(),
    ensures
        !has_key(remove_key(c.proj_pairs(), n), n),
        !remove_name(c.fav_names(), n).contains(n),
{
    lemma_remove_key(c.proj_pairs(), n);
    lemma_remove_name(c.fav_names(), n);
}

/// Rename drops the favorite: after a rename the new name carries the old
/// path, and, when the new name was no favorite before, the favorites hold
/// neither the old nor the new name.
pub proof fn lemma_rename_drops_favorite(c: Config, old_n: Seq<char>, new_n: Seq<char>)
    requires
        c.wf(),
        c.has_project(old_n),
        !c.is_fav(new_n),
    ensures
        has_key(
            upsert(remove_key(c.proj_pairs(), old_n), new_n, val_of(c.proj_pairs(), old_n)),
            new_n,
        ),
        val_of(
            upsert(remove_key(c.proj_pairs(), old_n), new_n, val_of(c.proj_pairs(), old_n)),
            new_n,
        ) == val_of(c.proj_pairs(), old_n),
        !remove_name(c.fav_names(), old_n).contains(old_n),
        !remove_name(c.fav_names(), old_n).contains(new_n),
{
    lemma_remove_key(c.proj_pairs(), old_n);
    lemma_upsert(remove_key(c.proj_pairs(), old_n), new_n, val_of(c.proj_pairs(), old_n));
    lemma_remove_name(c.fav_names(), old_n);
}

/// Round trip: a valid registry written out as a document and loaded again
/// comes back unchanged — loading undoes none, and repairs none, of what a
/// well-formed registry saved.
pub proof fn lemma_save_load_round_trip(c: Config)
    requires
        c.wf(),
    ensures
        upsert_all(c.proj_pairs()) == c.proj_pairs(),
        dedup_first(c.fav_names()) == c.fav_names(),
        clip(dedup_first(c.recent_names()), RECENT_LIMIT as int) == c.recent_names(),
{
    lemma_upsert_all_unique(c.proj_pairs());
    lemma_dedup_first(c.fav_names());
    lemma_dedup_first(c.recent_names());
}

} // verus!
