//! The listing operation: a filtered, optionally sorted view of the
//! projects, as (name, path, favorite) entries.

use vstd::prelude::*;
use crate::cli::LsArgs;
use crate::config::Config;
use vstd::string::StrSliceExecFns;
use vstd::string::StringExecFns;
use vstd::multiset::Multiset;

verus! {

/// What `str::to_lowercase` returns: a function of the characters alone.
pub uninterp spec fn lower_of(s: Seq<char>) -> Seq<char>;

/// Relies on `str::to_lowercase`: the lowercased text, a function of the
/// characters alone.
#[verifier::external_body]
fn lowercase(s: &str) -> (r: String)
    ensures
        r@ == lower_of(s@),
{
    s.to_lowercase()
}

/// `needle` occurs contiguously in `hay` starting at position `i`.
pub open spec fn match_at(hay: Seq<char>, needle: Seq<char>, i: int) -> bool {
    0 <= i && i + needle.len() <= hay.len() && hay.subrange(i, i + needle.len()) == needle
}

/// `needle` occurs contiguously somewhere in `hay`.
pub open spec fn contains_seq(hay: Seq<char>, needle: Seq<char>) -> bool {
    exists|i: int| match_at(hay, needle, i)
}

/// Whether `needle` matches `hay` at position `i`, checked character by
/// character.
fn match_at_exec(hay: &str, needle: &str, i: usize, n_len: usize) -> (r: bool)
    requires
        n_len == needle@.len(),
        i + n_len <= hay@.len(),
        hay@.len() <= usize::MAX,
    ensures
        r == match_at(hay@, needle@, i as int),
{
    let mut j: usize = 0;
    while j < n_len
        invariant
            j <= n_len,
            n_len == needle@.len(),
            i + n_len <= hay@.len(),
            hay@.len() <= usize::MAX,
            forall|k: int| 0 <= k < j ==> hay@[i + k] == needle@[k],
        decreases n_len - j,
    {
        if hay.get_char(i + j) != needle.get_char(j) {
            proof {
                if hay@.subrange(i as int, i + needle@.len()) == needle@ {
                    assert(hay@.subrange(i as int, i + needle@.len())[j as int] == hay@[i + j]);
                }
            }
            return false;
        }
        j += 1;
    }
    proof {
        assert(hay@.subrange(i as int, i + needle@.len()) =~= needle@);
    }
    true
}

/// Substring search: whether `needle` occurs anywhere in `hay`.
pub fn contains_sub(hay: &str, needle: &str) -> (r: bool)
    ensures
        r == contains_seq(hay@, needle@),
{
    let h_len = hay.unicode_len();
    let n_len = needle.unicode_len();
    if n_len > h_len {
        proof {
            if contains_seq(hay@, needle@) {
                let w = choose|w: int| match_at(hay@, needle@, w);
            }
        }
        return false;
    }
    if n_len == 0 {
        proof {
            assert(hay@.subrange(0, 0) =~= needle@);
            assert(match_at(hay@, needle@, 0));
        }
        return true;
    }
    let mut i: usize = 0;
    while n_len <= h_len - i
        invariant
            1 <= n_len <= h_len,
            h_len == hay@.len(),
            n_len == needle@.len(),
            i <= h_len,
            forall|k: int| 0 <= k < i ==> !match_at(hay@, needle@, k),
        decreases h_len - i,
    {
        if match_at_exec(hay, needle, i, n_len) {
            return true;
        }
        i += 1;
    }
    proof {
        if contains_seq(hay@, needle@) {
            let w = choose|w: int| match_at(hay@, needle@, w);
            assert(!match_at(hay@, needle@, w));
        }
    }
    false
}

/// Lexicographic order on character sequences, by code point.
pub open spec fn lex_le(a: Seq<char>, b: Seq<char>) -> bool
    decreases a.len(),
{
    if a.len() == 0 {
        true
    } else if b.len() == 0 {
        false
    } else if a[0] != b[0] {
        a[0] < b[0]
    } else {
        lex_le(a.skip(1), b.skip(1))
    }
}

/// The order is reflexive.
pub proof fn lemma_lex_le_refl(a: Seq<char>)
    ensures
        lex_le(a, a),
    decreases a.len(),
{
    if a.len() > 0 {
        lemma_lex_le_refl(a.skip(1));
    }
}

/// The order is total.
pub proof fn lemma_lex_le_total(a: Seq<char>, b: Seq<char>)
    ensures
        lex_le(a, b) || lex_le(b, a),
    decreases a.len(),
{
    if a.len() == 0 {
    } else if b.len() == 0 {
    } else if a[0] != b[0] {
    } else {
        lemma_lex_le_total(a.skip(1), b.skip(1));
    }
}

/// The order is transitive.
pub proof fn lemma_lex_le_trans(a: Seq<char>, b: Seq<char>, c: Seq<char>)
    requires
        lex_le(a, b),
        lex_le(b, c),
    ensures
        lex_le(a, c),
    decreases a.len(),
{
    if a.len() == 0 {
    } else if b.len() == 0 {
    } else if c.len() == 0 {
    } else {
        if a[0] == b[0] && b[0] == c[0] {
            lemma_lex_le_trans(a.skip(1), b.skip(1), c.skip(1));
        }
    }
}

/// String comparison in the lexicographic order of the characters.
fn str_le(a: &str, b: &str) -> (r: bool)
    ensures
        r == lex_le(a@, b@),
{
    let a_len = a.unicode_len();
    let b_len = b.unicode_len();
    proof {
        assert(a@.skip(0) =~= a@);
        assert(b@.skip(0) =~= b@);
    }
    let mut i: usize = 0;
    while i < a_len && i < b_len
        invariant
            i <= a_len,
            i <= b_len,
            a_len == a@.len(),
            b_len == b@.len(),
            lex_le(a@, b@) == lex_le(a@.skip(i as int), b@.skip(i as int)),
        decreases a_len - i,
    {
        let ca = a.get_char(i);
        let cb = b.get_char(i);
        proof {
            assert(a@.skip(i as int)[0] == a@[i as int]);
            assert(b@.skip(i as int)[0] == b@[i as int]);
        }
        if ca != cb {
            return (ca as u32) < (cb as u32);
        }
        proof {
            assert(a@.skip(i as int).skip(1) =~= a@.skip(i as int + 1));
            assert(b@.skip(i as int).skip(1) =~= b@.skip(i as int + 1));
        }
        i += 1;
    }
    proof {
        if i == a_len {
            assert(a@.skip(i as int).len() == 0);
        } else {
            assert(b@.skip(i as int).len() == 0);
            assert(a@.skip(i as int).len() > 0);
        }
    }
    a_len <= b_len
}

/// The views of a sequence of (name, path, favorite) entries.
pub open spec fn triples_of(s: Seq<(String, String, bool)>) -> Seq<(Seq<char>, Seq<char>, bool)> {
    s.map_values(|t: (String, String, bool)| (t.0@, t.1@, t.2))
}

/// The sort key of an entry: its name or its path.
pub open spec fn entry_key(e: (Seq<char>, Seq<char>, bool), by_name: bool) -> Seq<char> {
    if by_name {
        e.0
    } else {
        e.1
    }
}

/// The entries are in non-decreasing key order.
pub open spec fn sorted_by(s: Seq<(Seq<char>, Seq<char>, bool)>, by_name: bool) -> bool {
    forall|i: int, j: int|
        0 <= i < j < s.len() ==> lex_le(entry_key(s[i], by_name), entry_key(s[j], by_name))
}

/// Whether one project entry passes the listing filters.
pub open spec fn entry_keeps(
    cfg: Config,
    p: (Seq<char>, Seq<char>),
    filt: Option<Seq<char>>,
    only_favs: bool,
    only_recent: bool,
) -> bool {
    &&& match filt {
        Some(f) => contains_seq(lower_of(p.0), lower_of(f)) || contains_seq(
            lower_of(p.1),
            lower_of(f),
        ),
        None => true,
    }
    &&& (only_favs ==> cfg.is_fav(p.0))
    &&& (only_recent ==> cfg.in_recent(p.0))
}

/// The entries that pass the filters, in input order, each carrying its
/// favorite mark.
pub open spec fn kept_entries(
    cfg: Config,
    s: Seq<(Seq<char>, Seq<char>)>,
    filt: Option<Seq<char>>,
    only_favs: bool,
    only_recent: bool,
) -> Seq<(Seq<char>, Seq<char>, bool)>
    decreases s.len(),
{
    if s.len() == 0 {
        Seq::empty()
    } else {
        let rest = kept_entries(cfg, s.drop_last(), filt, only_favs, only_recent);
        if entry_keeps(cfg, s.last(), filt, only_favs, only_recent) {
            rest.push((s.last().0, s.last().1, cfg.is_fav(s.last().0)))
        } else {
            rest
        }
    }
}

/// Step of the `kept_entries` recursion along a prefix.
proof fn lemma_kept_entries_step(
    cfg: Config,
    s: Seq<(Seq<char>, Seq<char>)>,
    filt: Option<Seq<char>>,
    only_favs: bool,
    only_recent: bool,
    i: int,
)
    requires
        0 <= i < s.len(),
    ensures
        kept_entries(cfg, s.take(i + 1), filt, only_favs, only_recent) == if entry_keeps(
            cfg,
            s[i],
            filt,
            only_favs,
            only_recent,
        ) {
            kept_entries(cfg, s.take(i), filt, only_favs, only_recent).push(
                (s[i].0, s[i].1, cfg.is_fav(s[i].0)),
            )
        } else {
            kept_entries(cfg, s.take(i), filt, only_favs, only_recent)
        },
{
    assert(s.take(i + 1).drop_last() =~= s.take(i));
    assert(s.take(i + 1).last() == s[i]);
}

/// Sort entries by name or path, ascending: a sorted rearrangement.
fn sort_entries(v: Vec<(String, String, bool)>, by_name: bool) -> (out: Vec<(String, String, bool)>)
    ensures
        sorted_by(triples_of(out@), by_name),
        triples_of(out@).to_multiset() == triples_of(v@).to_multiset(),
{
    broadcast use vstd::seq_lib::group_to_multiset_ensures;

    let ghost orig = triples_of(v@);
    let mut rest = v;
    let mut out: Vec<(String, String, bool)> = Vec::new();
    proof {
        assert(triples_of(out@) =~= Seq::<(Seq<char>, Seq<char>, bool)>::empty());
        assert(triples_of(out@).to_multiset().add(triples_of(rest@).to_multiset())
            =~= orig.to_multiset());
    }
    while rest.len() > 0
        invariant
            sorted_by(triples_of(out@), by_name),
            triples_of(out@).to_multiset().add(triples_of(rest@).to_multiset())
                == orig.to_multiset(),
            forall|j: int, k: int|
                0 <= j < triples_of(out@).len() && 0 <= k < triples_of(rest@).len() ==> lex_le(
                    entry_key(triples_of(out@)[j], by_name),
                    entry_key(triples_of(rest@)[k], by_name),
                ),
        decreases rest.len(),
    {
        // select the entry with the least key
        proof {
            lemma_lex_le_refl(entry_key(triples_of(rest@)[0], by_name));
        }
        let mut m: usize = 0;
        let mut k: usize = 1;
        while k < rest.len()
            invariant
                m < k <= rest.len(),
                rest.len() > 0,
                forall|t: int|
                    0 <= t < k ==> lex_le(
                        entry_key(triples_of(rest@)[m as int], by_name),
                        entry_key(triples_of(rest@)[t], by_name),
                    ),
            decreases rest.len() - k,
        {
            let le = if by_name {
                str_le(rest[m].0.as_str(), rest[k].0.as_str())
            } else {
                str_le(rest[m].1.as_str(), rest[k].1.as_str())
            };
            if !le {
                proof {
                    lemma_lex_le_total(
                        entry_key(triples_of(rest@)[m as int], by_name),
                        entry_key(triples_of(rest@)[k as int], by_name),
                    );
                    assert forall|t: int| 0 <= t < k + 1 implies lex_le(
                        entry_key(triples_of(rest@)[k as int], by_name),
                        entry_key(triples_of(rest@)[t], by_name),
                    ) by {
                        if t == k {
                            lemma_lex_le_refl(entry_key(triples_of(rest@)[k as int], by_name));
                        }
                        if t < k {
                            lemma_lex_le_trans(
                                entry_key(triples_of(rest@)[k as int], by_name),
                                entry_key(triples_of(rest@)[m as int], by_name),
                                entry_key(triples_of(rest@)[t], by_name),
                            );
                        }
                    }
                }
                m = k;
            }
            k += 1;
        }
        let ghost pre_rest = triples_of(rest@);
        let ghost pre_out = triples_of(out@);
        let chosen = rest.remove(m);
        out.push(chosen);
        proof {
            pre_out.to_multiset_ensures();
            pre_rest.to_multiset_ensures();
            let cv = pre_rest[m as int];
            assert(triples_of(out@) =~= pre_out.push(cv));
            assert(triples_of(rest@) =~= pre_rest.remove(m as int));
            assert(pre_out.push(cv).to_multiset() =~= pre_out.to_multiset().insert(cv));
            assert(triples_of(out@).to_multiset() =~= pre_out.to_multiset().insert(cv));
            assert(pre_rest.remove(m as int).to_multiset() =~= pre_rest.to_multiset().remove(cv));
            assert(triples_of(rest@).to_multiset() =~= pre_rest.to_multiset().remove(cv));
            assert(pre_rest.to_multiset().count(cv) > 0) by {
                assert(pre_rest.contains(cv));
            }
            assert(triples_of(out@).to_multiset().add(triples_of(rest@).to_multiset())
                =~= pre_out.to_multiset().add(pre_rest.to_multiset()));
            // the selected key is the least of what was left
            assert forall|j: int, k2: int|
                0 <= j < triples_of(out@).len() && 0 <= k2 < triples_of(rest@).len() implies lex_le(
                entry_key(triples_of(out@)[j], by_name),
                entry_key(triples_of(rest@)[k2], by_name),
            ) by {
                let rv = triples_of(rest@)[k2];
                assert(rv == if k2 < m { pre_rest[k2] } else { pre_rest[k2 + 1] });
                if j < pre_out.len() {
                    assert(lex_le(entry_key(pre_out[j], by_name), entry_key(rv, by_name)));
                } else {
                    assert(triples_of(out@)[j] == cv);
                    assert(lex_le(entry_key(cv, by_name), entry_key(rv, by_name)));
                }
            }
            assert forall|i2: int, j2: int|
                0 <= i2 < j2 < triples_of(out@).len() implies lex_le(
                entry_key(triples_of(out@)[i2], by_name),
                entry_key(triples_of(out@)[j2], by_name),
            ) by {
                if j2 == pre_out.len() {
                    assert(lex_le(entry_key(pre_out[i2], by_name), entry_key(cv, by_name)));
                }
            }
        }
    }
    proof {
        assert(triples_of(rest@).to_multiset() =~= Multiset::<
            (Seq<char>, Seq<char>, bool),
        >::empty());
        assert(triples_of(out@).to_multiset() =~= orig.to_multiset());
    }
    out
}

impl Config {
    /// The filtered, sorted project listing: entries (name, path, favorite)
    /// whose name or path contains the filter case-insensitively, narrowed
    /// to favorites or recent entries on request, sorted ascending by name
    /// or path; any other sort key keeps the input order.
    pub fn list_projects(&self, args: &LsArgs) -> (out: Vec<(String, String, bool)>)
        requires
            self.wf(),
        ensures
            ({
                let filt = match args.filter {
                    Some(f) => Some(f@),
                    None => None,
                };
                let base = kept_entries(*self, self.proj_pairs(), filt, args.favorites, args.recent);
                if args.sort@ == "name"@ {
                    sorted_by(triples_of(out@), true) && triples_of(out@).to_multiset()
                        == base.to_multiset()
                } else if args.sort@ == "path"@ {
                    sorted_by(triples_of(out@), false) && triples_of(out@).to_multiset()
                        == base.to_multiset()
                } else {
                    triples_of(out@) == base
                }
            }),
    {
        let ghost filt = match &args.filter {
            Some(f) => Some(f@),
            None => None,
        };
        let filter_low = match &args.filter {
            Some(f) => Some(lowercase(f.as_str())),
            None => None,
        };
        let ghost pp = self.proj_pairs();
        let mut picked: Vec<(String, String, bool)> = Vec::new();
        let mut i: usize = 0;
        proof {
            assert(triples_of(picked@) =~= kept_entries(
                *self,
                pp.take(0),
                filt,
                args.favorites,
                args.recent,
            ));
        }
        while i < self.projects.len()
            invariant
                i <= self.projects.len(),
                self.wf(),
                pp == self.proj_pairs(),
                filt == match args.filter {
                    Some(f) => Some(f@),
                    None => None,
                },
                match (filter_low, args.filter) {
                    (Some(fl), Some(f)) => fl@ == lower_of(f@),
                    (None, None) => true,
                    _ => false,
                },
                triples_of(picked@) == kept_entries(
                    *self,
                    pp.take(i as int),
                    filt,
                    args.favorites,
                    args.recent,
                ),
            decreases self.projects.len() - i,
        {
            proof {
                lemma_kept_entries_step(*self, pp, filt, args.favorites, args.recent, i as int);
            }
            let name_ok_filter = match &filter_low {
                Some(fl) => {
                    let name_low = lowercase(self.projects[i].0.as_str());
                    let path_low = lowercase(self.projects[i].1.as_str());
                    contains_sub(name_low.as_str(), fl.as_str()) || contains_sub(
                        path_low.as_str(),
                        fl.as_str(),
                    )
                },
                None => true,
            };
            let fav = self.is_favorite(self.projects[i].0.as_str());
            let keep = name_ok_filter && (!args.favorites || fav) && (!args.recent
                || self.is_recent(self.projects[i].0.as_str()));
            proof {
                assert(keep == entry_keeps(*self, pp[i as int], filt, args.favorites, args.recent));
            }
            if keep {
                let entry = (self.projects[i].0.clone(), self.projects[i].1.clone(), fav);
                picked.push(entry);
                proof {
                    assert(triples_of(picked@) =~= kept_entries(
                        *self,
                        pp.take(i as int),
                        filt,
                        args.favorites,
                        args.recent,
                    ).push((pp[i as int].0, pp[i as int].1, self.is_fav(pp[i as int].0))));
                }
            }
            i += 1;
        }
        proof {
            assert(pp.take(pp.len() as int) =~= pp);
        }
        let key_name = String::from_str("name");
        let key_path = String::from_str("path");
        if args.sort == key_name {
            sort_entries(picked, true)
        } else if args.sort == key_path {
            sort_entries(picked, false)
        } else {
            picked
        }
    }
}

} // verus!
