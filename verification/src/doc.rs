//! The persisted form of the registry: the document a store reads and
//! writes. Optional fields default to empty on load, so documents written
//! before those fields existed still load.

use vstd::prelude::*;
use crate::config::{Config, RECENT_LIMIT, names_of, pairs_of};
use crate::model::{
    upsert_all, dedup_first, clip, lemma_upsert_all_step, lemma_upsert_all_keys_unique,
    lemma_dedup_first_step, lemma_dedup_first, lemma_clip_no_dups,
};

verus! {

/// The registry document: what is persisted, field for field. `favorites`
/// and `recent` are optional in older documents.
pub struct ConfigDoc {
    pub goto_path: Option<String>,
    pub projects: Vec<(String, String)>,
    pub favorites: Option<Vec<String>>,
    pub recent: Option<Vec<String>>,
}

impl ConfigDoc {
    /// The favorites field, empty when missing.
    pub open spec fn favs_seq(self) -> Seq<Seq<char>> {
        match self.favorites {
            Some(v) => names_of(v@),
            None => Seq::empty(),
        }
    }

    /// The recent field, empty when missing.
    pub open spec fn recent_seq(self) -> Seq<Seq<char>> {
        match self.recent {
            Some(v) => names_of(v@),
            None => Seq::empty(),
        }
    }

    /// The go-to field, as a view.
    pub open spec fn goto_view(self) -> Option<Seq<char>> {
        match self.goto_path {
            Some(p) => Some(p@),
            None => None,
        }
    }
}

/// Whether a name occurs in a vector of names.
fn vec_contains_name(v: &Vec<String>, n: &String) -> (r: bool)
    ensures
        r == names_of(v@).contains(n@),
{
    let mut i: usize = 0;
    while i < v.len()
        invariant
            i <= v.len(),
            forall|k: int| 0 <= k < i ==> names_of(v@)[k] != n@,
        decreases v.len() - i,
    {
        if v[i] == *n {
            proof {
                assert(names_of(v@)[i as int] == n@);
            }
            return true;
        }
        i += 1;
    }
    proof {
        if names_of(v@).contains(n@) {
            let w = choose|w: int| 0 <= w < names_of(v@).len() && names_of(v@)[w] == n@;
            assert(names_of(v@)[w] != n@);
        }
    }
    false
}

impl Config {
    /// Build a registry from a loaded document. Missing `favorites` or
    /// `recent` default to empty; duplicate project names keep the last
    /// path, duplicate favorite or recent names keep the first occurrence,
    /// and the recent history is cut to its capacity, so that the registry
    /// invariants hold whatever the document held. A well-formed document
    /// comes back unchanged.
    pub fn from_doc(doc: ConfigDoc) -> (c: Config)
        ensures
            c.wf(),
            c.proj_pairs() == upsert_all(pairs_of(doc.projects@)),
            c.fav_names() == dedup_first(doc.favs_seq()),
            c.recent_names() == clip(dedup_first(doc.recent_seq()), RECENT_LIMIT as int),
            c.goto_view() == doc.goto_view(),
    {
        let ConfigDoc { goto_path, projects, favorites, recent } = doc;
        let mut c = Config::new();
        c.goto_path = goto_path;
        // projects: insert front to back, the last occurrence of a name wins
        let ghost pp = pairs_of(projects@);
        let mut i: usize = 0;
        while i < projects.len()
            invariant
                i <= projects.len(),
                c.wf(),
                pp == pairs_of(projects@),
                c.proj_pairs() == upsert_all(pp.take(i as int)),
                c.favorites@ =~= Seq::<String>::empty(),
                c.recent@ =~= Seq::<String>::empty(),
                c.goto_path == doc.goto_path,
            decreases projects.len() - i,
        {
            c.add_project(projects[i].0.as_str(), projects[i].1.as_str());
            proof {
                lemma_upsert_all_step(pp, i as int);
            }
            i += 1;
        }
        proof {
            assert(pp.take(pp.len() as int) =~= pp);
        }
        // favorites: keep the first occurrence of each name
        match favorites {
            Some(favs) => {
                let ghost fv = names_of(favs@);
                let mut out: Vec<String> = Vec::new();
                let mut i: usize = 0;
                while i < favs.len()
                    invariant
                        i <= favs.len(),
                        fv == names_of(favs@),
                        names_of(out@) == dedup_first(fv.take(i as int)),
                    decreases favs.len() - i,
                {
                    proof {
                        lemma_dedup_first_step(fv, i as int);
                    }
                    if !vec_contains_name(&out, &favs[i]) {
                        let entry = favs[i].clone();
                        out.push(entry);
                        proof {
                            assert(names_of(out@) =~= dedup_first(fv.take(i as int)).push(
                                fv[i as int],
                            ));
                        }
                    }
                    i += 1;
                }
                proof {
                    assert(fv.take(fv.len() as int) =~= fv);
                }
                c.favorites = out;
            },
            None => {
                proof {
                    assert(dedup_first(Seq::<Seq<char>>::empty()) =~= Seq::<Seq<char>>::empty());
                }
            },
        }
        // recent: keep the first occurrence of each name, capacity kept
        match recent {
            Some(rec) => {
                let ghost rv = names_of(rec@);
                let mut out: Vec<String> = Vec::new();
                let mut i: usize = 0;
                while i < rec.len()
                    invariant
                        i <= rec.len(),
                        rv == names_of(rec@),
                        names_of(out@) == clip(dedup_first(rv.take(i as int)), RECENT_LIMIT as int),
                    decreases rec.len() - i,
                {
                    proof {
                        lemma_dedup_first_step(rv, i as int);
                        lemma_dedup_first(rv.take(i as int));
                    }
                    let ghost d = dedup_first(rv.take(i as int));
                    if out.len() < RECENT_LIMIT {
                        proof {
                            assert(clip(d, RECENT_LIMIT as int).len() < RECENT_LIMIT);
                            assert(d.len() < RECENT_LIMIT);
                            assert(names_of(out@) == d);
                        }
                        if !vec_contains_name(&out, &rec[i]) {
                            let entry = rec[i].clone();
                            out.push(entry);
                            proof {
                                assert(names_of(out@) =~= clip(
                                    d.push(rv[i as int]),
                                    RECENT_LIMIT as int,
                                ));
                            }
                        }
                    } else {
                        proof {
                            assert(d.len() >= RECENT_LIMIT);
                            if !d.contains(rv[i as int]) {
                                assert(clip(d.push(rv[i as int]), RECENT_LIMIT as int) =~= clip(
                                    d,
                                    RECENT_LIMIT as int,
                                ));
                            }
                        }
                    }
                    i += 1;
                }
                proof {
                    assert(rv.take(rv.len() as int) =~= rv);
                }
                c.recent = out;
            },
            None => {
                proof {
                    assert(dedup_first(Seq::<Seq<char>>::empty()) =~= Seq::<Seq<char>>::empty());
                    assert(clip(Seq::<Seq<char>>::empty(), RECENT_LIMIT as int)
                        =~= Seq::<Seq<char>>::empty());
                }
            },
        }
        proof {
            lemma_upsert_all_keys_unique(pairs_of(doc.projects@));
            lemma_dedup_first(doc.favs_seq());
            lemma_dedup_first(doc.recent_seq());
            lemma_clip_no_dups(dedup_first(doc.recent_seq()), RECENT_LIMIT as int);
        }
        c
    }

    /// Write the registry out as a document, field for field.
    pub fn to_doc(&self) -> (d: ConfigDoc)
        ensures
            pairs_of(d.projects@) == self.proj_pairs(),
            d.favs_seq() == self.fav_names(),
            d.recent_seq() == self.recent_names(),
            d.goto_view() == self.goto_view(),
    {
        let goto_path = match &self.goto_path {
            Some(p) => Some(p.clone()),
            None => None,
        };
        let mut projects: Vec<(String, String)> = Vec::new();
        let mut i: usize = 0;
        while i < self.projects.len()
            invariant
                i <= self.projects.len(),
                projects@ =~= self.projects@.take(i as int),
            decreases self.projects.len() - i,
        {
            let entry = (self.projects[i].0.clone(), self.projects[i].1.clone());
            projects.push(entry);
            proof {
                assert(projects@ =~= self.projects@.take(i as int + 1));
            }
            i += 1;
        }
        let mut favorites: Vec<String> = Vec::new();
        let mut i: usize = 0;
        while i < self.favorites.len()
            invariant
                i <= self.favorites.len(),
                favorites@ =~= self.favorites@.take(i as int),
            decreases self.favorites.len() - i,
        {
            let entry = self.favorites[i].clone();
            favorites.push(entry);
            proof {
                assert(favorites@ =~= self.favorites@.take(i as int + 1));
            }
            i += 1;
        }
        let mut recent: Vec<String> = Vec::new();
        let mut i: usize = 0;
        while i < self.recent.len()
            invariant
                i <= self.recent.len(),
                recent@ =~= self.recent@.take(i as int),
            decreases self.recent.len() - i,
        {
            let entry = self.recent[i].clone();
            recent.push(entry);
            proof {
                assert(recent@ =~= self.recent@.take(i as int + 1));
            }
            i += 1;
        }
        proof {
            assert(self.projects@.take(self.projects@.len() as int) =~= self.projects@);
            assert(self.favorites@.take(self.favorites@.len() as int) =~= self.favorites@);
            assert(self.recent@.take(self.recent@.len() as int) =~= self.recent@);
        }
        ConfigDoc { goto_path, projects, favorites: Some(favorites), recent: Some(recent) }
    }
}

} // verus!
