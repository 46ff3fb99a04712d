//! The registry itself: a mapping from project names to paths, a favorites
//! set, a bounded most-recent-first history, and the pending go-to path.

use vstd::prelude::*;
use crate::model::{
    remove_name, clip, record_recent_spec, has_key, key_at, val_of, upsert, remove_key, no_dups,
    keys_unique, lemma_contains_push, lemma_remove_name, lemma_record_recent,
    lemma_upsert, lemma_key_pinned, lemma_remove_key, merge_recent_spec, lemma_merge_recent_step,
    lemma_take_push, lemma_has_key_push, resolved_recent, lemma_resolved_recent_step,
};

verus! {

/// Capacity of the recent history.
pub const RECENT_LIMIT: usize = 10;

/// Errors the registry and its store can surface.
#[derive(Clone, Copy, Debug, PartialEq, Eq, Structural)]
pub enum RegistryError {
    /// A referenced project name does not exist.
    NotFound,
    /// The persisted document could not be parsed into a registry.
    CorruptState,
    /// The home location could not be resolved.
    Environment,
    /// Reading or writing the backing location failed.
    Io,
}

/// The views of a sequence of names.
pub open spec fn names_of(s: Seq<String>) -> Seq<Seq<char>> {
    s.map_values(|x: String| x@)
}

/// The views of a sequence of (name, path) pairs.
pub open spec fn pairs_of(s: Seq<(String, String)>) -> Seq<(Seq<char>, Seq<char>)> {
    s.map_values(|p: (String, String)| (p.0@, p.1@))
}

/// The in-memory registry.
pub struct Config {
    /// The pending go-to path, if a go operation resolved one.
    pub goto_path: Option<String>,
    /// Name-to-path mapping, keys unique.
    pub projects: Vec<(String, String)>,
    /// Favorite project names, no duplicates, insertion order.
    pub favorites: Vec<String>,
    /// Most-recently-used project names, front first, at most `RECENT_LIMIT`.
    pub recent: Vec<String>,
}

impl Config {
    /// The mapping, as a sequence of (name, path) views.
    pub open spec fn proj_pairs(self) -> Seq<(Seq<char>, Seq<char>)> {
        pairs_of(self.projects@)
    }

    /// The favorite names, as views.
    pub open spec fn fav_names(self) -> Seq<Seq<char>> {
        names_of(self.favorites@)
    }

    /// The recent names, as views, most recent first.
    pub open spec fn recent_names(self) -> Seq<Seq<char>> {
        names_of(self.recent@)
    }

    /// The pending go-to path, as a view.
    pub open spec fn goto_view(self) -> Option<Seq<char>> {
        match self.goto_path {
            Some(p) => Some(p@),
            None => None,
        }
    }

    /// Whether a project of this name exists.
    pub open spec fn has_project(self, name: Seq<char>) -> bool {
        has_key(self.proj_pairs(), name)
    }

    /// The path mapped to a name (meaningful only when `has_project`).
    pub open spec fn path_of(self, name: Seq<char>) -> Seq<char> {
        val_of(self.proj_pairs(), name)
    }

    /// Whether a name is marked favorite.
    pub open spec fn is_fav(self, name: Seq<char>) -> bool {
        self.fav_names().contains(name)
    }

    /// Whether a name is in the recent history.
    pub open spec fn in_recent(self, name: Seq<char>) -> bool {
        self.recent_names().contains(name)
    }

    /// The invariants every operation preserves.
    pub open spec fn wf(self) -> bool {
        &&& keys_unique(self.proj_pairs())
        &&& no_dups(self.fav_names())
        &&& no_dups(self.recent_names())
        &&& self.recent_names().len() <= RECENT_LIMIT
    }

    /// An empty registry: no projects, no favorites, no history, no go-to.
    pub fn new() -> (c: Config)
        ensures
            c.wf(),
            c.proj_pairs() == Seq::<(Seq<char>, Seq<char>)>::empty(),
            c.fav_names() == Seq::<Seq<char>>::empty(),
            c.recent_names() == Seq::<Seq<char>>::empty(),
            c.goto_view() == Option::<Seq<char>>::None,
    {
        let c = Config {
            goto_path: None,
            projects: Vec::new(),
            favorites: Vec::new(),
            recent: Vec::new(),
        };
        proof {
            assert(c.proj_pairs() =~= Seq::<(Seq<char>, Seq<char>)>::empty());
            assert(c.fav_names() =~= Seq::<Seq<char>>::empty());
            assert(c.recent_names() =~= Seq::<Seq<char>>::empty());
        }
        c
    }

    /// Whether `name` is currently marked favorite.
    pub fn is_favorite(&self, name: &str) -> (r: bool)
        ensures
            r == self.is_fav(name@),
    {
        let n: String = name.to_owned();
        let mut i: usize = 0;
        while i < self.favorites.len()
            invariant
                i <= self.favorites.len(),
                n@ == name@,
                forall|k: int| 0 <= k < i ==> self.fav_names()[k] != name@,
            decreases self.favorites.len() - i,
        {
            if self.favorites[i] == n {
                proof {
                    assert(self.fav_names()[i as int] == name@);
                }
                return true;
            }
            i += 1;
        }
        proof {
            if self.is_fav(name@) {
                let w = choose|w: int|
                    0 <= w < self.fav_names().len() && self.fav_names()[w] == name@;
                assert(self.fav_names()[w] != name@);
            }
        }
        false
    }

    /// Whether `name` is currently in the recent history.
    pub fn is_recent(&self, name: &str) -> (r: bool)
        ensures
            r == self.in_recent(name@),
    {
        let n: String = name.to_owned();
        let mut i: usize = 0;
        while i < self.recent.len()
            invariant
                i <= self.recent.len(),
                n@ == name@,
                forall|k: int| 0 <= k < i ==> self.recent_names()[k] != name@,
            decreases self.recent.len() - i,
        {
            if self.recent[i] == n {
                proof {
                    assert(self.recent_names()[i as int] == name@);
                }
                return true;
            }
            i += 1;
        }
        proof {
            if self.in_recent(name@) {
                let w = choose|w: int|
                    0 <= w < self.recent_names().len() && self.recent_names()[w] == name@;
                assert(self.recent_names()[w] != name@);
            }
        }
        false
    }

    /// The index of the project named `name`, if any.
    fn find_project_idx(&self, name: &String) -> (r: Option<usize>)
        ensures
            match r {
                Some(i) => 0 <= i < self.projects.len() && self.proj_pairs()[i as int].0 == name@,
                None => !self.has_project(name@),
            },
    {
        let mut i: usize = 0;
        while i < self.projects.len()
            invariant
                i <= self.projects.len(),
                forall|k: int| 0 <= k < i ==> self.proj_pairs()[k].0 != name@,
            decreases self.projects.len() - i,
        {
            if self.projects[i].0 == *name {
                return Some(i);
            }
            i += 1;
        }
        proof {
            if self.has_project(name@) {
                let w = choose|w: int|
                    0 <= w < self.proj_pairs().len() && self.proj_pairs()[w].0 == name@;
                assert(self.proj_pairs()[w].0 != name@);
            }
        }
        None
    }

    /// Whether a project of this name exists.
    pub fn contains_project(&self, name: &str) -> (r: bool)
        ensures
            r == self.has_project(name@),
    {
        let n: String = name.to_owned();
        self.find_project_idx(&n).is_some()
    }

    /// The path of the project named `name`, if any.
    pub fn get_path(&self, name: &str) -> (r: Option<String>)
        requires
            self.wf(),
        ensures
            match r {
                Some(p) => self.has_project(name@) && p@ == self.path_of(name@),
                None => !self.has_project(name@),
            },
    {
        let n: String = name.to_owned();
        match self.find_project_idx(&n) {
            Some(i) => {
                let p = self.projects[i].1.clone();
                proof {
                    lemma_key_pinned(self.proj_pairs(), name@, i as int);
                }
                Some(p)
            },
            None => None,
        }
    }

    /// Insert or overwrite the mapping `name -> path`. Favorite and recent
    /// status of the name are untouched.
    pub fn add_project(&mut self, name: &str, path: &str)
        requires
            old(self).wf(),
        ensures
            final(self).wf(),
            final(self).proj_pairs() == upsert(old(self).proj_pairs(), name@, path@),
            final(self).has_project(name@),
            final(self).path_of(name@) == path@,
            forall|k: Seq<char>|
                k != name@ ==> (final(self).has_project(k) <==> old(self).has_project(k)),
            forall|k: Seq<char>|
                k != name@ && old(self).has_project(k) ==> final(self).path_of(k) == old(self).path_of(k),
            !old(self).has_project(name@) ==> final(self).proj_pairs() == old(self).proj_pairs().push((name@, path@)),
            final(self).favorites == old(self).favorites,
            final(self).recent == old(self).recent,
            final(self).goto_path == old(self).goto_path,
    {
        let n: String = name.to_owned();
        let p: String = path.to_owned();
        proof {
            lemma_upsert(old(self).proj_pairs(), name@, path@);
        }
        match self.find_project_idx(&n) {
            Some(i) => {
                self.projects.remove(i);
                self.projects.insert(i, (n, p));
                proof {
                    lemma_key_pinned(old(self).proj_pairs(), name@, i as int);
                    assert(self.proj_pairs() =~= old(self).proj_pairs().update(
                        i as int,
                        (name@, path@),
                    ));
                }
            },
            None => {
                self.projects.push((n, p));
                proof {
                    assert(self.proj_pairs() =~= old(self).proj_pairs().push(
                        (name@, path@),
                    ));
                }
            },
        }
    }

    /// Delete the mapping if present, and drop the name from the favorites.
    /// The recent history keeps any entry for the name, by design.
    pub fn remove_project(&mut self, name: &str)
        requires
            old(self).wf(),
        ensures
            final(self).wf(),
            final(self).proj_pairs() == remove_key(old(self).proj_pairs(), name@),
            !final(self).has_project(name@),
            forall|k: Seq<char>|
                k != name@ ==> (final(self).has_project(k) <==> old(self).has_project(k)),
            forall|k: Seq<char>|
                k != name@ && old(self).has_project(k) ==> final(self).path_of(k) == old(self).path_of(k),
            final(self).fav_names() == remove_name(old(self).fav_names(), name@),
            !final(self).is_fav(name@),
            forall|m: Seq<char>| m != name@ ==> (final(self).is_fav(m) <==> old(self).is_fav(m)),
            final(self).recent == old(self).recent,
            final(self).goto_path == old(self).goto_path,
    {
        let n: String = name.to_owned();
        let ghost orig = old(self).proj_pairs();
        let mut kept: Vec<(String, String)> = Vec::new();
        let mut i: usize = 0;
        while i < self.projects.len()
            invariant
                i <= self.projects.len(),
                n@ == name@,
                self == old(self),
                orig == old(self).proj_pairs(),
                pairs_of(kept@) == remove_key(orig.take(i as int), name@),
            decreases self.projects.len() - i,
        {
            proof {
                lemma_remove_key_step(orig, name@, i as int);
            }
            if self.projects[i].0 == n {
                // dropped
            } else {
                let entry = (self.projects[i].0.clone(), self.projects[i].1.clone());
                kept.push(entry);
                proof {
                    assert(pairs_of(kept@) =~= remove_key(orig.take(i as int), name@).push(
                        orig[i as int],
                    ));
                }
            }
            i += 1;
        }
        proof {
            assert(orig.take(orig.len() as int) =~= orig);
        }
        self.projects = kept;
        self.set_favorite_raw(name, false);
        proof {
            lemma_remove_key(orig, name@);
            lemma_remove_name(old(self).fav_names(), name@);
        }
    }

    /// Mark (`is_fav` true) or unmark (`is_fav` false) a name as favorite,
    /// unconditionally: no check that the project exists.
    pub fn set_favorite(&mut self, name: &str, is_fav: bool)
        requires
            old(self).wf(),
        ensures
            final(self).wf(),
            final(self).fav_names() == if is_fav {
                remove_name(old(self).fav_names(), name@).push(name@)
            } else {
                remove_name(old(self).fav_names(), name@)
            },
            final(self).is_fav(name@) == is_fav,
            forall|m: Seq<char>| m != name@ ==> (final(self).is_fav(m) <==> old(self).is_fav(m)),
            final(self).projects == old(self).projects,
            final(self).recent == old(self).recent,
            final(self).goto_path == old(self).goto_path,
    {
        self.set_favorite_raw(name, is_fav);
        proof {
            lemma_remove_name(old(self).fav_names(), name@);
        }
    }

    /// The favorites update itself, with only the sequence-level contract.
    fn set_favorite_raw(&mut self, name: &str, is_fav: bool)
        ensures
            final(self).fav_names() == if is_fav {
                remove_name(old(self).fav_names(), name@).push(name@)
            } else {
                remove_name(old(self).fav_names(), name@)
            },
            is_fav ==> final(self).is_fav(name@),
            !is_fav ==> !final(self).is_fav(name@),
            forall|m: Seq<char>| m != name@ ==> (final(self).is_fav(m) <==> old(self).is_fav(m)),
            no_dups(old(self).fav_names()) ==> no_dups(final(self).fav_names()),
            final(self).projects == old(self).projects,
            final(self).recent == old(self).recent,
            final(self).goto_path == old(self).goto_path,
    {
        let n: String = name.to_owned();
        let ghost orig = old(self).fav_names();
        let mut kept: Vec<String> = Vec::new();
        let mut i: usize = 0;
        while i < self.favorites.len()
            invariant
                i <= self.favorites.len(),
                n@ == name@,
                self == old(self),
                orig == old(self).fav_names(),
                names_of(kept@) == remove_name(orig.take(i as int), name@),
            decreases self.favorites.len() - i,
        {
            proof {
                lemma_remove_name_step(orig, name@, i as int);
            }
            if self.favorites[i] == n {
                // dropped
            } else {
                let entry = self.favorites[i].clone();
                kept.push(entry);
                proof {
                    assert(names_of(kept@) =~= remove_name(orig.take(i as int), name@).push(
                        orig[i as int],
                    ));
                }
            }
            i += 1;
        }
        proof {
            assert(orig.take(orig.len() as int) =~= orig);
        }
        if is_fav {
            kept.push(n);
            proof {
                assert(names_of(kept@) =~= remove_name(orig, name@).push(name@));
            }
        }
        self.favorites = kept;
        proof {
            lemma_remove_name(orig, name@);
            let now = self.fav_names();
            if is_fav {
                assert(now[now.len() - 1] == name@);
                assert forall|m: Seq<char>| m != name@ implies (self.is_fav(m) <==> old(self).is_fav(m)) by {
                    lemma_contains_push(remove_name(orig, name@), name@, m);
                }
                if no_dups(orig) {
                    assert(!remove_name(orig, name@).contains(name@));
                    assert forall|i2: int, j2: int| 0 <= i2 < j2 < now.len() implies now[i2]
                        != now[j2] by {
                        if j2 == now.len() - 1 {
                            assert(remove_name(orig, name@).contains(now[i2]));
                        }
                    }
                }
            } else {
                assert(self.fav_names() == remove_name(orig, name@));
                assert(!remove_name(orig, name@).contains(name@));
            }
        }
    }

    /// Mark or unmark a favorite through the checked command: marking a
    /// missing project is refused, unmarking is unconditional.
    pub fn set_favorite_checked(&mut self, name: &str, is_fav: bool) -> (r: Result<
        (),
        RegistryError,
    >)
        requires
            old(self).wf(),
        ensures
            final(self).wf(),
            match r {
                Ok(()) => {
                    &&& (is_fav ==> old(self).has_project(name@))
                    &&& final(self).fav_names() == if is_fav {
                        remove_name(old(self).fav_names(), name@).push(name@)
                    } else {
                        remove_name(old(self).fav_names(), name@)
                    }
                    &&& final(self).is_fav(name@) == is_fav
                    &&& forall|m: Seq<char>|
                        m != name@ ==> (final(self).is_fav(m) <==> old(self).is_fav(m))
                    &&& final(self).projects == old(self).projects
                    &&& final(self).recent == old(self).recent
                    &&& final(self).goto_path == old(self).goto_path
                },
                Err(e) => {
                    &&& e == RegistryError::NotFound
                    &&& is_fav
                    &&& !old(self).has_project(name@)
                    &&& *final(self) == *old(self)
                },
            },
    {
        if is_fav && !self.contains_project(name) {
            return Err(RegistryError::NotFound);
        }
        self.set_favorite(name, is_fav);
        Ok(())
    }

    /// Record a use of `name`: drop older occurrences, put it in front, keep
    /// at most `RECENT_LIMIT` entries.
    pub fn add_recent(&mut self, name: &str)
        requires
            old(self).wf(),
        ensures
            final(self).wf(),
            final(self).recent_names() == record_recent_spec(
                old(self).recent_names(),
                name@,
                RECENT_LIMIT as int,
            ),
            final(self).in_recent(name@),
            final(self).recent_names()[0] == name@,
            final(self).projects == old(self).projects,
            final(self).favorites == old(self).favorites,
            final(self).goto_path == old(self).goto_path,
    {
        let n: String = name.to_owned();
        let ghost orig = old(self).recent_names();
        let mut out: Vec<String> = Vec::new();
        out.push(n.clone());
        proof {
            assert(names_of(out@) =~= clip(
                seq![name@] + remove_name(orig.take(0), name@),
                RECENT_LIMIT as int,
            ));
        }
        let mut i: usize = 0;
        while i < self.recent.len()
            invariant
                i <= self.recent.len(),
                n@ == name@,
                self == old(self),
                orig == old(self).recent_names(),
                out.len() >= 1,
                names_of(out@) == clip(
                    seq![name@] + remove_name(orig.take(i as int), name@),
                    RECENT_LIMIT as int,
                ),
            decreases self.recent.len() - i,
        {
            proof {
                lemma_remove_name_step(orig, name@, i as int);
            }
            let ghost pre = seq![name@] + remove_name(orig.take(i as int), name@);
            let ghost post = seq![name@] + remove_name(orig.take(i as int + 1), name@);
            if self.recent[i] == n {
                proof {
                    assert(post =~= pre);
                }
            } else {
                proof {
                    assert(post =~= pre.push(orig[i as int]));
                }
                if out.len() < RECENT_LIMIT {
                    proof {
                        assert(clip(pre, RECENT_LIMIT as int).len() < RECENT_LIMIT);
                        assert(pre.len() < RECENT_LIMIT);
                    }
                    let entry = self.recent[i].clone();
                    out.push(entry);
                    proof {
                        assert(names_of(out@) =~= clip(post, RECENT_LIMIT as int));
                    }
                } else {
                    proof {
                        assert(pre.len() >= RECENT_LIMIT);
                        assert(clip(post, RECENT_LIMIT as int) =~= clip(pre, RECENT_LIMIT as int));
                    }
                }
            }
            i += 1;
        }
        proof {
            assert(orig.take(orig.len() as int) =~= orig);
        }
        self.recent = out;
        proof {
            lemma_record_recent(orig, name@, RECENT_LIMIT as int);
            assert(self.recent_names().contains(name@)) by {
                assert(self.recent_names()[0] == name@);
            }
        }
    }

    /// Move the mapping of `old_name` to `new_name`. The favorite mark of
    /// `old_name` is dropped, not carried over; the recent history keeps any
    /// entry for `old_name`.
    pub fn rename_project(&mut self, old_name: &str, new_name: &str) -> (r: Result<
        (),
        RegistryError,
    >)
        requires
            old(self).wf(),
        ensures
            final(self).wf(),
            match r {
                Ok(()) => {
                    &&& old(self).has_project(old_name@)
                    &&& final(self).proj_pairs() == upsert(
                        remove_key(old(self).proj_pairs(), old_name@),
                        new_name@,
                        old(self).path_of(old_name@),
                    )
                    &&& final(self).has_project(new_name@)
                    &&& final(self).path_of(new_name@) == old(self).path_of(old_name@)
                    &&& (old_name@ != new_name@ ==> !final(self).has_project(old_name@))
                    &&& forall|k: Seq<char>|
                        k != old_name@ && k != new_name@ ==> (final(self).has_project(k) <==> old(self).has_project(k))
                    &&& forall|k: Seq<char>|
                        k != old_name@ && k != new_name@ && old(self).has_project(k) ==> final(self).path_of(k) == old(self).path_of(k)
                    &&& final(self).fav_names() == remove_name(old(self).fav_names(), old_name@)
                    &&& !final(self).is_fav(old_name@)
                    &&& forall|m: Seq<char>|
                        m != old_name@ ==> (final(self).is_fav(m) <==> old(self).is_fav(m))
                    &&& final(self).recent == old(self).recent
                    &&& final(self).goto_path == old(self).goto_path
                },
                Err(e) => {
                    &&& e == RegistryError::NotFound
                    &&& !old(self).has_project(old_name@)
                    &&& *final(self) == *old(self)
                },
            },
    {
        let path = match self.get_path(old_name) {
            Some(p) => p,
            None => {
                return Err(RegistryError::NotFound);
            },
        };
        self.remove_project(old_name);
        self.add_project(new_name, path.as_str());
        proof {
            lemma_remove_key(old(self).proj_pairs(), old_name@);
            lemma_upsert(
                remove_key(old(self).proj_pairs(), old_name@),
                new_name@,
                old(self).path_of(old_name@),
            );
        }
        Ok(())
    }

    /// Resolve a project's path, remember it as the pending go-to path, and
    /// record the visit in the recent history.
    pub fn resolve_goto(&mut self, name: &str) -> (r: Result<String, RegistryError>)
        requires
            old(self).wf(),
        ensures
            final(self).wf(),
            match r {
                Ok(p) => {
                    &&& old(self).has_project(name@)
                    &&& p@ == old(self).path_of(name@)
                    &&& final(self).goto_view() == Some(p@)
                    &&& final(self).recent_names() == record_recent_spec(
                        old(self).recent_names(),
                        name@,
                        RECENT_LIMIT as int,
                    )
                    &&& final(self).projects == old(self).projects
                    &&& final(self).favorites == old(self).favorites
                },
                Err(e) => {
                    &&& e == RegistryError::NotFound
                    &&& !old(self).has_project(name@)
                    &&& *final(self) == *old(self)
                },
            },
    {
        let path = match self.get_path(name) {
            Some(p) => p,
            None => {
                return Err(RegistryError::NotFound);
            },
        };
        self.goto_path = Some(path.clone());
        self.add_recent(name);
        Ok(path)
    }

    /// Resolve a project's path and record the visit, without touching the
    /// pending go-to path (what opening a project in an editor needs).
    pub fn open_project(&mut self, name: &str) -> (r: Result<String, RegistryError>)
        requires
            old(self).wf(),
        ensures
            final(self).wf(),
            match r {
                Ok(p) => {
                    &&& old(self).has_project(name@)
                    &&& p@ == old(self).path_of(name@)
                    &&& final(self).recent_names() == record_recent_spec(
                        old(self).recent_names(),
                        name@,
                        RECENT_LIMIT as int,
                    )
                    &&& final(self).projects == old(self).projects
                    &&& final(self).favorites == old(self).favorites
                    &&& final(self).goto_path == old(self).goto_path
                },
                Err(e) => {
                    &&& e == RegistryError::NotFound
                    &&& !old(self).has_project(name@)
                    &&& *final(self) == *old(self)
                },
            },
    {
        let path = match self.get_path(name) {
            Some(p) => p,
            None => {
                return Err(RegistryError::NotFound);
            },
        };
        self.add_recent(name);
        Ok(path)
    }
}

impl Config {
    /// Merge an imported registry into this one: incoming projects win on
    /// name collisions, incoming favorites are added, incoming recent entries
    /// are replayed front to back, and the go-to path is never merged.
    pub fn merge_from(&mut self, incoming: &Config)
        requires
            old(self).wf(),
            incoming.wf(),
        ensures
            final(self).wf(),
            forall|k: Seq<char>|
                final(self).has_project(k) <==> (old(self).has_project(k)
                    || incoming.has_project(k)),
            forall|k: Seq<char>|
                incoming.has_project(k) ==> final(self).path_of(k) == incoming.path_of(k),
            forall|k: Seq<char>|
                !incoming.has_project(k) && old(self).has_project(k) ==> final(self).path_of(k)
                    == old(self).path_of(k),
            forall|m: Seq<char>|
                final(self).is_fav(m) <==> (old(self).is_fav(m) || incoming.is_fav(m)),
            final(self).recent_names() == merge_recent_spec(
                old(self).recent_names(),
                incoming.recent_names(),
                RECENT_LIMIT as int,
            ),
            final(self).goto_path == old(self).goto_path,
    {
        let ghost orig = *old(self);
        let ghost ip = incoming.proj_pairs();
        // 1. projects: incoming wins
        let mut i: usize = 0;
        while i < incoming.projects.len()
            invariant
                i <= incoming.projects.len(),
                self.wf(),
                incoming.wf(),
                orig.wf(),
                ip == incoming.proj_pairs(),
                forall|j: int|
                    0 <= j < i ==> self.has_project(ip[j].0) && self.path_of(ip[j].0) == ip[j].1,
                forall|k: Seq<char>|
                    !has_key(ip.take(i as int), k) ==> (self.has_project(k) <==> orig.has_project(
                        k,
                    )),
                forall|k: Seq<char>|
                    !has_key(ip.take(i as int), k) && orig.has_project(k) ==> self.path_of(k)
                        == orig.path_of(k),
                self.favorites == orig.favorites,
                self.recent == orig.recent,
                self.goto_path == orig.goto_path,
            decreases incoming.projects.len() - i,
        {
            let ghost pre = *self;
            self.add_project(incoming.projects[i].0.as_str(), incoming.projects[i].1.as_str());
            proof {
                lemma_take_push(ip, i as int);
                assert forall|j: int|
                    0 <= j < i + 1 implies self.has_project(ip[j].0) && self.path_of(ip[j].0)
                    == ip[j].1 by {
                    if j < i && ip[j].0 != ip[i as int].0 {
                        assert(pre.has_project(ip[j].0) && pre.path_of(ip[j].0) == ip[j].1);
                    }
                    if j < i && ip[j].0 == ip[i as int].0 {
                        assert(ip[j].0 != ip[i as int].0);
                    }
                }
                assert forall|k: Seq<char>|
                    !has_key(ip.take(i as int + 1), k) implies ((self.has_project(k)
                    <==> orig.has_project(k)) && (orig.has_project(k) ==> self.path_of(k)
                    == orig.path_of(k))) by {
                    lemma_has_key_push(ip.take(i as int), ip[i as int], k);
                }
            }
            i += 1;
        }
        proof {
            assert(ip.take(ip.len() as int) =~= ip);
        }
        // 2. favorites: union
        let ghost cfg1 = *self;
        let ghost ifv = incoming.fav_names();
        let mut i: usize = 0;
        while i < incoming.favorites.len()
            invariant
                i <= incoming.favorites.len(),
                self.wf(),
                incoming.wf(),
                cfg1.wf(),
                ifv == incoming.fav_names(),
                forall|m: Seq<char>|
                    self.is_fav(m) <==> (cfg1.is_fav(m) || ifv.take(i as int).contains(m)),
                self.projects == cfg1.projects,
                self.recent == cfg1.recent,
                self.goto_path == cfg1.goto_path,
            decreases incoming.favorites.len() - i,
        {
            let ghost pre = *self;
            proof {
                assert(forall|m: Seq<char>|
                    pre.is_fav(m) <==> (cfg1.is_fav(m) || ifv.take(i as int).contains(m)));
            }
            self.set_favorite(incoming.favorites[i].as_str(), true);
            proof {
                assert(ifv[i as int] == incoming.favorites@[i as int]@);
                lemma_take_push(ifv, i as int);
                assert forall|m: Seq<char>|
                    self.is_fav(m) <==> (cfg1.is_fav(m) || ifv.take(i as int + 1).contains(
                    m,
                )) by {
                    lemma_contains_push(ifv.take(i as int), ifv[i as int], m);
                    assert(ifv.take(i as int + 1).contains(m) <==> (ifv.take(i as int).contains(m)
                        || ifv[i as int] == m));
                    if m == ifv[i as int] {
                        assert(self.is_fav(m));
                    } else {
                        assert(self.is_fav(m) <==> pre.is_fav(m));
                        assert(pre.is_fav(m) <==> (cfg1.is_fav(m) || ifv.take(i as int).contains(m)));
                    }
                }
            }
            i += 1;
        }
        proof {
            assert(ifv.take(ifv.len() as int) =~= ifv);
        }
        // 3. recent: replay incoming entries front to back
        let ghost cfg2 = *self;
        proof {
            assert(forall|m: Seq<char>| cfg2.is_fav(m) <==> (cfg1.is_fav(m) || ifv.contains(m)));
        }
        let ghost irc = incoming.recent_names();
        let mut i: usize = 0;
        while i < incoming.recent.len()
            invariant
                i <= incoming.recent.len(),
                self.wf(),
                incoming.wf(),
                cfg2.wf(),
                irc == incoming.recent_names(),
                self.recent_names() == merge_recent_spec(
                    cfg2.recent_names(),
                    irc.take(i as int),
                    RECENT_LIMIT as int,
                ),
                self.projects == cfg2.projects,
                self.favorites == cfg2.favorites,
                self.goto_path == cfg2.goto_path,
            decreases incoming.recent.len() - i,
        {
            self.add_recent(incoming.recent[i].as_str());
            proof {
                lemma_merge_recent_step(cfg2.recent_names(), irc, RECENT_LIMIT as int, i as int);
            }
            i += 1;
        }
        proof {
            assert(irc.take(irc.len() as int) =~= irc);
            assert(cfg2.recent_names() == orig.recent_names());
            assert forall|m: Seq<char>|
                final(self).is_fav(m) <==> (orig.is_fav(m) || incoming.is_fav(m)) by {
                assert(self.fav_names() == cfg2.fav_names());
                assert(cfg2.is_fav(m) <==> (cfg1.is_fav(m) || ifv.contains(m)));
                assert(cfg1.fav_names() == orig.fav_names());
            }
            assert forall|k: Seq<char>|
                final(self).has_project(k) <==> (orig.has_project(k)
                    || incoming.has_project(k)) by {
                if incoming.has_project(k) {
                    let j = key_at(ip, k);
                    assert(self.has_project(ip[j].0) && self.path_of(ip[j].0) == ip[j].1);
                }
            }
            assert forall|k: Seq<char>|
                incoming.has_project(k) implies final(self).path_of(k) == incoming.path_of(k) by {
                let j = key_at(ip, k);
                assert(self.has_project(ip[j].0) && self.path_of(ip[j].0) == ip[j].1);
                lemma_key_pinned(ip, k, j);
            }
        }
    }

    /// The recent history resolved against the projects: entries whose
    /// project still exists, as (name, path), in history order.
    pub fn recent_resolved(&self) -> (out: Vec<(String, String)>)
        requires
            self.wf(),
        ensures
            pairs_of(out@) == resolved_recent(self.recent_names(), self.proj_pairs()),
    {
        let mut out: Vec<(String, String)> = Vec::new();
        let mut i: usize = 0;
        proof {
            assert(pairs_of(out@) =~= resolved_recent(
                self.recent_names().take(0),
                self.proj_pairs(),
            ));
        }
        while i < self.recent.len()
            invariant
                i <= self.recent.len(),
                self.wf(),
                pairs_of(out@) == resolved_recent(
                    self.recent_names().take(i as int),
                    self.proj_pairs(),
                ),
            decreases self.recent.len() - i,
        {
            proof {
                lemma_resolved_recent_step(self.recent_names(), self.proj_pairs(), i as int);
            }
            match self.get_path(self.recent[i].as_str()) {
                Some(p) => {
                    let entry = (self.recent[i].clone(), p);
                    out.push(entry);
                    proof {
                        assert(pairs_of(out@) =~= resolved_recent(
                            self.recent_names().take(i as int),
                            self.proj_pairs(),
                        ).push(
                            (
                                self.recent_names()[i as int],
                                val_of(self.proj_pairs(), self.recent_names()[i as int]),
                            ),
                        ));
                    }
                },
                None => {},
            }
            i += 1;
        }
        proof {
            assert(self.recent_names().take(self.recent.len() as int) =~= self.recent_names());
        }
        out
    }
}

impl Default for Config {
    /// Same as `Config::new`: the default registry is empty.
    fn default() -> (c: Config)
        ensures
            c.wf(),
            c.proj_pairs() == Seq::<(Seq<char>, Seq<char>)>::empty(),
            c.fav_names() == Seq::<Seq<char>>::empty(),
            c.recent_names() == Seq::<Seq<char>>::empty(),
            c.goto_view() == Option::<Seq<char>>::None,
    {
        Config::new()
    }
}

/// Step of the `remove_name` recursion along a prefix.
pub proof fn lemma_remove_name_step(s: Seq<Seq<char>>, n: Seq<char>, i: int)
    requires
        0 <= i < s.len(),
    ensures
        remove_name(s.take(i + 1), n) == if s[i] == n {
            remove_name(s.take(i), n)
        } else {
            remove_name(s.take(i), n).push(s[i])
        },
{
    assert(s.take(i + 1).drop_last() =~= s.take(i));
    assert(s.take(i + 1).last() == s[i]);
}

/// Step of the `remove_key` recursion along a prefix.
pub proof fn lemma_remove_key_step(s: Seq<(Seq<char>, Seq<char>)>, k: Seq<char>, i: int)
    requires
        0 <= i < s.len(),
    ensures
        remove_key(s.take(i + 1), k) == if s[i].0 == k {
            remove_key(s.take(i), k)
        } else {
            remove_key(s.take(i), k).push(s[i])
        },
{
    assert(s.take(i + 1).drop_last() =~= s.take(i));
    assert(s.take(i + 1).last() == s[i]);
}

} // verus!
