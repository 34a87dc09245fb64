//! The alias store: a set of named project directories, kept sorted by name,
//! with exact-match lookup, duplicate-rejecting insertion and removal.
use vstd::prelude::*;
use crate::text::{lex_leq, lex_lt, lemma_lex_leq_trans, lemma_lex_lt_total, str_eq, str_lt};

verus! {

/// One alias record: a unique name mapping to a canonical directory path.
pub struct Project {
    pub dir: String,
    pub name: String,
}

/// Mathematical image of a `Project`: its two strings as character sequences.
#[verifier::ext_equal]
pub struct ProjectView {
    pub dir: Seq<char>,
    pub name: Seq<char>,
}

impl View for Project {
    type V = ProjectView;

    open spec fn view(&self) -> ProjectView {
        ProjectView { dir: self.dir@, name: self.name@ }
    }
}

/// Error kinds surfaced by the store and its persistence format.
#[derive(Clone, Copy, Debug, PartialEq, Eq, Structural)]
pub enum StoreError {
    /// A referenced alias does not exist.
    NotFound,
    /// An added alias collides with an existing name.
    DuplicateName,
    /// The config file could not be opened, read, written or created.
    ConfigIO,
    /// The config file held malformed text.
    ConfigParse,
    /// The directory argument could not be canonicalized.
    PathResolution,
}

/// The full persisted state: every registered alias.
pub struct Config {
    pub projects: Vec<Project>,
}

impl View for Config {
    type V = Seq<ProjectView>;

    open spec fn view(&self) -> Seq<ProjectView> {
        self.projects@.map_values(|p: Project| p@)
    }
}

/// Index of the first record at or past `i` whose name is `n`.
pub open spec fn find_at(ps: Seq<ProjectView>, n: Seq<char>, i: int) -> Option<int>
    decreases ps.len() - i,
{
    if !(0 <= i < ps.len()) {
        None
    } else if ps[i].name == n {
        Some(i)
    } else {
        find_at(ps, n, i + 1)
    }
}

/// Index of the first record whose name is `n`, if any.
pub open spec fn find_name(ps: Seq<ProjectView>, n: Seq<char>) -> Option<int> {
    find_at(ps, n, 0)
}

/// All names are pairwise distinct (case-sensitive exact match).
pub open spec fn unique_names(ps: Seq<ProjectView>) -> bool {
    forall|i: int, j: int| 0 <= i < j < ps.len() ==> ps[i].name != ps[j].name
}

/// Records come in ascending name order.
pub open spec fn sorted_by_name(ps: Seq<ProjectView>) -> bool {
    forall|i: int, j: int| 0 <= i < j < ps.len() ==> lex_leq(ps[i].name, ps[j].name)
}

pub proof fn lemma_find_at_props(ps: Seq<ProjectView>, n: Seq<char>, i: int)
    requires
        0 <= i <= ps.len(),
    ensures
        match find_at(ps, n, i) {
            Some(j) => i <= j < ps.len() && ps[j].name == n && (forall|k: int|
                i <= k < j ==> ps[k].name != n),
            None => forall|k: int| i <= k < ps.len() ==> ps[k].name != n,
        },
    decreases ps.len() - i,
{
    if i < ps.len() && ps[i].name != n {
        lemma_find_at_props(ps, n, i + 1);
    }
}

/// `find_name` finds the first record with the given name, and fails exactly
/// when no record carries it.
pub proof fn lemma_find_name_props(ps: Seq<ProjectView>, n: Seq<char>)
    ensures
        match find_name(ps, n) {
            Some(j) => 0 <= j < ps.len() && ps[j].name == n && (forall|k: int|
                0 <= k < j ==> ps[k].name != n),
            None => forall|k: int| 0 <= k < ps.len() ==> ps[k].name != n,
        },
{
    lemma_find_at_props(ps, n, 0);
}

impl Config {
    /// A store with no aliases at all.
    pub fn new() -> (c: Config)
        ensures
            c@ == Seq::<ProjectView>::empty(),
    {
        let c = Config { projects: Vec::new() };
        proof {
            assert(c@ =~= Seq::<ProjectView>::empty());
        }
        c
    }

    /// Index of the first record named `name`, if one exists.
    pub fn position_by_name(&self, name: &str) -> (r: Option<usize>)
        ensures
            match r {
                Some(i) => find_name(self@, name@) == Some(i as int),
                None => find_name(self@, name@) is None,
            },
    {
        let n = self.projects.len();
        let mut i: usize = 0;
        while i < n
            invariant
                n == self.projects.len(),
                0 <= i <= n,
                find_name(self@, name@) == find_at(self@, name@, i as int),
            decreases n - i,
        {
            let p = &self.projects[i];
            if str_eq(p.name.as_str(), name) {
                proof {
                    assert(self@[i as int] == self.projects@[i as int]@);
                }
                return Some(i);
            }
            proof {
                assert(self@[i as int] == self.projects@[i as int]@);
                assert(find_at(self@, name@, i as int) == find_at(self@, name@, i + 1));
            }
            i = i + 1;
        }
        proof {
            assert(find_at(self@, name@, n as int) is None);
        }
        None
    }

    /// Exact-match lookup of a record by name.
    pub fn find_by_name<'a>(&'a self, name: &str) -> (r: Option<&'a Project>)
        ensures
            match r {
                Some(p) => find_name(self@, name@) matches Some(j) && p@ == self@[j],
                None => find_name(self@, name@) is None,
            },
    {
        match self.position_by_name(name) {
            Some(i) => {
                proof {
                    lemma_find_name_props(self@, name@);
                    assert(self@[i as int] == self.projects@[i as int]@);
                }
                Some(&self.projects[i])
            },
            None => None,
        }
    }

    /// Index at which a record named `name` belongs in name order: the first
    /// position whose current name comes strictly after it.
    fn insertion_point(&self, name: &str) -> (k: usize)
        ensures
            k <= self@.len(),
            forall|j: int| 0 <= j < k ==> !lex_lt(name@, #[trigger] self@[j].name),
            k < self@.len() ==> lex_lt(name@, self@[k as int].name),
    {
        let n = self.projects.len();
        let mut k: usize = 0;
        while k < n
            invariant
                n == self.projects.len(),
                0 <= k <= n,
                forall|j: int| 0 <= j < k ==> !lex_lt(name@, #[trigger] self@[j].name),
            decreases n - k,
        {
            let p = &self.projects[k];
            proof {
                assert(self@[k as int] == self.projects@[k as int]@);
            }
            if str_lt(name, p.name.as_str()) {
                return k;
            }
            k = k + 1;
        }
        k
    }

    /// Insert a new alias, keeping name order; reject a name already taken
    /// and leave the store untouched in that case.
    pub fn insert_sorted(&mut self, p: Project) -> (r: Result<(), StoreError>)
        ensures
            match find_name(old(self)@, p@.name) {
                Some(_) => r matches Err(e) && e == StoreError::DuplicateName && final(self)@
                    == old(self)@,
                None => r is Ok && (exists|k: int|
                    0 <= k <= old(self)@.len() && final(self)@ == old(self)@.insert(k, p@) && (
                    forall|j: int|
                        0 <= j < k ==> lex_leq(#[trigger] old(self)@[j].name, p@.name)) && (k < old(
                        self,
                    )@.len() ==> lex_lt(p@.name, old(self)@[k].name))),
            },
            sorted_by_name(old(self)@) && find_name(old(self)@, p@.name) is None
                ==> sorted_by_name(final(self)@),
            unique_names(old(self)@) && find_name(old(self)@, p@.name) is None ==> unique_names(
                final(self)@,
            ),
    {
        let ghost old_ps = self@;
        match self.position_by_name(p.name.as_str()) {
            Some(_) => Err(StoreError::DuplicateName),
            None => {
                let k = self.insertion_point(p.name.as_str());
                let ghost pv = p@;
                let ghost pw = p;
                let ghost old_vec = self.projects@;
                self.projects.insert(k, p);
                proof {
                    let ki = k as int;
                    assert(self@ =~= old_ps.insert(ki, pv)) by {
                        assert(self.projects@ == old_vec.insert(ki, pw));
                        old_vec.insert_ensures(ki, pw);
                        old_ps.insert_ensures(ki, pv);
                        assert forall|i: int| 0 <= i < self@.len() implies self@[i] == old_ps.insert(
                            ki,
                            pv,
                        )[i] by {
                            assert(self@[i] == self.projects@[i]@);
                            if i < ki {
                                assert(old_ps[i] == old_vec[i]@);
                                assert(self.projects@[i] == old_vec[i]);
                                assert(old_ps.insert(ki, pv)[i] == old_ps[i]);
                            } else if i > ki {
                                assert(old_ps[i - 1] == old_vec[i - 1]@);
                                assert(self.projects@[(i - 1) + 1] == old_vec[i - 1]);
                                assert(old_ps.insert(ki, pv)[(i - 1) + 1] == old_ps[i - 1]);
                            } else {
                                assert(self.projects@[ki] == pw);
                                assert(old_ps.insert(ki, pv)[ki] == pv);
                            }
                        }
                    }
                    assert forall|j: int| 0 <= j < ki implies lex_leq(
                        #[trigger] old_ps[j].name,
                        pv.name,
                    ) by {
                        lemma_lex_lt_total(old_ps[j].name, pv.name);
                        lemma_find_at_props(old_ps, pv.name, 0);
                    }
                    if sorted_by_name(old_ps) {
                        lemma_insert_keeps_sorted(old_ps, pv, ki);
                    }
                    if unique_names(old_ps) {
                        lemma_find_at_props(old_ps, pv.name, 0);
                        assert forall|i: int, j: int|
                            0 <= i < j < self@.len() implies self@[i].name != self@[j].name by {
                            let s = old_ps.insert(ki, pv);
                            assert(self@[i] == s[i] && self@[j] == s[j]);
                        }
                    }
                }
                Ok(())
            },
        }
    }

    /// Remove the first record named `name` and return it; report `NotFound`
    /// and leave the store untouched when no record carries the name.
    pub fn remove_by_name(&mut self, name: &str) -> (r: Result<Project, StoreError>)
        ensures
            match find_name(old(self)@, name@) {
                Some(j) => r matches Ok(p) && p@ == old(self)@[j] && final(self)@ == old(
                    self,
                )@.remove(j),
                None => r matches Err(e) && e == StoreError::NotFound && final(self)@ == old(
                    self,
                )@,
            },
    {
        let ghost old_ps = self@;
        match self.position_by_name(name) {
            Some(i) => {
                proof {
                    lemma_find_name_props(old_ps, name@);
                }
                let p = self.projects.remove(i);
                proof {
                    let ii = i as int;
                    assert(p@ == old_ps[ii]) by {
                        assert(old_ps[ii] == old(self).projects@[ii]@);
                    }
                    assert(self@ =~= old_ps.remove(ii)) by {
                        old_ps.remove_ensures(ii);
                        old(self).projects@.remove_ensures(ii);
                        assert forall|j: int| 0 <= j < self@.len() implies self@[j] == old_ps.remove(
                            ii,
                        )[j] by {
                            assert(self@[j] == self.projects@[j]@);
                            if j < ii {
                                assert(old_ps[j] == old(self).projects@[j]@);
                            } else {
                                assert(old_ps[j + 1] == old(self).projects@[j + 1]@);
                            }
                        }
                    }
                }
                Ok(p)
            },
            None => Err(StoreError::NotFound),
        }
    }
}

/// Law: after a successful add of a record, looking its name up finds that
/// record — so the registered name resolves to the directory it was
/// registered with.
pub proof fn lemma_add_then_find(ps: Seq<ProjectView>, p: ProjectView, k: int)
    requires
        find_name(ps, p.name) is None,
        0 <= k <= ps.len(),
    ensures
        find_name(ps.insert(k, p), p.name) == Some(k),
        ps.insert(k, p)[k] == p,
    decreases ps.len(),
{
    let s = ps.insert(k, p);
    ps.insert_ensures(k, p);
    lemma_find_name_props(ps, p.name);
    lemma_find_at_props(s, p.name, 0);
    assert(s[k] == p);
    match find_at(s, p.name, 0) {
        Some(j) => {
            if j < k {
                assert(s[j] == ps[j]);
                assert(ps[j].name != p.name);
            }
            assert(j == k);
        },
        None => {
            assert(s[k].name == p.name);
        },
    }
}

/// Inserting at the position `insertion_point` picks keeps the store sorted.
proof fn lemma_insert_keeps_sorted(ps: Seq<ProjectView>, p: ProjectView, k: int)
    requires
        sorted_by_name(ps),
        0 <= k <= ps.len(),
        forall|j: int| 0 <= j < k ==> lex_leq(#[trigger] ps[j].name, p.name),
        k < ps.len() ==> lex_lt(p.name, ps[k].name),
    ensures
        sorted_by_name(ps.insert(k, p)),
{
    let s = ps.insert(k, p);
    assert forall|i: int, j: int| 0 <= i < j < s.len() implies lex_leq(s[i].name, s[j].name) by {
        if i < k && j < k {
            assert(s[i] == ps[i] && s[j] == ps[j]);
        } else if i < k && j == k {
            assert(s[i] == ps[i] && s[j] == p);
        } else if i < k && j > k {
            assert(s[i] == ps[i] && s[j] == ps[j - 1]);
        } else if i == k && j > k {
            assert(s[i] == p && s[j] == ps[j - 1]);
            assert(lex_lt(p.name, ps[k].name));
            if j - 1 > k {
                assert(lex_leq(ps[k].name, ps[j - 1].name));
                lemma_lex_leq_trans(p.name, ps[k].name, ps[j - 1].name);
            }
        } else {
            assert(i > k && j > k);
            assert(s[i] == ps[i - 1] && s[j] == ps[j - 1]);
        }
    }
}

} // verus!
