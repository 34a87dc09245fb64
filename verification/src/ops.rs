//! Command-handler logic: what add, go, open, list and remove decide and
//! compute, given the store. Reading and writing the config file, spawning a
//! shell or an editor, and argument parsing sit outside this crate.
use vstd::prelude::*;
use crate::store::{
    find_name, lemma_find_name_props, Config, Project, ProjectView,
    StoreError,
};
use crate::text::push_char;

verus! {

/// The line `list` prints for one record: `name: dir`.
pub open spec fn line_of(p: ProjectView) -> Seq<char> {
    p.name + seq![':', ' '] + p.dir
}

/// Views of a sequence of strings.
pub open spec fn strs_view(v: Seq<String>) -> Seq<Seq<char>> {
    v.map_values(|s: String| s@)
}

/// The lines printed for the requested names, in request order: one line per
/// name that is found, nothing for a name that is missing.
pub open spec fn sel_lines(ps: Seq<ProjectView>, ns: Seq<Seq<char>>) -> Seq<Seq<char>>
    decreases ns.len(),
{
    if ns.len() == 0 {
        Seq::empty()
    } else {
        let rest = sel_lines(ps, ns.drop_first());
        match find_name(ps, ns.first()) {
            Some(j) => seq![line_of(ps[j])] + rest,
            None => rest,
        }
    }
}

/// Every requested name is present in the store.
pub open spec fn found_all(ps: Seq<ProjectView>, ns: Seq<Seq<char>>) -> bool {
    forall|i: int| 0 <= i < ns.len() ==> find_name(ps, ns[i]) is Some
}

proof fn lemma_sel_lines_snoc(ps: Seq<ProjectView>, ns: Seq<Seq<char>>, n: Seq<char>)
    ensures
        sel_lines(ps, ns.push(n)) == sel_lines(ps, ns) + (match find_name(ps, n) {
            Some(j) => seq![line_of(ps[j])],
            None => Seq::<Seq<char>>::empty(),
        }),
    decreases ns.len(),
{
    let w = ns.push(n);
    if ns.len() == 0 {
        assert(w.first() == n);
        assert(w.drop_first() =~= Seq::<Seq<char>>::empty());
        assert(sel_lines(ps, Seq::<Seq<char>>::empty()) == Seq::<Seq<char>>::empty());
        assert(sel_lines(ps, w.drop_first()) == Seq::<Seq<char>>::empty());
        assert(sel_lines(ps, ns) == Seq::<Seq<char>>::empty());
        match find_name(ps, n) {
            Some(j) => {
                assert(sel_lines(ps, w) =~= sel_lines(ps, ns) + seq![line_of(ps[j])]);
            },
            None => {
                assert(sel_lines(ps, w) =~= sel_lines(ps, ns));
            },
        }
    } else {
        assert(w.first() == ns.first());
        assert(w.drop_first() =~= ns.drop_first().push(n));
        lemma_sel_lines_snoc(ps, ns.drop_first(), n);
        match find_name(ps, ns.first()) {
            Some(j) => {
                assert(sel_lines(ps, w) =~= sel_lines(ps, ns) + (match find_name(ps, n) {
                    Some(k) => seq![line_of(ps[k])],
                    None => Seq::<Seq<char>>::empty(),
                }));
            },
            None => {
                assert(sel_lines(ps, w) == sel_lines(ps, ns) + (match find_name(ps, n) {
                    Some(k) => seq![line_of(ps[k])],
                    None => Seq::<Seq<char>>::empty(),
                }));
            },
        }
    }
}

proof fn lemma_found_all_snoc(ps: Seq<ProjectView>, ns: Seq<Seq<char>>, n: Seq<char>)
    ensures
        found_all(ps, ns.push(n)) == (found_all(ps, ns) && find_name(ps, n) is Some),
{
    let w = ns.push(n);
    if found_all(ps, w) {
        assert(w[ns.len() as int] == n);
        assert(find_name(ps, n) is Some);
        assert forall|k: int| 0 <= k < ns.len() implies find_name(ps, #[trigger] ns[k]) is Some by {
            assert(w[k] == ns[k]);
            assert(find_name(ps, w[k]) is Some);
        }
    }
    if found_all(ps, ns) && find_name(ps, n) is Some {
        assert forall|k: int| 0 <= k < w.len() implies find_name(ps, #[trigger] w[k]) is Some by {
            if k < ns.len() {
                assert(w[k] == ns[k]);
            } else {
                assert(w[k] == n);
            }
        }
    }
}

/// Render one record as its listing line.
pub fn build_line(p: &Project) -> (r: String)
    ensures
        r@ == line_of(p@),
{
    let mut s = String::from_str(p.name.as_str());
    push_char(&mut s, ':');
    push_char(&mut s, ' ');
    s.append(p.dir.as_str());
    proof {
        assert(s@ =~= line_of(p@));
    }
    s
}

/// The `list` output with no names given: every record, in store order.
pub fn list_all_lines(c: &Config) -> (r: Vec<String>)
    ensures
        r@.len() == c@.len(),
        forall|i: int| 0 <= i < c@.len() ==> #[trigger] r@[i]@ == line_of(c@[i]),
{
    let n = c.projects.len();
    let mut lines: Vec<String> = Vec::new();
    let mut i: usize = 0;
    while i < n
        invariant
            n == c.projects.len(),
            0 <= i <= n,
            lines@.len() == i,
            forall|j: int| 0 <= j < i ==> #[trigger] lines@[j]@ == line_of(c@[j]),
        decreases n - i,
    {
        proof {
            assert(c@[i as int] == c.projects@[i as int]@);
        }
        let line = build_line(&c.projects[i]);
        lines.push(line);
        i = i + 1;
    }
    lines
}

/// The `list` output for explicitly requested names: the line of each name
/// that is found, in request order, and whether every name was found. A
/// missing name does not stop the others from being listed.
pub fn list_selected_lines(c: &Config, names: &Vec<String>) -> (r: (Vec<String>, bool))
    ensures
        strs_view(r.0@) == sel_lines(c@, strs_view(names@)),
        r.1 == found_all(c@, strs_view(names@)),
{
    let n = names.len();
    let mut lines: Vec<String> = Vec::new();
    let mut ok = true;
    let mut i: usize = 0;
    while i < n
        invariant
            n == names.len(),
            0 <= i <= n,
            strs_view(lines@) == sel_lines(c@, strs_view(names@).take(i as int)),
            ok == found_all(c@, strs_view(names@).take(i as int)),
        decreases n - i,
    {
        let ghost prefix = strs_view(names@).take(i as int);
        let ghost nm = names@[i as int]@;
        proof {
            assert(strs_view(names@)[i as int] == nm);
            assert(strs_view(names@).take(i + 1) =~= prefix.push(nm));
            lemma_sel_lines_snoc(c@, prefix, nm);
            lemma_found_all_snoc(c@, prefix, nm);
        }
        match c.find_by_name(names[i].as_str()) {
            Some(p) => {
                let line = build_line(p);
                lines.push(line);
                proof {
                    lemma_find_name_props(c@, nm);
                    assert(strs_view(lines@) =~= sel_lines(c@, strs_view(names@).take(i + 1)));
                }
            },
            None => {
                ok = false;
                proof {
                    assert(strs_view(lines@) =~= sel_lines(c@, strs_view(names@).take(i + 1)));
                }
            },
        }
        i = i + 1;
    }
    proof {
        assert(strs_view(names@).take(n as int) =~= strs_view(names@));
    }
    (lines, ok)
}

/// The `go` and `open` lookup: the directory registered under `name`, or
/// `NotFound` exactly when no record carries the name.
pub fn project_dir(c: &Config, name: &str) -> (r: Result<String, StoreError>)
    ensures
        match find_name(c@, name@) {
            Some(j) => r matches Ok(d) && d@ == c@[j].dir,
            None => r matches Err(e) && e == StoreError::NotFound,
        },
{
    match c.find_by_name(name) {
        Some(p) => Ok(String::from_str(p.dir.as_str())),
        None => Err(StoreError::NotFound),
    }
}

/// The `add` decision: register `name` for the already-canonicalized `dir`,
/// rejecting a duplicate name and leaving the store unchanged in that case.
pub fn add_project(c: &mut Config, name: &str, dir: &str) -> (r: Result<(), StoreError>)
    ensures
        match find_name(old(c)@, name@) {
            Some(_) => r matches Err(e) && e == StoreError::DuplicateName && final(c)@ == old(c)@,
            None => r is Ok && (exists|k: int|
                0 <= k <= old(c)@.len() && final(c)@ == old(c)@.insert(
                    k,
                    ProjectView { dir: dir@, name: name@ },
                )),
        },
        crate::store::sorted_by_name(old(c)@) && find_name(old(c)@, name@) is None
            ==> crate::store::sorted_by_name(final(c)@),
        crate::store::unique_names(old(c)@) && find_name(old(c)@, name@) is None
            ==> crate::store::unique_names(final(c)@),
{
    let p = Project { dir: String::from_str(dir), name: String::from_str(name) };
    proof {
        assert(p@ == ProjectView { dir: dir@, name: name@ });
    }
    match c.insert_sorted(p) {
        Ok(u) => Ok(u),
        Err(e) => Err(e),
    }
}

} // verus!
