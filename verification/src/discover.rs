//! Which files hold the sessions of a working directory.

use crate::model;
use crate::model::{Brand, Harness, Session};
use crate::recent;
use crate::summary;
use crate::summary::{Listed, SessionFile};
use crate::text;
use std::path::{Path, PathBuf};
use vstd::prelude::*;

verus! {

/// Where to look for sessions.
pub enum Scan {
    /// The session files of one directory.
    Workspace(PathBuf),
    /// The session files anywhere below a directory, those of one working directory kept.
    Tree(PathBuf, String),
}

/// Where the sessions of one working directory are: in the directory whose slug matches it, every
/// other skipped. This keeps startup fast on machines with thousands of sessions spread across
/// many projects. Codex files its sessions by date, so all of them are looked at.
pub fn discover_for_cwd(root: &PathBuf, harness: Harness, cwd: &Path, home: &str) -> (r: Scan)
    ensures
        match r {
            Scan::Workspace(dir) => harness != Harness::Codex && dir == model::path_join(
                *root,
                model::slug(harness, model::path_text(cwd), home@),
            ),
            Scan::Tree(dir, only) => harness == Harness::Codex && dir == *root && only@
                == model::path_text(cwd),
        },
{
    let name = model::lossy(cwd);
    match harness {
        Harness::Codex => Scan::Tree(root.clone(), name),
        _ => {
            let slug = model::slug_for(harness, name.as_str(), home);
            Scan::Workspace(model::join_path(root, slug.as_str()))
        },
    }
}

/// `s` ends with `p`.
pub open spec fn ends(s: Seq<char>, p: Seq<char>) -> bool {
    p.len() <= s.len() && s.skip(s.len() - p.len()) == p
}

/// A file that may hold a session of `h`: a `.jsonl` file, for Codex a rollout.
pub open spec fn holds_session(h: Harness, name: Seq<char>) -> bool {
    &&& ends(name, ".jsonl"@)
    &&& name != ".jsonl"@
    &&& h == Harness::Codex ==> text::begins(name, "rollout-"@)
}

fn ends_with(s: &str, p: &str) -> (r: bool)
    ensures
        r == ends(s@, p@),
{
    let a = text::chars_of(s);
    let b = text::chars_of(p);
    if b.len() > a.len() {
        return false;
    }
    let from: usize = a.len() - b.len();
    let tail = text::slice(&a, from, a.len());
    proof {
        assert(a@.subrange(from as int, a@.len() as int) =~= a@.skip(from as int));
    }
    text::same(tail.as_str(), p)
}

/// Whether a file of that name may hold a session of `harness`.
pub fn is_session_file(harness: Harness, name: &str) -> (r: bool)
    ensures
        r == holds_session(harness, name@),
{
    let rollout = match harness {
        Harness::Codex => text::starts_with(name, "rollout-"),
        _ => true,
    };
    rollout && ends_with(name, ".jsonl") && !text::same(name, ".jsonl")
}

/// The places of the names of files that may hold a session.
pub open spec fn session_places(h: Harness, names: Seq<Seq<char>>) -> Seq<int>
    decreases names.len(),
{
    if names.len() == 0 {
        Seq::empty()
    } else {
        let before = session_places(h, names.drop_last());
        if holds_session(h, names.last()) {
            before.push(names.len() - 1)
        } else {
            before
        }
    }
}

/// The places of the files that may hold a session of `harness`, by their names, in order.
pub fn session_files(harness: Harness, names: &Vec<String>) -> (r: Vec<usize>)
    ensures
        recent::place_views(r@) == session_places(harness, text::views(names@)),
{
    let ghost ns = text::views(names@);
    let mut r: Vec<usize> = Vec::new();
    let mut i: usize = 0;
    proof {
        assert(ns.take(0) =~= Seq::empty());
        assert(recent::place_views(r@) =~= Seq::empty());
    }
    while i < names.len()
        invariant
            ns == text::views(names@),
            i <= names@.len(),
            recent::place_views(r@) == session_places(harness, ns.take(i as int)),
        decreases names@.len() - i,
    {
        proof {
            assert(ns.take(i + 1).drop_last() =~= ns.take(i as int));
            assert(ns.take(i + 1).last() == names@[i as int]@);
            assert(recent::place_views(r@.push(i)) =~= recent::place_views(r@).push(i as int));
        }
        if is_session_file(harness, names[i].as_str()) {
            r.push(i);
        }
        i = i + 1;
    }
    proof {
        assert(ns.take(i as int) =~= ns);
    }
    r
}

/// The sessions of one working directory.
pub open spec fn of_cwd(sessions: Seq<Session>, cwd: Seq<char>) -> Seq<Session>
    decreases sessions.len(),
{
    if sessions.len() == 0 {
        Seq::empty()
    } else if sessions.last().cwd@ == cwd {
        of_cwd(sessions.drop_last(), cwd).push(sessions.last())
    } else {
        of_cwd(sessions.drop_last(), cwd)
    }
}

/// Keeps the sessions of one working directory, in order.
pub fn keep_for_cwd(sessions: &Vec<Session>, cwd: &str) -> (r: Vec<Session>)
    ensures
        r@ == of_cwd(sessions@, cwd@),
{
    let mut r: Vec<Session> = Vec::new();
    let mut i: usize = 0;
    proof {
        assert(sessions@.take(0) =~= Seq::empty());
    }
    while i < sessions.len()
        invariant
            i <= sessions@.len(),
            r@ == of_cwd(sessions@.take(i as int), cwd@),
        decreases sessions@.len() - i,
    {
        proof {
            assert(sessions@.take(i + 1).drop_last() =~= sessions@.take(i as int));
            assert(sessions@.take(i + 1).last() == sessions@[i as int]);
        }
        if text::same(sessions[i].cwd.as_str(), cwd) {
            r.push(sessions[i].clone());
        }
        i = i + 1;
    }
    proof {
        assert(sessions@.take(i as int) =~= sessions@);
    }
    r
}

/// The sessions of a list that were held in `cwd`, in order.
pub open spec fn held_in(list: Seq<Listed>, cwd: Seq<char>) -> Seq<Listed>
    decreases list.len(),
{
    if list.len() == 0 {
        Seq::empty()
    } else if list.last().about.cwd == cwd {
        held_in(list.drop_last(), cwd).push(list.last())
    } else {
        held_in(list.drop_last(), cwd)
    }
}

proof fn lemma_of_cwd(sessions: Seq<Session>, cwd: Seq<char>)
    ensures
        summary::all_listed(of_cwd(sessions, cwd)) == held_in(summary::all_listed(sessions), cwd),
    decreases sessions.len(),
{
    let all = summary::all_listed(sessions);
    if sessions.len() == 0 {
        assert(summary::all_listed(of_cwd(sessions, cwd)) =~= Seq::empty());
    } else {
        let before = sessions.drop_last();
        let last = sessions.last();
        lemma_of_cwd(before, cwd);
        assert(all.drop_last() =~= summary::all_listed(before));
        assert(summary::all_listed(of_cwd(before, cwd).push(last)) =~= summary::all_listed(
            of_cwd(before, cwd),
        ).push(summary::listed(last)));
    }
}

/// The sessions found for one working directory, by the files of the place to look at: all of
/// them, or those of the full listing that were held there, in the same order.
pub open spec fn found(scan: Scan, h: Harness, files: Seq<SessionFile>) -> Seq<Listed> {
    match scan {
        Scan::Workspace(dir) => summary::listing(h, files),
        Scan::Tree(dir, only) => held_in(summary::listing(h, files), only@),
    }
}

/// The sessions found in the files of the place to look at.
pub fn find_sessions(scan: &Scan, harness: Harness, files: &Vec<SessionFile>) -> (r: Vec<Session>)
    ensures
        summary::all_listed(r@) == found(*scan, harness, files@),
{
    let all = summary::summaries(harness, files);
    match scan {
        Scan::Workspace(_) => all,
        Scan::Tree(_, only) => {
            proof {
                lemma_of_cwd(all@, only@);
            }
            keep_for_cwd(&all, only.as_str())
        },
    }
}

proof fn lemma_held_add(a: Seq<Listed>, b: Seq<Listed>, cwd: Seq<char>)
    ensures
        held_in(a + b, cwd) == held_in(a, cwd) + held_in(b, cwd),
    decreases b.len(),
{
    if b.len() == 0 {
        assert(a + b =~= a);
        assert(held_in(a, cwd) + held_in(b, cwd) =~= held_in(a, cwd));
    } else {
        assert((a + b).drop_last() =~= a + b.drop_last());
        lemma_held_add(a, b.drop_last(), cwd);
        assert(held_in(a + b, cwd) =~= held_in(a, cwd) + held_in(b, cwd));
    }
}

/// Files may be looked at a few at a time: what is found in each part, one after the other, is
/// what is found in all.
pub proof fn lemma_found_add(scan: Scan, h: Harness, a: Seq<SessionFile>, b: Seq<SessionFile>)
    ensures
        found(scan, h, a + b) == found(scan, h, a) + found(scan, h, b),
{
    summary::lemma_listing_add(h, a, b);
    match scan {
        Scan::Workspace(dir) => {},
        Scan::Tree(dir, only) => lemma_held_add(
            summary::listing(h, a),
            summary::listing(h, b),
            only@,
        ),
    }
}

/// What is found for a working directory is part of the full listing: every session of it was
/// held there, where all are looked at, and every session of the listing that was held there is
/// found.
pub proof fn lemma_found(scan: Scan, h: Harness, files: Seq<SessionFile>)
    requires
        scan is Tree,
    ensures
        forall|i: int|
            0 <= i < found(scan, h, files).len() ==> (#[trigger] found(
                scan,
                h,
                files,
            )[i]).about.cwd == scan->Tree_1@ && summary::listing(h, files).contains(
                found(scan, h, files)[i],
            ),
        forall|i: int|
            0 <= i < summary::listing(h, files).len() && (#[trigger] summary::listing(
                h,
                files,
            )[i]).about.cwd == scan->Tree_1@ ==> found(scan, h, files).contains(
                summary::listing(h, files)[i],
            ),
{
    lemma_held(summary::listing(h, files), scan->Tree_1@);
}

proof fn lemma_held(list: Seq<Listed>, cwd: Seq<char>)
    ensures
        forall|i: int|
            0 <= i < held_in(list, cwd).len() ==> (#[trigger] held_in(list, cwd)[i]).about.cwd
                == cwd && list.contains(held_in(list, cwd)[i]),
        forall|i: int|
            0 <= i < list.len() && (#[trigger] list[i]).about.cwd == cwd ==> held_in(
                list,
                cwd,
            ).contains(list[i]),
    decreases list.len(),
{
    if list.len() > 0 {
        let before = list.drop_last();
        let last = list.last();
        lemma_held(before, cwd);
        let some = held_in(before, cwd);
        let all = held_in(list, cwd);
        assert(list[list.len() - 1] == last);
        assert forall|i: int| 0 <= i < all.len() implies (#[trigger] all[i]).about.cwd == cwd
            && list.contains(all[i]) by {
            if i < some.len() {
                assert(all[i] == some[i]);
                assert(before.contains(some[i]));
                let k = choose|k: int| 0 <= k < before.len() && before[k] == some[i];
                assert(list[k] == some[i]);
            }
        }
        assert forall|i: int| 0 <= i < list.len() && (#[trigger] list[i]).about.cwd
            == cwd implies all.contains(list[i]) by {
            if i < before.len() {
                assert(before[i] == list[i]);
                assert(some.contains(before[i]));
                let k = choose|k: int| 0 <= k < some.len() && some[k] == before[i];
                assert(all[k] == list[i]);
            } else {
                assert(all[all.len() - 1] == list[i]);
            }
        }
    }
}

/// The harness of an extra directory: by its path, or OMP where that says nothing.
pub fn extra_harness(dir: &Path, brand: &Brand) -> (r: Harness)
    ensures
        r == match model::harness_of(text::lowercase(model::path_text(dir)), *brand) {
            Some(h) => h,
            None => Harness::Omp,
        },
{
    match Harness::infer_from_path(dir, brand) {
        Some(h) => h,
        None => Harness::Omp,
    }
}

} // verus!
