//! Include resolution over an acyclic include graph: every file reachable
//! from the main file is registered, once, and nothing else is.
use vstd::prelude::*;

use crate::ast::File;
use crate::compile::{
    advance, after_loaded, initial, insert, keys_unique, loaded_view, on_stack, AttemptView, ContextView, FileView,
};

verus! {

/// The include targets of the file at `p` in the file set `w`.
pub open spec fn includes_in(w: Map<Seq<char>, File>, p: Seq<char>) -> Seq<Seq<char>> {
    loaded_view(p, w[p]).includes
}

/// Every include target of a file of `w` is a file of `w` of lower `rank`:
/// the include graph is closed and has no cycle.
pub open spec fn closed_acyclic(w: Map<Seq<char>, File>, rank: spec_fn(Seq<char>) -> nat) -> bool {
    forall|p: Seq<char>, j: int|
        #![trigger includes_in(w, p)[j]]
        w.dom().contains(p) && 0 <= j < includes_in(w, p).len() ==> {
            &&& w.dom().contains(includes_in(w, p)[j])
            &&& rank(includes_in(w, p)[j]) < rank(p)
        }
}

/// Files reachable from `p` through its first `k` include targets.
pub open spec fn reach_upto(w: Map<Seq<char>, File>, rank: spec_fn(Seq<char>) -> nat, p: Seq<char>, k: nat) -> Set<
    Seq<char>,
>
    decreases rank(p), k,
{
    let incs = includes_in(w, p);
    if k == 0 {
        Set::empty()
    } else if k > incs.len() {
        reach_upto(w, rank, p, incs.len())
    } else {
        let q = incs[k - 1];
        let rest = reach_upto(w, rank, p, (k - 1) as nat).insert(q);
        if rank(q) < rank(p) {
            rest.union(reach_upto(w, rank, q, includes_in(w, q).len()))
        } else {
            rest
        }
    }
}

/// Files reachable from `p`, `p` excluded.
pub open spec fn reach(w: Map<Seq<char>, File>, rank: spec_fn(Seq<char>) -> nat, p: Seq<char>) -> Set<Seq<char>> {
    reach_upto(w, rank, p, includes_in(w, p).len())
}

/// `p` is registered in `files`.
pub open spec fn key_in(files: Seq<(Seq<char>, AttemptView)>, p: Seq<char>) -> bool {
    exists|i: int| 0 <= i < files.len() && files[i].0 == p
}

/// Resolution from `v`, loading each requested path from `w`, for at most
/// `fuel` loads: the final state, or none when the loads run out first.
pub open spec fn run(v: ContextView, w: Map<Seq<char>, File>, fuel: nat) -> Option<ContextView>
    decreases fuel,
{
    match v.pending {
        None => Some(v),
        Some(p) => if fuel == 0 {
            None
        } else {
            run(after_loaded(v, w[p]).0, w, (fuel - 1) as nat)
        },
    }
}

proof fn lemma_reach_upto_facts(w: Map<Seq<char>, File>, rank: spec_fn(Seq<char>) -> nat, p: Seq<char>, k: nat)
    requires
        closed_acyclic(w, rank),
        w.dom().contains(p),
        k <= includes_in(w, p).len(),
    ensures
        forall|j: int|
            0 <= j < k ==> reach_upto(w, rank, p, k).contains(#[trigger] includes_in(w, p)[j]) && reach(
                w,
                rank,
                includes_in(w, p)[j],
            ).subset_of(reach_upto(w, rank, p, k)),
        forall|x: Seq<char>| #[trigger] reach_upto(w, rank, p, k).contains(x) ==> w.dom().contains(x) && rank(x) < rank(p),
    decreases rank(p), k,
{
    if k > 0 {
        lemma_reach_upto_facts(w, rank, p, (k - 1) as nat);
        let q = includes_in(w, p)[k - 1];
        assert(rank(q) < rank(p) && w.dom().contains(q));
        lemma_reach_upto_facts(w, rank, q, includes_in(w, q).len());
        assert forall|x: Seq<char>| #[trigger] reach_upto(w, rank, p, k).contains(x) implies w.dom().contains(x) && rank(x)
            < rank(p) by {
            if reach_upto(w, rank, p, (k - 1) as nat).contains(x) {
            } else if x == q {
            } else {
                assert(reach(w, rank, q).contains(x));
            }
        }
    }
}

/// When every include target of `p` and everything reachable from it lies in
/// `s`, so does everything reachable from `p`.
proof fn lemma_reach_upto_within(
    w: Map<Seq<char>, File>,
    rank: spec_fn(Seq<char>) -> nat,
    p: Seq<char>,
    k: nat,
    s: Set<Seq<char>>,
)
    requires
        closed_acyclic(w, rank),
        w.dom().contains(p),
        k <= includes_in(w, p).len(),
        forall|j: int|
            0 <= j < k ==> s.contains(#[trigger] includes_in(w, p)[j]) && reach(w, rank, includes_in(w, p)[j]).subset_of(s),
    ensures
        reach_upto(w, rank, p, k).subset_of(s),
    decreases k,
{
    if k > 0 {
        lemma_reach_upto_within(w, rank, p, (k - 1) as nat, s);
        let q = includes_in(w, p)[k - 1];
        assert(s.contains(q));
        assert(reach(w, rank, q).subset_of(s));
    }
}

/// What is reachable from something reachable from `p` is reachable from `p`.
proof fn lemma_reach_trans(w: Map<Seq<char>, File>, rank: spec_fn(Seq<char>) -> nat, p: Seq<char>, k: nat, x: Seq<char>)
    requires
        closed_acyclic(w, rank),
        w.dom().contains(p),
        k <= includes_in(w, p).len(),
        reach_upto(w, rank, p, k).contains(x),
    ensures
        reach(w, rank, x).subset_of(reach_upto(w, rank, p, k)),
    decreases rank(p), k,
{
    lemma_reach_upto_facts(w, rank, p, k);
    let q = includes_in(w, p)[k - 1];
    assert(rank(q) < rank(p) && w.dom().contains(q));
    lemma_reach_upto_facts(w, rank, q, includes_in(w, q).len());
    if reach_upto(w, rank, p, (k - 1) as nat).contains(x) {
        lemma_reach_trans(w, rank, p, (k - 1) as nat, x);
    } else if x == q {
    } else {
        lemma_reach_trans(w, rank, q, includes_in(w, q).len(), x);
    }
}

/// Registering `p` keeps each path registered once, and adds `p` to the
/// registered paths.
pub proof fn lemma_insert(files: Seq<(Seq<char>, AttemptView)>, p: Seq<char>, a: AttemptView)
    requires
        keys_unique(files),
    ensures
        keys_unique(insert(files, p, a)),
        forall|x: Seq<char>| #[trigger] key_in(insert(files, p, a), x) <==> key_in(files, x) || x == p,
{
    let nf = insert(files, p, a);
    if exists|i: int| 0 <= i < files.len() && files[i].0 == p {
        let i = choose|i: int| 0 <= i < files.len() && files[i].0 == p;
        assert forall|x: int, y: int| #![trigger nf[x], nf[y]] 0 <= x < y < nf.len() implies nf[x].0 != nf[y].0 by {
            assert(files[x].0 != files[y].0);
        }
        assert forall|x: Seq<char>| #[trigger] key_in(nf, x) <==> key_in(files, x) || x == p by {
            if key_in(files, x) {
                let j = choose|j: int| 0 <= j < files.len() && files[j].0 == x;
                assert(nf[j].0 == x);
            }
            if x == p {
                assert(nf[i].0 == x);
            }
            if key_in(nf, x) {
                let j = choose|j: int| 0 <= j < nf.len() && nf[j].0 == x;
                if j != i {
                    assert(files[j].0 == x);
                }
            }
        }
    } else {
        assert forall|x: int, y: int| #![trigger nf[x], nf[y]] 0 <= x < y < nf.len() implies nf[x].0 != nf[y].0 by {
            if y < files.len() {
                assert(files[x].0 != files[y].0);
            }
        }
        assert forall|x: Seq<char>| #[trigger] key_in(nf, x) <==> key_in(files, x) || x == p by {
            if key_in(files, x) {
                let j = choose|j: int| 0 <= j < files.len() && files[j].0 == x;
                assert(nf[j].0 == x);
            }
            if x == p {
                assert(nf[files.len() as int].0 == x);
            }
            if key_in(nf, x) {
                let j = choose|j: int| 0 <= j < nf.len() && nf[j].0 == x;
                if j < files.len() {
                    assert(files[j].0 == x);
                }
            }
        }
    }
}

/// Every entry of `files` is a loaded file, but perhaps the one for `m`.
pub open spec fn loaded_but(files: Seq<(Seq<char>, AttemptView)>, m: Seq<char>) -> bool {
    forall|i: int| 0 <= i < files.len() ==> (#[trigger] files[i]).1 is Loaded || files[i].0 == m
}

/// Every entry of `files` is a loaded file.
pub open spec fn all_loaded(files: Seq<(Seq<char>, AttemptView)>) -> bool {
    forall|i: int| 0 <= i < files.len() ==> (#[trigger] files[i]).1 is Loaded
}

/// Registering a loaded file keeps every other entry loaded; registering it
/// under `m` leaves every entry loaded.
proof fn lemma_insert_loaded(files: Seq<(Seq<char>, AttemptView)>, p: Seq<char>, a: AttemptView, m: Seq<char>)
    requires
        keys_unique(files),
        loaded_but(files, m),
        a is Loaded,
    ensures
        loaded_but(insert(files, p, a), m),
        p == m ==> all_loaded(insert(files, p, a)),
{
    let nf = insert(files, p, a);
    if exists|i: int| 0 <= i < files.len() && files[i].0 == p {
        let i = choose|i: int| 0 <= i < files.len() && files[i].0 == p;
        assert forall|k: int| 0 <= k < nf.len() implies (#[trigger] nf[k]).1 is Loaded || nf[k].0 == m by {
            if k != i {
                assert(nf[k] == files[k]);
            }
        }
        if p == m {
            assert forall|k: int| 0 <= k < nf.len() implies (#[trigger] nf[k]).1 is Loaded by {
                if k != i {
                    assert(nf[k] == files[k]);
                    if k < i {
                        assert(files[k].0 != files[i].0);
                    } else {
                        assert(files[i].0 != files[k].0);
                    }
                }
            }
        }
    } else {
        assert forall|k: int| 0 <= k < nf.len() implies (#[trigger] nf[k]).1 is Loaded || nf[k].0 == m by {
            if k < files.len() {
                assert(nf[k] == files[k]);
            }
        }
        if p == m {
            assert forall|k: int| 0 <= k < nf.len() implies (#[trigger] nf[k]).1 is Loaded by {
                if k < files.len() {
                    assert(nf[k] == files[k]);
                    assert(files[k].0 != m);
                }
            }
        }
    }
}

/// `q` and everything reachable from it are registered.
pub open spec fn done(w: Map<Seq<char>, File>, rank: spec_fn(Seq<char>) -> nat, files: Seq<(Seq<char>, AttemptView)>, q: Seq<char>) -> bool {
    &&& key_in(files, q)
    &&& forall|x: Seq<char>| #[trigger] reach(w, rank, q).contains(x) ==> key_in(files, x)
}

/// The state of a resolution from `v.main` over `w`, between two steps: the
/// include stack is a path of the include graph from the main file, each
/// include already resolved is registered with all it reaches, and only the
/// main file and files reachable from it are registered.
#[verifier::opaque]
pub open spec fn inv(w: Map<Seq<char>, File>, rank: spec_fn(Seq<char>) -> nat, v: ContextView) -> bool {
    let fr = v.frames;
    let n = fr.len();
    &&& keys_unique(v.files)
    &&& loaded_but(v.files, v.main)
    &&& w.dom().contains(v.main)
    &&& forall|k: int|
        0 <= k < n ==> {
            &&& w.dom().contains((#[trigger] fr[k]).0.path)
            &&& fr[k].0 == loaded_view(fr[k].0.path, w[fr[k].0.path])
            &&& fr[k].1 <= fr[k].0.includes.len()
            &&& (fr[k].0.path == v.main || reach(w, rank, v.main).contains(fr[k].0.path))
        }
    &&& n > 0 ==> fr[0].0.path == v.main
    &&& forall|k: int|
        0 < k < n ==> {
            &&& fr[k - 1].1 >= 1
            &&& (#[trigger] fr[k]).0.path == fr[k - 1].0.includes[fr[k - 1].1 - 1]
        }
    &&& forall|m: int, k: int| #![trigger fr[m], fr[k]] 0 <= m < k < n ==> rank(fr[k].0.path) < rank(fr[m].0.path)
    &&& v.pending is Some ==> n > 0 && fr[n - 1].1 >= 1 && v.pending->Some_0 == fr[n - 1].0.includes[fr[n - 1].1 - 1]
    &&& forall|i: int|
        0 <= i < v.files.len() ==> (#[trigger] v.files[i]).0 == v.main || reach(w, rank, v.main).contains(v.files[i].0)
    &&& forall|k: int, j: int|
        #![trigger fr[k].0.includes[j]]
        0 <= k < n && 0 <= j < fr[k].1 && !(j == fr[k].1 - 1 && (k + 1 < n || v.pending is Some)) ==> done(
            w,
            rank,
            v.files,
            fr[k].0.includes[j],
        )
}

/// The main file and everything it reaches are registered, every entry as
/// a loaded file.
pub open spec fn all_done(w: Map<Seq<char>, File>, rank: spec_fn(Seq<char>) -> nat, v: ContextView) -> bool {
    &&& done(w, rank, v.files, v.main)
    &&& all_loaded(v.files)
}

/// The state after the innermost file asks for its next include.
pub open spec fn requested(v: ContextView) -> ContextView {
    let (f, next) = v.frames.last();
    ContextView {
        frames: v.frames.update(v.frames.len() - 1, (f, next + 1)),
        pending: Some(f.includes[next as int]),
        ..v
    }
}

/// The state after the innermost file, its includes all resolved, leaves the
/// stack and is registered under `key`.
pub open spec fn popped(v: ContextView, key: Seq<char>) -> ContextView {
    ContextView {
        frames: v.frames.drop_last(),
        files: insert(v.files, key, AttemptView::Loaded(v.frames.last().0)),
        ..v
    }
}

#[verifier::rlimit(100)]
#[verifier::spinoff_prover]
proof fn lemma_step_request(w: Map<Seq<char>, File>, rank: spec_fn(Seq<char>) -> nat, v: ContextView)
    requires
        closed_acyclic(w, rank),
        inv(w, rank, v),
        v.pending is None,
        v.frames.len() > 0,
        v.frames.last().1 < v.frames.last().0.includes.len(),
    ensures
        inv(w, rank, requested(v)),
        !on_stack(v.frames, v.frames.last().0.includes[v.frames.last().1 as int]),
{
    reveal(inv);
    let fr = v.frames;
    let n = fr.len();
    let (f, next) = fr.last();
    let p = f.path;
    assert(fr[n - 1] == fr.last());
    let inc = f.includes[next as int];
    assert(includes_in(w, p)[next as int] == inc);
    assert(rank(inc) < rank(p));
    assert(!on_stack(fr, inc)) by {
        if on_stack(fr, inc) {
            let m = choose|m: int| 0 <= m < fr.len() && fr[m].0.path == inc;
            if m < n - 1 {
                assert(rank(fr[n - 1].0.path) < rank(fr[m].0.path));
            }
        }
    }
    let r = requested(v);
    let fr2 = r.frames;
    assert forall|k: int, j: int|
        #![trigger fr2[k].0.includes[j]]
        0 <= k < n && 0 <= j < fr2[k].1 && !(j == fr2[k].1 - 1 && (k + 1 < n || r.pending is Some)) implies done(
        w,
        rank,
        r.files,
        fr2[k].0.includes[j],
    ) by {
        if k == n - 1 {
            assert(fr[k].0.includes[j] == fr2[k].0.includes[j]);
        } else {
            assert(fr2[k] == fr[k]);
        }
    }
    assert forall|k: int| 0 < k < n implies {
        &&& fr2[k - 1].1 >= 1
        &&& (#[trigger] fr2[k]).0.path == fr2[k - 1].0.includes[fr2[k - 1].1 - 1]
    } by {
        assert(fr[k].0.path == fr[k - 1].0.includes[fr[k - 1].1 - 1]);
    }
    assert forall|m: int, k: int| #![trigger fr2[m], fr2[k]] 0 <= m < k < n implies rank(fr2[k].0.path) < rank(
        fr2[m].0.path,
    ) by {
        assert(rank(fr[k].0.path) < rank(fr[m].0.path));
    }
    assert forall|k: int| 0 <= k < n implies {
        &&& w.dom().contains((#[trigger] fr2[k]).0.path)
        &&& fr2[k].0 == loaded_view(fr2[k].0.path, w[fr2[k].0.path])
        &&& fr2[k].1 <= fr2[k].0.includes.len()
        &&& (fr2[k].0.path == r.main || reach(w, rank, r.main).contains(fr2[k].0.path))
    } by {
        assert(fr[k].0 == fr2[k].0);
    }
}

/// The innermost file, its includes all resolved, reaches nothing
/// unregistered.
proof fn lemma_top_done(w: Map<Seq<char>, File>, rank: spec_fn(Seq<char>) -> nat, v: ContextView)
    requires
        closed_acyclic(w, rank),
        inv(w, rank, v),
        v.pending is None,
        v.frames.len() > 0,
        v.frames.last().1 == v.frames.last().0.includes.len(),
    ensures
        forall|x: Seq<char>| #[trigger] reach(w, rank, v.frames.last().0.path).contains(x) ==> key_in(v.files, x),
        v.frames.last().0.path == v.main || reach(w, rank, v.main).contains(v.frames.last().0.path),
        w.dom().contains(v.frames.last().0.path),
{
    reveal(inv);
    let fr = v.frames;
    let n = fr.len();
    let p = fr.last().0.path;
    assert(fr[n - 1] == fr.last());
    let s = Set::new(|x: Seq<char>| key_in(v.files, x));
    assert forall|j: int| 0 <= j < includes_in(w, p).len() implies s.contains(#[trigger] includes_in(w, p)[j]) && reach(
        w,
        rank,
        includes_in(w, p)[j],
    ).subset_of(s) by {
        assert(done(w, rank, v.files, fr[n - 1].0.includes[j]));
    }
    lemma_reach_upto_within(w, rank, p, includes_in(w, p).len(), s);
}

#[verifier::rlimit(100)]
#[verifier::spinoff_prover]
proof fn lemma_step_pop(w: Map<Seq<char>, File>, rank: spec_fn(Seq<char>) -> nat, v: ContextView)
    requires
        closed_acyclic(w, rank),
        inv(w, rank, v),
        v.pending is None,
        v.frames.len() > 1,
        v.frames.last().1 == v.frames.last().0.includes.len(),
    ensures
        inv(w, rank, popped(v, v.frames.last().0.path)),
{
    lemma_top_done(w, rank, v);
    reveal(inv);
    let fr = v.frames;
    let n = fr.len();
    let (f, next) = fr.last();
    let p = f.path;
    assert(fr[n - 1] == fr.last());
    let rest = fr.drop_last();
    let files2 = insert(v.files, p, AttemptView::Loaded(f));
    lemma_insert(v.files, p, AttemptView::Loaded(f));
    lemma_insert_loaded(v.files, p, AttemptView::Loaded(f), v.main);
    let v3 = popped(v, p);
    let m = rest.len();
    assert forall|i: int| 0 <= i < files2.len() implies (#[trigger] files2[i]).0 == v.main || reach(w, rank, v.main).contains(
        files2[i].0,
    ) by {
        assert(key_in(files2, files2[i].0));
        if files2[i].0 != p {
            let j = choose|j: int| 0 <= j < v.files.len() && v.files[j].0 == files2[i].0;
            assert(v.files[j] == v.files[j]);
        }
    }
    assert forall|k: int, j: int|
        #![trigger rest[k].0.includes[j]]
        0 <= k < m && 0 <= j < rest[k].1 && !(j == rest[k].1 - 1 && (k + 1 < m || v3.pending is Some)) implies done(
        w,
        rank,
        files2,
        rest[k].0.includes[j],
    ) by {
        let q = rest[k].0.includes[j];
        assert(rest[k] == fr[k]);
        if k == m - 1 && j == rest[k].1 - 1 {
            assert(fr[n - 1].0.path == fr[n - 2].0.includes[fr[n - 2].1 - 1]);
            assert(q == p);
        } else {
            assert(done(w, rank, v.files, fr[k].0.includes[j]));
        }
    }
    assert forall|k: int| 0 <= k < m implies {
        &&& w.dom().contains((#[trigger] rest[k]).0.path)
        &&& rest[k].0 == loaded_view(rest[k].0.path, w[rest[k].0.path])
        &&& rest[k].1 <= rest[k].0.includes.len()
        &&& (rest[k].0.path == v3.main || reach(w, rank, v3.main).contains(rest[k].0.path))
    } by {
        assert(rest[k] == fr[k]);
    }
    assert forall|k: int| 0 < k < m implies {
        &&& rest[k - 1].1 >= 1
        &&& (#[trigger] rest[k]).0.path == rest[k - 1].0.includes[rest[k - 1].1 - 1]
    } by {
        assert(rest[k] == fr[k] && rest[k - 1] == fr[k - 1]);
    }
    assert forall|a: int, b: int| #![trigger rest[a], rest[b]] 0 <= a < b < m implies rank(rest[b].0.path) < rank(
        rest[a].0.path,
    ) by {
        assert(rest[a] == fr[a] && rest[b] == fr[b]);
    }
}

#[verifier::rlimit(100)]
#[verifier::spinoff_prover]
proof fn lemma_step_finish(w: Map<Seq<char>, File>, rank: spec_fn(Seq<char>) -> nat, v: ContextView)
    requires
        closed_acyclic(w, rank),
        inv(w, rank, v),
        v.pending is None,
        v.frames.len() == 1,
        v.frames.last().1 == v.frames.last().0.includes.len(),
    ensures
        inv(w, rank, ContextView { pending: None, ..popped(v, v.main) }),
        all_done(w, rank, popped(v, v.main)),
{
    lemma_top_done(w, rank, v);
    reveal(inv);
    let fr = v.frames;
    let f = fr.last().0;
    assert(fr[0] == fr.last());
    assert(f.path == v.main);
    let files2 = insert(v.files, v.main, AttemptView::Loaded(f));
    lemma_insert(v.files, v.main, AttemptView::Loaded(f));
    lemma_insert_loaded(v.files, v.main, AttemptView::Loaded(f), v.main);
    assert forall|i: int| 0 <= i < files2.len() implies (#[trigger] files2[i]).0 == v.main || reach(w, rank, v.main).contains(
        files2[i].0,
    ) by {
        assert(key_in(files2, files2[i].0));
        if files2[i].0 != v.main {
            let j = choose|j: int| 0 <= j < v.files.len() && v.files[j].0 == files2[i].0;
            assert(v.files[j] == v.files[j]);
        }
    }
    assert(popped(v, v.main).frames.len() == 0);
}

proof fn lemma_advance_inv(w: Map<Seq<char>, File>, rank: spec_fn(Seq<char>) -> nat, v: ContextView)
    requires
        closed_acyclic(w, rank),
        inv(w, rank, v),
        v.pending is None,
        v.frames.len() > 0,
    ensures
        inv(w, rank, advance(v).0),
        advance(v).0.main == v.main,
        advance(v).0.pending == advance(v).1,
        advance(v).1 is None ==> all_done(w, rank, advance(v).0),
    decreases v.frames.len(), crate::compile::top_remaining(v),
{
    let (f, next) = v.frames.last();
    if next < f.includes.len() {
        lemma_step_request(w, rank, v);
        assert(advance(v) == (requested(v), Some(f.includes[next as int])));
    } else {
        assert(inv(w, rank, v) ==> next <= f.includes.len()) by {
            reveal(inv);
            assert(v.frames[v.frames.len() - 1] == v.frames.last());
        }
        if v.frames.len() > 1 {
            lemma_step_pop(w, rank, v);
            assert(advance(v) == advance(popped(v, f.path)));
            lemma_advance_inv(w, rank, popped(v, f.path));
        } else {
            lemma_step_finish(w, rank, v);
            assert(advance(v) == (ContextView { pending: None, ..popped(v, v.main) }, None::<Seq<char>>));
        }
    }
}

#[verifier::rlimit(100)]
#[verifier::spinoff_prover]
proof fn lemma_step_push(w: Map<Seq<char>, File>, rank: spec_fn(Seq<char>) -> nat, v: ContextView)
    requires
        closed_acyclic(w, rank),
        inv(w, rank, v),
        v.pending is Some,
    ensures
        inv(
            w,
            rank,
            ContextView {
                frames: v.frames.push((loaded_view(v.pending->Some_0, w[v.pending->Some_0]), 0)),
                pending: None,
                ..v
            },
        ),
{
    reveal(inv);
    let q = v.pending->Some_0;
    let fr = v.frames;
    let n = fr.len();
    let top = fr[n - 1];
    let p = top.0.path;
    assert(includes_in(w, p)[top.1 - 1] == q);
    assert(w.dom().contains(q) && rank(q) < rank(p));
    let lv = loaded_view(q, w[q]);
    let v2 = ContextView { frames: fr.push((lv, 0)), pending: None, ..v };
    let fr2 = v2.frames;
    lemma_reach_upto_facts(w, rank, p, includes_in(w, p).len());
    if p != v.main {
        lemma_reach_trans(w, rank, v.main, includes_in(w, v.main).len(), p);
    }
    assert(q == v.main || reach(w, rank, v.main).contains(q));
    assert forall|k: int| 0 <= k < n + 1 implies {
        &&& w.dom().contains((#[trigger] fr2[k]).0.path)
        &&& fr2[k].0 == loaded_view(fr2[k].0.path, w[fr2[k].0.path])
        &&& fr2[k].1 <= fr2[k].0.includes.len()
        &&& (fr2[k].0.path == v2.main || reach(w, rank, v2.main).contains(fr2[k].0.path))
    } by {
        if k < n {
            assert(fr2[k] == fr[k]);
        }
    }
    assert forall|k: int| 0 < k < n + 1 implies {
        &&& fr2[k - 1].1 >= 1
        &&& (#[trigger] fr2[k]).0.path == fr2[k - 1].0.includes[fr2[k - 1].1 - 1]
    } by {
        if k < n {
            assert(fr2[k] == fr[k] && fr2[k - 1] == fr[k - 1]);
        }
    }
    assert forall|a: int, b: int| #![trigger fr2[a], fr2[b]] 0 <= a < b < n + 1 implies rank(fr2[b].0.path) < rank(
        fr2[a].0.path,
    ) by {
        if b < n {
            assert(fr2[a] == fr[a] && fr2[b] == fr[b]);
        } else if a < n - 1 {
            assert(rank(fr[n - 1].0.path) < rank(fr[a].0.path));
        }
    }
    assert forall|k: int, j: int|
        #![trigger fr2[k].0.includes[j]]
        0 <= k < n + 1 && 0 <= j < fr2[k].1 && !(j == fr2[k].1 - 1 && (k + 1 < n + 1 || v2.pending is Some)) implies done(
        w,
        rank,
        v2.files,
        fr2[k].0.includes[j],
    ) by {
        assert(fr2[k] == fr[k]);
    }
}

proof fn lemma_load_inv(w: Map<Seq<char>, File>, rank: spec_fn(Seq<char>) -> nat, v: ContextView)
    requires
        closed_acyclic(w, rank),
        inv(w, rank, v),
        v.pending is Some,
    ensures
        inv(w, rank, after_loaded(v, w[v.pending->Some_0]).0),
        after_loaded(v, w[v.pending->Some_0]).0.main == v.main,
        after_loaded(v, w[v.pending->Some_0]).0.pending is None ==> all_done(w, rank, after_loaded(v, w[v.pending->Some_0]).0),
{
    let q = v.pending->Some_0;
    lemma_step_push(w, rank, v);
    let v2 = ContextView { frames: v.frames.push((loaded_view(q, w[q]), 0)), pending: None, ..v };
    assert(v2.frames.len() > 0);
    lemma_advance_inv(w, rank, v2);
}

proof fn lemma_first_load(w: Map<Seq<char>, File>, rank: spec_fn(Seq<char>) -> nat, main: Seq<char>)
    requires
        closed_acyclic(w, rank),
        w.dom().contains(main),
    ensures
        inv(w, rank, after_loaded(initial(main), w[main]).0),
        after_loaded(initial(main), w[main]).0.main == main,
        after_loaded(initial(main), w[main]).0.pending is None ==> all_done(
            w,
            rank,
            after_loaded(initial(main), w[main]).0,
        ),
{
    let v0 = initial(main);
    lemma_reach_upto_facts(w, rank, main, includes_in(w, main).len());
    let v1 = ContextView { frames: v0.frames.push((loaded_view(main, w[main]), 0)), pending: None, ..v0 };
    assert(inv(w, rank, v1)) by {
        reveal(inv);
        assert(v1.files[0].0 == main);
        assert(keys_unique(v1.files));
    }
    lemma_advance_inv(w, rank, v1);
}

#[verifier::rlimit(100)]
#[verifier::spinoff_prover]
proof fn lemma_final_count(w: Map<Seq<char>, File>, rank: spec_fn(Seq<char>) -> nat, vf: ContextView)
    requires
        closed_acyclic(w, rank),
        w.dom().contains(vf.main),
        inv(w, rank, vf),
        all_done(w, rank, vf),
    ensures
        keys_unique(vf.files),
        forall|x: Seq<char>| #[trigger] key_in(vf.files, x) <==> x == vf.main || reach(w, rank, vf.main).contains(x),
        !reach(w, rank, vf.main).contains(vf.main),
        reach(w, rank, vf.main).finite(),
        vf.files.len() == reach(w, rank, vf.main).len() + 1,
        all_loaded(vf.files),
{
    reveal(inv);
    let main = vf.main;
    lemma_reach_upto_facts(w, rank, main, includes_in(w, main).len());
    assert forall|x: Seq<char>| #[trigger] key_in(vf.files, x) <==> x == main || reach(w, rank, main).contains(x) by {
        if key_in(vf.files, x) {
            let i = choose|i: int| 0 <= i < vf.files.len() && vf.files[i].0 == x;
            assert(vf.files[i] == vf.files[i]);
        }
    }
    let ks = vf.files.map_values(|e: (Seq<char>, AttemptView)| e.0);
    assert(ks.no_duplicates()) by {
        assert forall|a: int, b: int| 0 <= a < ks.len() && 0 <= b < ks.len() && a != b implies ks[a] != ks[b] by {
            assert(ks[a] == vf.files[a].0 && ks[b] == vf.files[b].0);
            if a < b {
                assert(vf.files[a].0 != vf.files[b].0);
            } else {
                assert(vf.files[b].0 != vf.files[a].0);
            }
        }
    }
    ks.unique_seq_to_set();
    let all = reach(w, rank, main).insert(main);
    assert(ks.to_set() =~= all) by {
        assert forall|x: Seq<char>| ks.to_set().contains(x) <==> all.contains(x) by {
            if ks.to_set().contains(x) {
                let i = choose|i: int| 0 <= i < ks.len() && ks[i] == x;
                assert(key_in(vf.files, x));
            }
            if all.contains(x) {
                assert(key_in(vf.files, x));
                let i = choose|i: int| 0 <= i < vf.files.len() && vf.files[i].0 == x;
                assert(ks[i] == x);
            }
        }
    }
    assert(reach(w, rank, main) =~= all.remove(main));
    vstd::seq_lib::seq_to_set_is_finite(ks);
    vstd::set::axiom_set_remove_finite(all, main);
    vstd::set::axiom_set_insert_len(reach(w, rank, main), main);
}

/// Over a closed, acyclic include graph `w` whose files all load, a
/// resolution from `main` that runs to its end registers the main file and
/// every file reachable from it, each exactly once and as a loaded file, and
/// no other: with `N` distinct files reachable from the main file, `N + 1`
/// entries. (Loading a file never records a diagnostic: see `Context::resume`.)
pub proof fn lemma_acyclic_registers_reachable(
    w: Map<Seq<char>, File>,
    rank: spec_fn(Seq<char>) -> nat,
    main: Seq<char>,
    fuel: nat,
)
    requires
        closed_acyclic(w, rank),
        w.dom().contains(main),
        run(initial(main), w, fuel) is Some,
    ensures
        keys_unique(run(initial(main), w, fuel)->Some_0.files),
        forall|x: Seq<char>|
            #[trigger] key_in(run(initial(main), w, fuel)->Some_0.files, x) <==> x == main || reach(w, rank, main).contains(x),
        !reach(w, rank, main).contains(main),
        reach(w, rank, main).finite(),
        run(initial(main), w, fuel)->Some_0.files.len() == reach(w, rank, main).len() + 1,
        all_loaded(run(initial(main), w, fuel)->Some_0.files),
{
    let v0 = initial(main);
    assert(fuel > 0);
    assert(run(v0, w, fuel) == run(after_loaded(v0, w[main]).0, w, (fuel - 1) as nat));
    lemma_first_load(w, rank, main);
    lemma_run_inv(w, rank, after_loaded(v0, w[main]).0, (fuel - 1) as nat);
    lemma_final_count(w, rank, run(v0, w, fuel)->Some_0);
}

proof fn lemma_run_inv(w: Map<Seq<char>, File>, rank: spec_fn(Seq<char>) -> nat, v: ContextView, fuel: nat)
    requires
        closed_acyclic(w, rank),
        inv(w, rank, v),
        v.pending is None ==> all_done(w, rank, v),
        run(v, w, fuel) is Some,
    ensures
        inv(w, rank, run(v, w, fuel)->Some_0),
        run(v, w, fuel)->Some_0.main == v.main,
        all_done(w, rank, run(v, w, fuel)->Some_0),
    decreases fuel,
{
    if v.pending is Some {
        lemma_load_inv(w, rank, v);
        lemma_run_inv(w, rank, after_loaded(v, w[v.pending->Some_0]).0, (fuel - 1) as nat);
    }
}

/// Loads that resolving the include targets of `p` from index `from` on
/// takes: each target once, and then its own include targets.
pub open spec fn loads_from(w: Map<Seq<char>, File>, rank: spec_fn(Seq<char>) -> nat, p: Seq<char>, from: nat) -> nat
    decreases rank(p), includes_in(w, p).len() - from,
{
    if from >= includes_in(w, p).len() {
        0
    } else {
        let q = includes_in(w, p)[from as int];
        (if rank(q) < rank(p) {
            1 + loads_from(w, rank, q, 0)
        } else {
            0
        }) + loads_from(w, rank, p, from + 1)
    }
}

/// Loads still owed by the files on the include stack.
pub open spec fn stack_loads(w: Map<Seq<char>, File>, rank: spec_fn(Seq<char>) -> nat, fr: Seq<(FileView, nat)>) -> nat
    decreases fr.len(),
{
    if fr.len() == 0 {
        0
    } else {
        stack_loads(w, rank, fr.drop_last()) + loads_from(w, rank, fr.last().0.path, fr.last().1)
    }
}

/// Loads still owed by a resolution in state `v`.
pub open spec fn loads_left(w: Map<Seq<char>, File>, rank: spec_fn(Seq<char>) -> nat, v: ContextView) -> nat {
    stack_loads(w, rank, v.frames) + match v.pending {
        Some(q) => 1 + loads_from(w, rank, q, 0),
        None => 0,
    }
}

proof fn lemma_inv_top(w: Map<Seq<char>, File>, rank: spec_fn(Seq<char>) -> nat, v: ContextView)
    requires
        inv(w, rank, v),
        v.frames.len() > 0,
    ensures
        w.dom().contains(v.frames.last().0.path),
        v.frames.last().0 == loaded_view(v.frames.last().0.path, w[v.frames.last().0.path]),
        v.frames.last().1 <= v.frames.last().0.includes.len(),
        v.pending is Some ==> v.frames.last().1 >= 1 && v.pending->Some_0 == v.frames.last().0.includes[v.frames.last().1 - 1],
        v.frames.len() == 1 ==> v.frames.last().0.path == v.main,
{
    reveal(inv);
    assert(v.frames[v.frames.len() - 1] == v.frames.last());
}

proof fn lemma_advance_loads(w: Map<Seq<char>, File>, rank: spec_fn(Seq<char>) -> nat, v: ContextView)
    requires
        closed_acyclic(w, rank),
        inv(w, rank, v),
        v.pending is None,
        v.frames.len() > 0,
    ensures
        loads_left(w, rank, advance(v).0) == loads_left(w, rank, v),
    decreases v.frames.len(), crate::compile::top_remaining(v),
{
    lemma_inv_top(w, rank, v);
    let (f, next) = v.frames.last();
    let p = f.path;
    let fr = v.frames;
    if next < f.includes.len() {
        lemma_step_request(w, rank, v);
        assert(advance(v) == (requested(v), Some(f.includes[next as int])));
        let inc = f.includes[next as int];
        assert(includes_in(w, p)[next as int] == inc);
        assert(rank(inc) < rank(p));
        let r = requested(v);
        assert(r.frames.drop_last() =~= fr.drop_last());
        assert(r.frames.last() == (f, next + 1));
    } else {
        if fr.len() > 1 {
            lemma_step_pop(w, rank, v);
            assert(advance(v) == advance(popped(v, p)));
            lemma_advance_loads(w, rank, popped(v, p));
        } else {
            assert(fr.drop_last() =~= Seq::<(FileView, nat)>::empty());
            assert(advance(v) == (ContextView { pending: None, ..popped(v, v.main) }, None::<Seq<char>>));
        }
    }
}

proof fn lemma_load_loads(w: Map<Seq<char>, File>, rank: spec_fn(Seq<char>) -> nat, v: ContextView)
    requires
        closed_acyclic(w, rank),
        inv(w, rank, v),
        v.pending is Some,
    ensures
        loads_left(w, rank, after_loaded(v, w[v.pending->Some_0]).0) + 1 == loads_left(w, rank, v),
{
    let q = v.pending->Some_0;
    lemma_step_push(w, rank, v);
    let v2 = ContextView { frames: v.frames.push((loaded_view(q, w[q]), 0)), pending: None, ..v };
    assert(v2.frames.drop_last() =~= v.frames);
    lemma_advance_loads(w, rank, v2);
}

proof fn lemma_run_ends(w: Map<Seq<char>, File>, rank: spec_fn(Seq<char>) -> nat, v: ContextView, fuel: nat)
    requires
        closed_acyclic(w, rank),
        inv(w, rank, v),
        fuel >= loads_left(w, rank, v),
    ensures
        run(v, w, fuel) is Some,
    decreases fuel,
{
    if v.pending is Some {
        lemma_load_inv(w, rank, v);
        lemma_load_loads(w, rank, v);
        lemma_run_ends(w, rank, after_loaded(v, w[v.pending->Some_0]).0, (fuel - 1) as nat);
    }
}

/// Over a closed, acyclic include graph whose files all load, resolution
/// from `main` ends: after `1 + loads_from(w, rank, main, 0)` loads at most.
pub proof fn lemma_acyclic_resolution_ends(w: Map<Seq<char>, File>, rank: spec_fn(Seq<char>) -> nat, main: Seq<char>)
    requires
        closed_acyclic(w, rank),
        w.dom().contains(main),
    ensures
        run(initial(main), w, 1 + loads_from(w, rank, main, 0)) is Some,
{
    let v0 = initial(main);
    let fuel = 1 + loads_from(w, rank, main, 0);
    let v1 = ContextView { frames: v0.frames.push((loaded_view(main, w[main]), 0)), pending: None, ..v0 };
    lemma_first_load(w, rank, main);
    assert(inv(w, rank, v1)) by {
        reveal(inv);
        lemma_reach_upto_facts(w, rank, main, includes_in(w, main).len());
        assert(v1.files[0].0 == main);
        assert(keys_unique(v1.files));
    }
    assert(v1.frames.drop_last() =~= Seq::<(FileView, nat)>::empty());
    assert(stack_loads(w, rank, Seq::<(FileView, nat)>::empty()) == 0);
    assert(v1.frames.last().0.path == main);
    assert(loads_left(w, rank, v1) == loads_from(w, rank, main, 0));
    assert(after_loaded(v0, w[main]).0 == advance(v1).0);
    lemma_advance_loads(w, rank, v1);
    lemma_run_ends(w, rank, after_loaded(v0, w[main]).0, (fuel - 1) as nat);
    assert(run(v0, w, fuel) == run(after_loaded(v0, w[main]).0, w, (fuel - 1) as nat));
}

} // verus!
