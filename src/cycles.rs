//! Include resolution over any finite set of files, include cycles allowed:
//! it ends, and registers each path at most once.
use vstd::prelude::*;

use crate::acyclic::{includes_in, lemma_insert, run};
use crate::ast::File;
use crate::compile::{
    advance, after_loaded, initial, insert, keys_unique, loaded_view, on_stack, AttemptView, ContextView, FileView,
};

verus! {

/// Every include target of a file of `w` is a file of `w`.
pub open spec fn closed(w: Map<Seq<char>, File>) -> bool {
    forall|p: Seq<char>, j: int|
        #![trigger includes_in(w, p)[j]]
        w.dom().contains(p) && 0 <= j < includes_in(w, p).len() ==> w.dom().contains(includes_in(w, p)[j])
}

/// Loads that resolving the include targets of `p` from index `from` on
/// takes when the paths `s` are on the include stack: a target on the stack is
/// skipped, any other is loaded once and resolved in turn with it on the
/// stack. `depth` bounds the paths not yet on the stack.
pub open spec fn loads_avoiding(
    w: Map<Seq<char>, File>,
    s: Set<Seq<char>>,
    p: Seq<char>,
    from: nat,
    depth: nat,
) -> nat
    decreases depth, includes_in(w, p).len() - from,
{
    if from >= includes_in(w, p).len() {
        0
    } else {
        let q = includes_in(w, p)[from as int];
        (if s.contains(q) || depth == 0 {
            0
        } else {
            1 + loads_avoiding(w, s.insert(q), q, 0, (depth - 1) as nat)
        }) + loads_avoiding(w, s, p, from + 1, depth)
    }
}

/// The paths of the include stack, outermost first.
pub open spec fn stack_paths(fr: Seq<(FileView, nat)>) -> Seq<Seq<char>> {
    fr.map_values(|x: (FileView, nat)| x.0.path)
}

/// Paths not on a stack of `n` distinct files, among those of `w`.
pub open spec fn free_depth(w: Map<Seq<char>, File>, n: nat) -> nat {
    if n <= w.dom().len() {
        (w.dom().len() - n) as nat
    } else {
        0
    }
}

/// Loads still owed by the files on the include stack `fr`.
pub open spec fn stack_owed(w: Map<Seq<char>, File>, fr: Seq<(FileView, nat)>) -> nat
    decreases fr.len(),
{
    if fr.len() == 0 {
        0
    } else {
        stack_owed(w, fr.drop_last()) + loads_avoiding(
            w,
            stack_paths(fr).to_set(),
            fr.last().0.path,
            fr.last().1,
            free_depth(w, fr.len()),
        )
    }
}

/// Loads still owed by a resolution in state `v`.
pub open spec fn owed(w: Map<Seq<char>, File>, v: ContextView) -> nat {
    stack_owed(w, v.frames) + match v.pending {
        Some(q) => 1 + loads_avoiding(
            w,
            stack_paths(v.frames).to_set().insert(q),
            q,
            0,
            free_depth(w, v.frames.len() + 1),
        ),
        None => 0,
    }
}

/// A resolution state over `w`: files of `w` on the stack, each once, each
/// with its include targets; a requested path is a file of `w` off the stack.
#[verifier::opaque]
pub open spec fn state_ok(w: Map<Seq<char>, File>, v: ContextView) -> bool {
    let fr = v.frames;
    &&& w.dom().finite()
    &&& keys_unique(v.files)
    &&& stack_paths(fr).no_duplicates()
    &&& forall|k: int|
        0 <= k < fr.len() ==> {
            &&& w.dom().contains((#[trigger] fr[k]).0.path)
            &&& fr[k].0 == loaded_view(fr[k].0.path, w[fr[k].0.path])
            &&& fr[k].1 <= fr[k].0.includes.len()
        }
    &&& v.pending is Some ==> {
        &&& w.dom().contains(v.pending->Some_0)
        &&& !stack_paths(fr).contains(v.pending->Some_0)
    }
}

/// A stack of distinct files of `w` has at most as many entries as `w`.
proof fn lemma_stack_bound(w: Map<Seq<char>, File>, fr: Seq<(FileView, nat)>)
    requires
        w.dom().finite(),
        stack_paths(fr).no_duplicates(),
        forall|k: int| 0 <= k < fr.len() ==> w.dom().contains((#[trigger] fr[k]).0.path),
    ensures
        stack_paths(fr).to_set().len() == fr.len(),
        stack_paths(fr).to_set().subset_of(w.dom()),
        fr.len() <= w.dom().len(),
{
    stack_paths(fr).unique_seq_to_set();
    assert forall|x: Seq<char>| stack_paths(fr).to_set().contains(x) implies w.dom().contains(x) by {
        let i = choose|i: int| 0 <= i < stack_paths(fr).len() && stack_paths(fr)[i] == x;
        assert(fr[i].0.path == x);
    }
    vstd::set_lib::lemma_len_subset(stack_paths(fr).to_set(), w.dom());
}

proof fn lemma_paths_update(fr: Seq<(FileView, nat)>, x: (FileView, nat))
    requires
        fr.len() > 0,
        x.0.path == fr.last().0.path,
    ensures
        stack_paths(fr.update(fr.len() - 1, x)) == stack_paths(fr),
        fr.update(fr.len() - 1, x).drop_last() == fr.drop_last(),
{
    assert(stack_paths(fr.update(fr.len() - 1, x)) =~= stack_paths(fr));
    assert(fr.update(fr.len() - 1, x).drop_last() =~= fr.drop_last());
}

proof fn lemma_paths_push(fr: Seq<(FileView, nat)>, x: (FileView, nat))
    ensures
        stack_paths(fr.push(x)) == stack_paths(fr).push(x.0.path),
        stack_paths(fr.push(x)).to_set() == stack_paths(fr).to_set().insert(x.0.path),
        fr.push(x).drop_last() == fr,
{
    assert(stack_paths(fr.push(x)) =~= stack_paths(fr).push(x.0.path));
    assert(stack_paths(fr).push(x.0.path).to_set() =~= stack_paths(fr).to_set().insert(x.0.path)) by {
        assert forall|y: Seq<char>| stack_paths(fr).push(x.0.path).to_set().contains(y) <==> stack_paths(fr).to_set().insert(
            x.0.path,
        ).contains(y) by {
            if stack_paths(fr).to_set().contains(y) {
                let i = choose|i: int| 0 <= i < stack_paths(fr).len() && stack_paths(fr)[i] == y;
                assert(stack_paths(fr).push(x.0.path)[i] == y);
            }
            if stack_paths(fr).push(x.0.path).to_set().contains(y) {
                let i = choose|i: int|
                    0 <= i < stack_paths(fr).push(x.0.path).len() && stack_paths(fr).push(x.0.path)[i] == y;
                if i < stack_paths(fr).len() {
                    assert(stack_paths(fr)[i] == y);
                }
            }
            if y == x.0.path {
                assert(stack_paths(fr).push(x.0.path)[stack_paths(fr).len() as int] == y);
            }
        }
    }
    assert(fr.push(x).drop_last() =~= fr);
}

proof fn lemma_on_stack_paths(fr: Seq<(FileView, nat)>, q: Seq<char>)
    ensures
        on_stack(fr, q) <==> stack_paths(fr).contains(q),
        stack_paths(fr).contains(q) <==> stack_paths(fr).to_set().contains(q),
{
    if on_stack(fr, q) {
        let k = choose|k: int| 0 <= k < fr.len() && fr[k].0.path == q;
        assert(stack_paths(fr)[k] == q);
    }
    if stack_paths(fr).contains(q) {
        let k = choose|k: int| 0 <= k < stack_paths(fr).len() && stack_paths(fr)[k] == q;
        assert(fr[k].0.path == q);
    }
}

#[verifier::rlimit(100)]
#[verifier::spinoff_prover]
proof fn lemma_advance_owed(w: Map<Seq<char>, File>, v: ContextView)
    requires
        closed(w),
        state_ok(w, v),
        v.pending is None,
        v.frames.len() > 0,
    ensures
        state_ok(w, advance(v).0),
        owed(w, advance(v).0) == owed(w, v),
    decreases v.frames.len(), crate::compile::top_remaining(v),
{
    reveal(state_ok);
    let fr = v.frames;
    let n = fr.len();
    let (f, next) = fr.last();
    let p = f.path;
    assert(fr[n - 1] == fr.last());
    let sp = stack_paths(fr).to_set();
    let d = free_depth(w, n);
    lemma_stack_bound(w, fr);
    assert(stack_owed(w, fr) == stack_owed(w, fr.drop_last()) + loads_avoiding(w, sp, p, next, d));
    if next < f.includes.len() {
        let q = f.includes[next as int];
        assert(includes_in(w, p)[next as int] == q);
        assert(w.dom().contains(q));
        let fr2 = fr.update(n - 1, (f, next + 1));
        let v2 = ContextView { frames: fr2, ..v };
        lemma_paths_update(fr, (f, next + 1));
        assert(stack_owed(w, fr2) == stack_owed(w, fr.drop_last()) + loads_avoiding(w, sp, p, next + 1, d));
        lemma_on_stack_paths(fr, q);
        assert forall|k: int| 0 <= k < fr2.len() implies {
            &&& w.dom().contains((#[trigger] fr2[k]).0.path)
            &&& fr2[k].0 == loaded_view(fr2[k].0.path, w[fr2[k].0.path])
            &&& fr2[k].1 <= fr2[k].0.includes.len()
        } by {
            assert(fr2[k].0 == fr[k].0);
        }
        if on_stack(fr, q) {
            assert(advance(v) == advance(v2));
            assert(state_ok(w, v2));
            lemma_advance_owed(w, v2);
        } else {
            let r = ContextView { pending: Some(q), ..v2 };
            assert(advance(v) == (r, Some(q)));
            // one more path than the stack holds is still a file of `w`
            vstd::set_lib::lemma_len_subset(sp.insert(q), w.dom());
            assert(d >= 1);
            assert(free_depth(w, n + 1) == d - 1);
            assert(state_ok(w, r));
        }
    } else {
        let rest = fr.drop_last();
        assert(stack_paths(rest) =~= stack_paths(fr).drop_last());
        assert forall|k: int| 0 <= k < rest.len() implies {
            &&& w.dom().contains((#[trigger] rest[k]).0.path)
            &&& rest[k].0 == loaded_view(rest[k].0.path, w[rest[k].0.path])
            &&& rest[k].1 <= rest[k].0.includes.len()
        } by {
            assert(rest[k] == fr[k]);
        }
        assert(stack_paths(rest).no_duplicates()) by {
            assert forall|a: int, b: int|
                0 <= a < stack_paths(rest).len() && 0 <= b < stack_paths(rest).len() && a != b implies stack_paths(
                rest,
            )[a] != stack_paths(rest)[b] by {
                assert(stack_paths(rest)[a] == stack_paths(fr)[a]);
                assert(stack_paths(rest)[b] == stack_paths(fr)[b]);
            }
        }
        if rest.len() > 0 {
            let v3 = ContextView { frames: rest, files: insert(v.files, p, AttemptView::Loaded(f)), ..v };
            lemma_insert(v.files, p, AttemptView::Loaded(f));
            assert(advance(v) == advance(v3));
            assert(state_ok(w, v3));
            lemma_advance_owed(w, v3);
        } else {
            let files2 = insert(v.files, v.main, AttemptView::Loaded(f));
            lemma_insert(v.files, v.main, AttemptView::Loaded(f));
            let r = ContextView { frames: rest, files: files2, pending: None, ..v };
            assert(advance(v) == (r, None::<Seq<char>>));
            assert(stack_owed(w, rest) == 0);
            assert(state_ok(w, r));
        }
    }
}

#[verifier::rlimit(100)]
#[verifier::spinoff_prover]
proof fn lemma_load_owed(w: Map<Seq<char>, File>, v: ContextView)
    requires
        closed(w),
        state_ok(w, v),
        v.pending is Some,
    ensures
        state_ok(w, after_loaded(v, w[v.pending->Some_0]).0),
        owed(w, after_loaded(v, w[v.pending->Some_0]).0) + 1 == owed(w, v),
{
    reveal(state_ok);
    let q = v.pending->Some_0;
    let fr = v.frames;
    let x = (loaded_view(q, w[q]), 0nat);
    let fr2 = fr.push(x);
    let v2 = ContextView { frames: fr2, pending: None, ..v };
    lemma_paths_push(fr, x);
    assert(stack_paths(fr2).no_duplicates()) by {
        assert forall|a: int, b: int|
            0 <= a < stack_paths(fr2).len() && 0 <= b < stack_paths(fr2).len() && a != b implies stack_paths(fr2)[a]
            != stack_paths(fr2)[b] by {
            if a < fr.len() && b < fr.len() {
                assert(stack_paths(fr2)[a] == stack_paths(fr)[a]);
                assert(stack_paths(fr2)[b] == stack_paths(fr)[b]);
            } else if a < fr.len() {
                assert(stack_paths(fr2)[a] == stack_paths(fr)[a]);
            } else if b < fr.len() {
                assert(stack_paths(fr2)[b] == stack_paths(fr)[b]);
            }
        }
    }
    assert forall|k: int| 0 <= k < fr2.len() implies {
        &&& w.dom().contains((#[trigger] fr2[k]).0.path)
        &&& fr2[k].0 == loaded_view(fr2[k].0.path, w[fr2[k].0.path])
        &&& fr2[k].1 <= fr2[k].0.includes.len()
    } by {
        if k < fr.len() {
            assert(fr2[k] == fr[k]);
        }
    }
    assert(state_ok(w, v2));
    assert(stack_owed(w, fr2) == stack_owed(w, fr) + loads_avoiding(
        w,
        stack_paths(fr).to_set().insert(q),
        q,
        0,
        free_depth(w, fr.len() + 1),
    ));
    assert(after_loaded(v, w[q]).0 == advance(v2).0);
    lemma_advance_owed(w, v2);
}

proof fn lemma_run_owed(w: Map<Seq<char>, File>, v: ContextView, fuel: nat)
    requires
        closed(w),
        state_ok(w, v),
        fuel >= owed(w, v),
    ensures
        run(v, w, fuel) is Some,
        keys_unique(run(v, w, fuel)->Some_0.files),
    decreases fuel,
{
    if v.pending is Some {
        lemma_load_owed(w, v);
        lemma_run_owed(w, after_loaded(v, w[v.pending->Some_0]).0, (fuel - 1) as nat);
    } else {
        reveal(state_ok);
    }
}

/// Over any finite set `w` of files that holds every include target of its
/// files, include cycles allowed, resolution from a file `main` of `w` ends,
/// after a bounded number of loads, with each path registered at most once.
pub proof fn lemma_resolution_ends(w: Map<Seq<char>, File>, main: Seq<char>)
    requires
        w.dom().finite(),
        closed(w),
        w.dom().contains(main),
    ensures
        run(initial(main), w, owed(w, initial(main))) is Some,
        keys_unique(run(initial(main), w, owed(w, initial(main)))->Some_0.files),
{
    let v0 = initial(main);
    assert(state_ok(w, v0)) by {
        reveal(state_ok);
        assert(stack_paths(v0.frames) =~= Seq::<Seq<char>>::empty());
        assert(keys_unique(v0.files));
    }
    lemma_run_owed(w, v0, owed(w, v0));
}

} // verus!
