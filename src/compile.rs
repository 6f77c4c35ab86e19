//! Resolution of a main file and everything it includes, transitively, into
//! a registry of loaded files.
//!
//! Loading a file is left to the caller: `build_context` and `Context::resume`
//! say which path to load next, and the caller hands back the outcome, until
//! they say `Action::Done`.
use vstd::prelude::*;

use crate::ast::{self, File, RootToken, Token};
use crate::errors::{from_pest_parsing, load_error, CompileError};
use crate::matchers::{
    circuit_children, file_shaped, include_path, is_include_node, top_level_shaped,
};
use crate::matchers::process_include_statement;
use crate::paths::{join_path, joined_path, parent_dir, parent_of};

verus! {

/// The include targets among the circuit children `children`, resolved
/// against the directory `dir`, in order.
pub open spec fn include_targets(children: Seq<Token>, dir: Seq<char>) -> Seq<Seq<char>>
    decreases children.len(),
{
    if children.len() == 0 {
        Seq::empty()
    } else {
        let p = include_targets(children.drop_last(), dir);
        if is_include_node(children.last()) {
            p.push(joined_path(dir, include_path(children.last())))
        } else {
            p
        }
    }
}

/// The texts of a list of paths.
pub open spec fn texts(v: Seq<String>) -> Seq<Seq<char>> {
    v.map_values(|s: String| s@)
}

/// Fills `file.includes` with the paths that its inclusion statements name,
/// resolved against the file's directory, in order.
pub(crate) fn context_gather_includes(file: &mut File)
    requires
        file_shaped(*old(file)),
        parent_of(old(file).path@) is Some,
    ensures
        final(file).path == old(file).path,
        final(file).root == old(file).root,
        texts(final(file).includes@) == include_targets(
            circuit_children(*old(file)),
            parent_of(old(file).path@)->Some_0,
        ),
{
    let ghost children = circuit_children(*file);
    let current_file_dir = match parent_dir(&file.path) {
        Some(dir) => dir,
        None => {
            proof {
                assert(false);
            }
            String::new()
        },
    };
    let ghost dir = parent_of(file.path@)->Some_0;
    let mut includes: Vec<String> = Vec::new();
    match &file.root.ast[0] {
        Token::NonTerminal(circuit) => {
            let mut k: usize = 0;
            while k < circuit.subrules.len()
                invariant
                    k <= circuit.subrules@.len(),
                    circuit.subrules@ == children,
                    current_file_dir@ == dir,
                    forall|i: int| 0 <= i < children.len() ==> top_level_shaped(#[trigger] children[i]),
                    texts(includes@) == include_targets(children.subrange(0, k as int), dir),
                decreases circuit.subrules@.len() - k,
            {
                proof {
                    assert(children.subrange(0, k + 1).drop_last() =~= children.subrange(0, k as int));
                    assert(top_level_shaped(children[k as int]));
                }
                let token = &circuit.subrules[k];
                match token {
                    Token::NonTerminal(nt) => {
                        if nt.rule == ast::Rule::IncludeStatement {
                            let file_name = process_include_statement(token);
                            let include_absolute_path = join_path(&current_file_dir, file_name);
                            let ghost before = includes@;
                            includes.push(include_absolute_path);
                            proof {
                                assert(texts(includes@) =~= texts(before).push(include_absolute_path@));
                            }
                        }
                    },
                    Token::Terminal(_) => {},
                }
                k = k + 1;
            }
            proof {
                assert(children.subrange(0, k as int) =~= children);
            }
        },
        Token::Terminal(_) => {
            proof {
                assert(false);
            }
        },
    }
    file.includes = includes;
}

/// A loaded file as the registry sees it.
pub struct FileView {
    pub path: Seq<char>,
    pub root: RootToken,
    pub includes: Seq<Seq<char>>,
}

/// State of a registry entry.
pub enum AttemptView {
    Loading,
    Loaded(FileView),
    Error,
}

/// The view of a loaded file.
pub open spec fn file_view(f: File) -> FileView {
    FileView { path: f.path@, root: f.root, includes: texts(f.includes@) }
}

/// A registry entry: loading is under way, done, or failed.
#[derive(Debug)]
pub enum LoadAttempt {
    Loading,
    Loaded(File),
    Error,
}

impl LoadAttempt {
    pub open spec fn view_of(self) -> AttemptView {
        match self {
            LoadAttempt::Loading => AttemptView::Loading,
            LoadAttempt::Loaded(f) => AttemptView::Loaded(file_view(f)),
            LoadAttempt::Error => AttemptView::Error,
        }
    }
}

/// A registry entry: a path and what became of it.
#[derive(Debug)]
pub struct FileEntry {
    pub path: String,
    pub attempt: LoadAttempt,
}

/// A file whose includes are being resolved, and the index of the next one.
#[derive(Debug)]
struct Frame {
    file: File,
    next: usize,
}

/// What the caller does next: load the file at a path and hand the outcome
/// to `Context::resume`, or stop.
#[derive(Debug)]
pub enum Action {
    Load(String),
    Done,
}

/// State of include resolution: the registry of files by path, the
/// diagnostics, the main path, the files whose includes are being resolved
/// (the include stack, innermost last), and the path being loaded.
#[derive(Debug)]
pub struct Context {
    files: Vec<FileEntry>,
    errors: Vec<CompileError>,
    main: String,
    frames: Vec<Frame>,
    pending: Option<String>,
}

/// The view of the resolution state, diagnostics aside.
pub struct ContextView {
    pub files: Seq<(Seq<char>, AttemptView)>,
    pub main: Seq<char>,
    pub frames: Seq<(FileView, nat)>,
    pub pending: Option<Seq<char>>,
}

/// `files` with the entry for `path` set to `a`: replaced where `path` is
/// registered, appended otherwise.
pub open spec fn insert(files: Seq<(Seq<char>, AttemptView)>, path: Seq<char>, a: AttemptView) -> Seq<
    (Seq<char>, AttemptView),
> {
    if exists|i: int| 0 <= i < files.len() && files[i].0 == path {
        let i = choose|i: int| 0 <= i < files.len() && files[i].0 == path;
        files.update(i, (path, a))
    } else {
        files.push((path, a))
    }
}

/// Each path is registered at most once.
pub open spec fn keys_unique(files: Seq<(Seq<char>, AttemptView)>) -> bool {
    forall|i: int, j: int|
        #![trigger files[i], files[j]]
        0 <= i < j < files.len() ==> files[i].0 != files[j].0
}

/// `path` is on the include stack.
pub open spec fn on_stack(frames: Seq<(FileView, nat)>, path: Seq<char>) -> bool {
    exists|k: int| 0 <= k < frames.len() && frames[k].0.path == path
}

/// Includes of the innermost file that are still to resolve.
pub open spec fn top_remaining(v: ContextView) -> nat {
    if v.frames.len() > 0 && v.frames.last().1 <= v.frames.last().0.includes.len() {
        (v.frames.last().0.includes.len() - v.frames.last().1) as nat
    } else {
        0
    }
}

/// Resolution goes on until a file must be loaded (its path) or the main
/// file is done (none): the next include of the innermost file is skipped when
/// it is on the include stack and requested otherwise; a file whose includes
/// are all resolved leaves the stack and is registered under its path, or,
/// for the main file, under the main path.
pub open spec fn advance(v: ContextView) -> (ContextView, Option<Seq<char>>)
    decreases v.frames.len(), top_remaining(v),
{
    if v.frames.len() == 0 {
        (ContextView { pending: None, ..v }, None)
    } else {
        let (f, next) = v.frames.last();
        if next < f.includes.len() {
            let inc = f.includes[next as int];
            let v2 = ContextView { frames: v.frames.update(v.frames.len() - 1, (f, next + 1)), ..v };
            if on_stack(v.frames, inc) {
                advance(v2)
            } else {
                (ContextView { pending: Some(inc), ..v2 }, Some(inc))
            }
        } else {
            let rest = v.frames.drop_last();
            if rest.len() > 0 {
                advance(ContextView { frames: rest, files: insert(v.files, f.path, AttemptView::Loaded(f)), ..v })
            } else {
                (
                    ContextView {
                        frames: rest,
                        files: insert(v.files, v.main, AttemptView::Loaded(f)),
                        pending: None,
                        ..v
                    },
                    None,
                )
            }
        }
    }
}

/// The file loaded at `path`, with its include targets gathered.
pub open spec fn loaded_view(path: Seq<char>, f: File) -> FileView {
    FileView { path, root: f.root, includes: include_targets(circuit_children(f), parent_of(path)->Some_0) }
}

/// The step after the file at the pending path has been loaded as `f`.
pub open spec fn after_loaded(v: ContextView, f: File) -> (ContextView, Option<Seq<char>>) {
    let p = v.pending->Some_0;
    advance(ContextView { frames: v.frames.push((loaded_view(p, f), 0)), pending: None, ..v })
}

/// The step after the file at the pending path failed to load: the main
/// file is registered as failed; an included one is skipped.
pub open spec fn after_failed(v: ContextView) -> (ContextView, Option<Seq<char>>) {
    if v.frames.len() == 0 {
        (ContextView { files: insert(v.files, v.main, AttemptView::Error), pending: None, ..v }, None)
    } else {
        advance(ContextView { pending: None, ..v })
    }
}

/// The state right after `build_context(main)`.
pub open spec fn initial(main: Seq<char>) -> ContextView {
    ContextView { files: seq![(main, AttemptView::Loading)], main, frames: Seq::empty(), pending: Some(main) }
}

/// Every step of resolution keeps these: paths registered once, no include
/// beyond the last.
pub open spec fn view_wf(v: ContextView) -> bool {
    &&& keys_unique(v.files)
    &&& forall|k: int| 0 <= k < v.frames.len() ==> (#[trigger] v.frames[k]).1 <= v.frames[k].0.includes.len()
}

impl Context {
    pub closed spec fn view_of(self) -> ContextView {
        ContextView {
            files: self.files@.map_values(|e: FileEntry| (e.path@, e.attempt.view_of())),
            main: self.main@,
            frames: self.frames@.map_values(|fr: Frame| (file_view(fr.file), fr.next as nat)),
            pending: match self.pending {
                Some(p) => Some(p@),
                None => None,
            },
        }
    }

    /// The diagnostics so far.
    pub closed spec fn spec_errors(self) -> Seq<CompileError> {
        self.errors@
    }

    /// The path being loaded, if any.
    pub closed spec fn spec_pending(self) -> Option<String> {
        self.pending
    }

    /// The diagnostics recorded so far, in order.
    pub fn errors(&self) -> (r: &Vec<CompileError>)
        ensures
            r@ == self.spec_errors(),
    {
        &self.errors
    }

    /// The registry: each path requested, with what became of it.
    pub fn files(&self) -> (r: &Vec<FileEntry>)
        ensures
            r@.map_values(|e: FileEntry| (e.path@, e.attempt.view_of())) == self.view_of().files,
    {
        &self.files
    }

    /// The main path.
    pub fn main(&self) -> (r: &String)
        ensures
            r@ == self.view_of().main,
    {
        &self.main
    }

    /// Whether `f` can stand for the file being loaded: a parsed circuit
    /// with the expected shape, at a path that has a directory.
    pub fn accepts(&self, f: &File) -> (r: bool)
        ensures
            r == (file_shaped(*f) && self.spec_pending() is Some && parent_of(self.spec_pending()->Some_0@) is Some),
    {
        match &self.pending {
            Some(p) => f.is_well_shaped() && parent_dir(p).is_some(),
            None => false,
        }
    }
}

/// The path an action asks for, or none for `Action::Done`.
pub open spec fn action_of(a: Action) -> Option<Seq<char>> {
    match a {
        Action::Load(p) => Some(p@),
        Action::Done => None,
    }
}

impl Context {
    /// Resolution is under way: the state is consistent and a file is being
    /// loaded.
    pub closed spec fn waiting(self) -> bool {
        &&& view_wf(self.view_of())
        &&& self.pending is Some
    }

    proof fn lemma_view_frames(self, k: int)
        requires
            0 <= k < self.frames@.len(),
        ensures
            self.view_of().frames[k] == (file_view(self.frames@[k].file), self.frames@[k].next as nat),
    {
    }

    /// Whether `path` is on the include stack.
    fn is_on_stack(&self, path: &String) -> (r: bool)
        ensures
            r == on_stack(self.view_of().frames, path@),
    {
        let mut k: usize = 0;
        while k < self.frames.len()
            invariant
                k <= self.frames@.len(),
                forall|j: int| 0 <= j < k ==> self.frames@[j].file.path@ != path@,
            decreases self.frames@.len() - k,
        {
            if self.frames[k].file.path == *path {
                proof {
                    self.lemma_view_frames(k as int);
                }
                return true;
            }
            k = k + 1;
        }
        proof {
            if on_stack(self.view_of().frames, path@) {
                let j = choose|j: int| 0 <= j < self.view_of().frames.len() && self.view_of().frames[j].0.path == path@;
                self.lemma_view_frames(j);
            }
        }
        false
    }

    /// Registers `attempt` under `path`.
    fn insert_file(&mut self, path: String, attempt: LoadAttempt)
        requires
            keys_unique(old(self).view_of().files),
        ensures
            final(self).view_of() == (ContextView {
                files: insert(old(self).view_of().files, path@, attempt.view_of()),
                ..old(self).view_of()
            }),
            keys_unique(final(self).view_of().files),
            final(self).errors == old(self).errors,
            final(self).pending == old(self).pending,
    {
        let ghost files0 = self.view_of().files;
        let ghost a = attempt.view_of();
        let mut k: usize = 0;
        while k < self.files.len()
            invariant
                k <= self.files@.len(),
                *self == *old(self),
                files0 == old(self).view_of().files,
                keys_unique(files0),
                a == attempt.view_of(),
                self.view_of().files == files0,
                files0.len() == self.files@.len(),
                forall|j: int| 0 <= j < files0.len() ==> #[trigger] files0[j].0 == self.files@[j].path@,
                forall|j: int| 0 <= j < k ==> files0[j].0 != path@,
            decreases self.files@.len() - k,
        {
            if self.files[k].path == path {
                let ghost old_self = *self;
                self.files.set(k, FileEntry { path, attempt });
                proof {
                    assert(files0[k as int].0 == path@);
                    let i = choose|i: int| 0 <= i < files0.len() && files0[i].0 == path@;
                    assert(i == k) by {
                        if i != k {
                            if i < k {
                                assert(files0[i].0 != path@);
                            } else {
                                assert(files0[k as int].0 != files0[i].0);
                            }
                        }
                    }
                    assert(self.view_of().files =~= files0.update(k as int, (path@, a)));
                    assert(self.view_of().frames =~= old_self.view_of().frames);
                    let nf = self.view_of().files;
                    assert forall|x: int, y: int|
                        #![trigger nf[x], nf[y]]
                        0 <= x < y < nf.len() implies nf[x].0 != nf[y].0 by {
                        assert(files0[x].0 != files0[y].0);
                    }
                }
                return;
            }
            k = k + 1;
        }
        let ghost old_self = *self;
        self.files.push(FileEntry { path, attempt });
        proof {
            assert(!(exists|i: int| 0 <= i < files0.len() && files0[i].0 == path@));
            assert(self.view_of().files =~= files0.push((path@, a)));
            assert(self.view_of().frames =~= old_self.view_of().frames);
            let nf = self.view_of().files;
            assert forall|x: int, y: int|
                #![trigger nf[x], nf[y]]
                0 <= x < y < nf.len() implies nf[x].0 != nf[y].0 by {
                if y < files0.len() {
                    assert(files0[x].0 != files0[y].0);
                } else {
                    assert(files0[x].0 != path@);
                }
            }
        }
    }

    /// Goes on with resolution until a file must be loaded or the main file
    /// is done.
    fn advance_resolution(&mut self) -> (r: Action)
        requires
            view_wf(old(self).view_of()),
        ensures
            (final(self).view_of(), action_of(r)) == advance(old(self).view_of()),
            view_wf(final(self).view_of()),
            final(self).errors == old(self).errors,
            final(self).pending is Some <==> r is Load,
            r is Load ==> final(self).pending == Some(r->Load_0),
    {
        let ghost target = advance(self.view_of());
        loop
            invariant
                view_wf(self.view_of()),
                target == advance(old(self).view_of()),
                advance(self.view_of()) == target,
                self.errors == old(self).errors,
            decreases self.frames@.len(), top_remaining(self.view_of()),
        {
            let ghost v = self.view_of();
            let nf = self.frames.len();
            if nf == 0 {
                self.pending = None;
                proof {
                    assert(self.view_of() == (ContextView { pending: None, ..v }));
                }
                return Action::Done;
            }
            let k: usize = nf - 1;
            proof {
                self.lemma_view_frames(k as int);
            }
            let next = self.frames[k].next;
            if next < self.frames[k].file.includes.len() {
                let inc = self.frames[k].file.includes[next].clone();
                let stacked = self.is_on_stack(&inc);
                self.frames[k].next = next + 1;
                proof {
                    let fv = v.frames.last().0;
                    assert(fv.includes[next as int] == inc@);
                    assert(self.view_of().frames =~= v.frames.update(k as int, (fv, (next + 1) as nat)));
                    assert(self.view_of().files == v.files);
                    assert forall|j: int| 0 <= j < self.view_of().frames.len() implies (#[trigger] self.view_of().frames[j]).1
                        <= self.view_of().frames[j].0.includes.len() by {
                        if j != k {
                            assert(self.view_of().frames[j] == v.frames[j]);
                        }
                    }
                }
                if stacked {
                    continue;
                }
                self.pending = Some(inc.clone());
                return Action::Load(inc);
            } else {
                let fr = self.frames.pop().unwrap();
                proof {
                    assert(self.view_of().frames =~= v.frames.drop_last());
                    assert(file_view(fr.file) == v.frames.last().0);
                }
                if self.frames.len() > 0 {
                    let p = fr.file.path.clone();
                    self.insert_file(p, LoadAttempt::Loaded(fr.file));
                } else {
                    let m = self.main.clone();
                    self.insert_file(m, LoadAttempt::Loaded(fr.file));
                    self.pending = None;
                    return Action::Done;
                }
            }
        }
    }

    /// Hands over the outcome of loading the path that the last action asked
    /// for, and says what to do next. A loaded file has its include targets
    /// gathered and resolved in turn, depth first; an include already on the
    /// include stack is skipped, which ends any cycle. A file that could not
    /// be loaded yields its diagnostic and is skipped; the main file is then
    /// registered as failed.
    pub fn resume(&mut self, outcome: Result<File, ast::ParseError>) -> (r: Action)
        requires
            old(self).waiting(),
            outcome is Ok ==> file_shaped(outcome->Ok_0) && parent_of(old(self).spec_pending()->Some_0@) is Some,
        ensures
            r is Load <==> final(self).waiting(),
            r is Load ==> final(self).spec_pending() == Some(r->Load_0),
            outcome is Ok ==> {
                &&& (final(self).view_of(), action_of(r)) == after_loaded(old(self).view_of(), outcome->Ok_0)
                &&& final(self).spec_errors() == old(self).spec_errors()
            },
            outcome is Err ==> {
                &&& (final(self).view_of(), action_of(r)) == after_failed(old(self).view_of())
                &&& final(self).spec_errors().len() == old(self).spec_errors().len() + 1
                &&& final(self).spec_errors().drop_last() == old(self).spec_errors()
                &&& load_error(
                    final(self).spec_errors().last(),
                    old(self).spec_pending()->Some_0,
                    outcome->Err_0,
                )
            },
    {
        let path = match self.pending.take() {
            Some(p) => p,
            None => {
                proof {
                    assert(false);
                }
                return Action::Done;
            },
        };
        let ghost v = old(self).view_of();
        match outcome {
            Ok(file) => {
                let mut file = file;
                file.path = path;
                proof {
                    assert(circuit_children(file) == circuit_children(outcome->Ok_0));
                }
                context_gather_includes(&mut file);
                self.frames.push(Frame { file, next: 0 });
                proof {
                    assert(file_view(file) == loaded_view(v.pending->Some_0, outcome->Ok_0));
                    assert(self.view_of().frames =~= v.frames.push((loaded_view(v.pending->Some_0, outcome->Ok_0), 0)));
                    assert(self.view_of() == (ContextView {
                        frames: v.frames.push((loaded_view(v.pending->Some_0, outcome->Ok_0), 0)),
                        pending: None,
                        ..v
                    }));
                    let nv = self.view_of();
                    assert forall|j: int| 0 <= j < nv.frames.len() implies (#[trigger] nv.frames[j]).1
                        <= nv.frames[j].0.includes.len() by {
                        if j < v.frames.len() {
                            assert(nv.frames[j] == v.frames[j]);
                        }
                    }
                }
                self.advance_resolution()
            },
            Err(error) => {
                let e = from_pest_parsing(&path, error);
                let ghost before = self.errors@;
                self.errors.push(e);
                proof {
                    assert(self.errors@.drop_last() =~= before);
                    assert(self.view_of() == (ContextView { pending: None, ..v }));
                }
                if self.frames.len() == 0 {
                    let m = self.main.clone();
                    self.insert_file(m, LoadAttempt::Error);
                    return Action::Done;
                }
                self.advance_resolution()
            },
        }
    }
}

impl Context {
    /// `resume`, where `outcome` is a failure or a file that `accepts`
    /// admits; otherwise (a file that does not have the circuit's shape, or
    /// whose path has no directory) nothing changes and the result is none.
    pub fn try_resume(&mut self, outcome: Result<File, ast::ParseError>) -> (r: Option<Action>)
        requires
            old(self).waiting(),
        ensures
            r is None <==> (outcome is Ok && !(file_shaped(outcome->Ok_0) && parent_of(
                old(self).spec_pending()->Some_0@,
            ) is Some)),
            r is None ==> *final(self) == *old(self),
            r is Some ==> (r->Some_0 is Load <==> final(self).waiting()),
            r is Some && r->Some_0 is Load ==> final(self).spec_pending() == Some(r->Some_0->Load_0),
            r is Some && outcome is Ok ==> {
                &&& (final(self).view_of(), action_of(r->Some_0)) == after_loaded(old(self).view_of(), outcome->Ok_0)
                &&& final(self).spec_errors() == old(self).spec_errors()
            },
            r is Some && outcome is Err ==> {
                &&& (final(self).view_of(), action_of(r->Some_0)) == after_failed(old(self).view_of())
                &&& final(self).spec_errors().len() == old(self).spec_errors().len() + 1
                &&& final(self).spec_errors().drop_last() == old(self).spec_errors()
                &&& load_error(
                    final(self).spec_errors().last(),
                    old(self).spec_pending()->Some_0,
                    outcome->Err_0,
                )
            },
    {
        let admitted = match &outcome {
            Ok(file) => self.accepts(file),
            Err(_) => true,
        };
        if !admitted {
            return None;
        }
        Some(self.resume(outcome))
    }
}

/// Starts include resolution for the main file at `file`: registers it as
/// loading and asks for it.
pub fn build_context(file: &String) -> (r: (Context, Action))
    ensures
        r.0.view_of() == initial(file@),
        r.0.waiting(),
        r.0.spec_pending() == Some(*file),
        r.0.spec_errors().len() == 0,
        r.1 == Action::Load(*file),
{
    let mut files: Vec<FileEntry> = Vec::new();
    files.push(FileEntry { path: file.clone(), attempt: LoadAttempt::Loading });
    let ctx = Context { files, errors: Vec::new(), main: file.clone(), frames: Vec::new(), pending: Some(file.clone()) };
    proof {
        assert(ctx.view_of().files =~= seq![(file@, AttemptView::Loading)]);
        assert(ctx.view_of().frames =~= Seq::<(FileView, nat)>::empty());
    }
    (ctx, Action::Load(file.clone()))
}

/// Two files that include each other: resolution from `a` asks for `b`,
/// then finishes (the inclusion of `a` by `b` is skipped, `a` being on the
/// include stack) after these two loads, with exactly one registry entry for
/// each file.
pub proof fn lemma_mutual_inclusion_terminates(a: Seq<char>, b: Seq<char>, fa: File, fb: File)
    requires
        a != b,
        include_targets(circuit_children(fa), parent_of(a)->Some_0) == seq![b],
        include_targets(circuit_children(fb), parent_of(b)->Some_0) == seq![a],
    ensures
        after_loaded(initial(a), fa).1 == Some(b),
        after_loaded(after_loaded(initial(a), fa).0, fb).1 is None,
        after_loaded(after_loaded(initial(a), fa).0, fb).0.files == seq![
            (a, AttemptView::Loaded(loaded_view(a, fa))),
            (b, AttemptView::Loaded(loaded_view(b, fb))),
        ],
{
    let va = loaded_view(a, fa);
    let vb = loaded_view(b, fb);
    let v0 = initial(a);
    // first load: the main file, whose only include is `b`
    let w0 = ContextView { frames: v0.frames.push((va, 0)), pending: None, ..v0 };
    assert(w0.frames =~= seq![(va, 0nat)]);
    assert(!on_stack(w0.frames, b)) by {
        if on_stack(w0.frames, b) {
            let k = choose|k: int| 0 <= k < w0.frames.len() && w0.frames[k].0.path == b;
            assert(k == 0);
        }
    }
    let v1 = ContextView {
        frames: w0.frames.update(0, (va, 1nat)),
        pending: Some(b),
        ..w0
    };
    assert(after_loaded(v0, fa) == (v1, Some(b)));
    // second load: `b`, whose only include `a` is on the stack
    let w1 = ContextView { frames: v1.frames.push((vb, 0)), pending: None, ..v1 };
    assert(w1.frames.len() == 2);
    assert(on_stack(w1.frames, a)) by {
        assert(w1.frames[0].0.path == a);
    }
    let w2 = ContextView { frames: w1.frames.update(1, (vb, 1nat)), ..w1 };
    assert(advance(w1) == advance(w2));
    let files3 = insert(w2.files, b, AttemptView::Loaded(vb));
    assert(!(exists|i: int| 0 <= i < w2.files.len() && w2.files[i].0 == b)) by {
        if exists|i: int| 0 <= i < w2.files.len() && w2.files[i].0 == b {
            let i = choose|i: int| 0 <= i < w2.files.len() && w2.files[i].0 == b;
            assert(i == 0);
        }
    }
    assert(files3 == seq![(a, AttemptView::Loading), (b, AttemptView::Loaded(vb))]);
    let w3 = ContextView { frames: w2.frames.drop_last(), files: files3, ..w2 };
    assert(advance(w2) == advance(w3));
    assert(w3.frames =~= seq![(va, 1nat)]);
    let files4 = insert(w3.files, a, AttemptView::Loaded(va));
    assert(w3.files[0].0 == a);
    assert(files4 =~= seq![(a, AttemptView::Loaded(va)), (b, AttemptView::Loaded(vb))]) by {
        let i = choose|i: int| 0 <= i < w3.files.len() && w3.files[i].0 == a;
        assert(i == 0);
    }
    assert(advance(w3).0.files == files4);
    assert(advance(w3).1 is None);
}

} // verus!
