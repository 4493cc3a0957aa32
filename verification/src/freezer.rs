//! Protecting a whole tree of scripts.
//!
//! The files that a script reads with `source` are frozen into immutable copies,
//! each file once, and the scripts are rewritten to read the copies. The walk
//! over the tree is a machine: it says what it needs next from the file system,
//! and is told what came of it.

use vstd::prelude::*;
use vstd::string::*;
use vstd::utf8::*;

use crate::config::Subscripts;
use crate::rewrite;
use crate::sites;
use crate::sites::{Category, Site, SiteModel};
use crate::subscripts;
use crate::subscripts::{Analysis, AnalysisModel};
use crate::text;

verus! {

/// How deep files that include files are followed.
pub const SOURCE_DEPTH_CAP: usize = 64;

/// What the machine needs next.
#[derive(Debug, PartialEq, Eq)]
pub enum Action {
    /// The file that the name `target` stands for in the script at `from`.
    Resolve { target: String, from: Vec<u8> },
    /// The bytes of the file at `path`.
    Load { path: Vec<u8> },
    /// An immutable copy of `bytes`, and the path to read it under.
    Seal { bytes: Vec<u8> },
    /// Nothing: `bytes` are what is to run.
    Done { bytes: Vec<u8> },
}

/// What came of an action.
#[derive(Debug, PartialEq, Eq)]
pub enum Event {
    /// The path of the file, if there is exactly one that the name stands for.
    Resolved(Option<Vec<u8>>),
    /// The bytes of the file.
    Loaded(Vec<u8>),
    /// The path of the immutable copy.
    Sealed(String),
}

/// The model of an action.
pub enum ActionModel {
    /// The file that a name stands for.
    Resolve { target: Seq<char>, from: Seq<u8> },
    /// The bytes of a file.
    Load { path: Seq<u8> },
    /// An immutable copy.
    Seal { bytes: Seq<u8> },
    /// Nothing.
    Done { bytes: Seq<u8> },
}

/// The model of an event.
pub enum EventModel {
    /// The path of the file.
    Resolved(Option<Seq<u8>>),
    /// The bytes of the file.
    Loaded(Seq<u8>),
    /// The path of the immutable copy.
    Sealed(Seq<char>),
}

impl View for Action {
    type V = ActionModel;

    open spec fn view(&self) -> ActionModel {
        match self {
            Action::Resolve { target, from } => ActionModel::Resolve {
                target: target@,
                from: from@,
            },
            Action::Load { path } => ActionModel::Load { path: path@ },
            Action::Seal { bytes } => ActionModel::Seal { bytes: bytes@ },
            Action::Done { bytes } => ActionModel::Done { bytes: bytes@ },
        }
    }
}

impl View for Event {
    type V = EventModel;

    open spec fn view(&self) -> EventModel {
        match self {
            Event::Resolved(p) => EventModel::Resolved(subscripts::path_view(*p)),
            Event::Loaded(b) => EventModel::Loaded(b@),
            Event::Sealed(p) => EventModel::Sealed(p@),
        }
    }
}

/// A script that is being worked on.
struct Frame {
    path: Vec<u8>,
    bytes: Vec<u8>,
    text: Vec<char>,
    sites: Vec<Site>,
    answers: Vec<Option<String>>,
}

/// A file that has its immutable copy.
struct Frozen {
    path: Vec<u8>,
    copy: String,
}

/// The model of a script that is being worked on.
#[verifier::ext_equal]
pub struct FrameModel {
    /// The path of the file.
    pub path: Seq<u8>,
    /// Its bytes.
    pub bytes: Seq<u8>,
    /// Its characters.
    pub text: Seq<char>,
    /// The sites that are rewritten.
    pub sites: Seq<SiteModel>,
    /// For each site that is done, the path of the copy that it is to read, if it
    /// is to read one.
    pub answers: Seq<Option<Seq<char>>>,
}

/// The model of a file that has its immutable copy.
pub struct FrozenModel {
    /// The path of the file.
    pub path: Seq<u8>,
    /// The path of the copy.
    pub copy: Seq<char>,
}

impl View for Frame {
    type V = FrameModel;

    closed spec fn view(&self) -> FrameModel {
        FrameModel {
            path: self.path@,
            bytes: self.bytes@,
            text: self.text@,
            sites: sites::views(self.sites@),
            answers: rewrite::answer_texts(self.answers@),
        }
    }
}

impl View for Frozen {
    type V = FrozenModel;

    closed spec fn view(&self) -> FrozenModel {
        FrozenModel { path: self.path@, copy: self.copy@ }
    }
}

/// The walk over a tree of scripts.
pub struct Freezer {
    mode: Subscripts,
    prefix: String,
    frozen: Vec<Frozen>,
    stack: Vec<Frame>,
    notes: Vec<String>,
    action: Action,
}

/// The model of the walk.
#[verifier::ext_equal]
pub struct FreezerModel {
    /// What is done about subscripts.
    pub mode: Subscripts,
    /// What is put before a command so that it runs under scriptbox.
    pub prefix: Seq<char>,
    /// The files that have their copies.
    pub frozen: Seq<FrozenModel>,
    /// The scripts that are being worked on, each included by the one before it.
    pub stack: Seq<FrameModel>,
    /// The messages so far.
    pub notes: Seq<Seq<char>>,
    /// What is needed next.
    pub action: ActionModel,
}

impl View for Freezer {
    type V = FreezerModel;

    closed spec fn view(&self) -> FreezerModel {
        FreezerModel {
            mode: self.mode,
            prefix: self.prefix@,
            frozen: frozen_views(self.frozen@),
            stack: frame_views(self.stack@),
            notes: text::texts(self.notes@),
            action: self.action@,
        }
    }
}

spec fn frozen_views(v: Seq<Frozen>) -> Seq<FrozenModel> {
    v.map_values(|f: Frozen| f@)
}

spec fn frame_views(v: Seq<Frame>) -> Seq<FrameModel> {
    v.map_values(|f: Frame| f@)
}

// ---------------------------------------------------------------------------
// What the machine does

/// The copy of the file at `path`, if it has one.
pub open spec fn copy_of(frozen: Seq<FrozenModel>, path: Seq<u8>) -> Option<Seq<char>>
    decreases frozen.len(),
{
    if frozen.len() == 0 {
        None
    } else if frozen.last().path == path {
        Some(frozen.last().copy)
    } else {
        copy_of(frozen.drop_last(), path)
    }
}

/// Whether the file at `path` is being worked on.
pub open spec fn in_progress(stack: Seq<FrameModel>, path: Seq<u8>) -> bool {
    exists|i: int| 0 <= i < stack.len() && #[trigger] stack[i].path == path
}

/// Whether a site has a file to be frozen.
pub open spec fn includes(site: SiteModel) -> bool {
    site.category == Category::Source && site.resolvable
}

/// A script before any of its sites is done. Only freezing rewrites sites.
pub open spec fn opened(
    mode: Subscripts,
    path: Seq<u8>,
    bytes: Seq<u8>,
    a: AnalysisModel,
) -> FrameModel {
    FrameModel {
        path,
        bytes,
        text: match a {
            AnalysisModel::Found(t, _) => t,
            _ => seq![],
        },
        sites: match a {
            AnalysisModel::Found(_, s) if mode == Subscripts::Freeze => s,
            _ => seq![],
        },
        answers: seq![],
    }
}

/// The messages about a script that is about to be worked on.
pub open spec fn opening_notes(mode: Subscripts, path: Seq<u8>, a: AnalysisModel) -> Seq<
    Seq<char>,
> {
    if mode == Subscripts::Off {
        seq![]
    } else {
        match a {
            AnalysisModel::NotText => seq![subscripts::not_text(path)],
            AnalysisModel::Unparsable(e) => seq![subscripts::unparsable(path, e)],
            AnalysisModel::Found(_, s) => if mode == Subscripts::Report && s.len() > 0 {
                seq![subscripts::detection(path, s)]
            } else {
                seq![]
            },
        }
    }
}

/// The bytes of a script whose sites are all done.
pub open spec fn output(f: FrameModel, prefix: Seq<char>) -> Seq<u8> {
    if f.sites.len() == 0 {
        f.bytes
    } else {
        encode_utf8(rewrite::rewritten(f.text, f.sites, f.answers, prefix))
    }
}

/// The messages about a script whose sites are all done.
pub open spec fn closing_notes(f: FrameModel, prefix: Seq<char>) -> Seq<Seq<char>> {
    if f.sites.len() == 0 {
        seq![]
    } else {
        seq![
            subscripts::outcome_report(
                f.path,
                f.sites,
                rewrite::outcomes_for(f.sites, f.answers, prefix, f.text.len()),
            ),
        ]
    }
}

impl FrameModel {
    /// The script with one more site done.
    pub open spec fn with_answer(self, answer: Option<Seq<char>>) -> FrameModel {
        FrameModel { answers: self.answers.push(answer), ..self }
    }
}

impl FreezerModel {
    /// The script that is being worked on now.
    pub open spec fn top(self) -> FrameModel {
        self.stack.last()
    }

    /// The walk with one more site of the topmost script done.
    pub open spec fn answered(self, answer: Option<Seq<char>>) -> FreezerModel {
        FreezerModel {
            stack: self.stack.drop_last().push(self.top().with_answer(answer)),
            ..self
        }
    }

    /// The walk with one more script to work on.
    pub open spec fn entered(
        self,
        path: Seq<u8>,
        bytes: Seq<u8>,
        a: AnalysisModel,
    ) -> FreezerModel {
        FreezerModel {
            stack: self.stack.push(opened(self.mode, path, bytes, a)),
            notes: self.notes + opening_notes(self.mode, path, a),
            ..self
        }
    }

    /// The walk up to the next thing that it needs: the sites that need nothing
    /// are done, up to one that includes a file; after the last one the script is
    /// finished.
    pub open spec fn settled(self) -> FreezerModel
        decreases self.top().sites.len() - self.top().answers.len(),
    {
        let f = self.top();
        if f.answers.len() < f.sites.len() {
            let site = f.sites[f.answers.len() as int];
            if includes(site) {
                FreezerModel {
                    action: ActionModel::Resolve { target: site.target, from: f.path },
                    ..self
                }
            } else {
                self.answered(None).settled()
            }
        } else {
            FreezerModel {
                notes: self.notes + closing_notes(f, self.prefix),
                action: if self.stack.len() == 1 {
                    ActionModel::Done { bytes: output(f, self.prefix) }
                } else {
                    ActionModel::Seal { bytes: output(f, self.prefix) }
                },
                ..self
            }
        }
    }

    /// The walk once it is known which file an inclusion means. The copy of a
    /// file that has one is used again; a file that is being worked on includes
    /// itself, and is left as it is, as is one that is too deep down.
    pub open spec fn resolved(self, found: Option<Seq<u8>>) -> FreezerModel {
        match found {
            None => self.answered(None).settled(),
            Some(path) => match copy_of(self.frozen, path) {
                Some(copy) => self.answered(Some(copy)).settled(),
                None => if in_progress(self.stack, path) {
                    self.answered(None).settled()
                } else if self.stack.len() > SOURCE_DEPTH_CAP {
                    FreezerModel {
                        notes: self.notes.push(subscripts::too_deep(path)),
                        ..self
                    }.answered(None).settled()
                } else {
                    FreezerModel { action: ActionModel::Load { path }, ..self }
                },
            },
        }
    }

    /// The walk once the topmost script has its copy.
    pub open spec fn sealed(self, copy: Seq<char>) -> FreezerModel {
        FreezerModel {
            frozen: self.frozen.push(FrozenModel { path: self.top().path, copy }),
            stack: self.stack.drop_last(),
            ..self
        }.answered(Some(copy)).settled()
    }

    /// The walk after an event. One that does not answer what is needed changes
    /// nothing.
    pub open spec fn stepped(self, event: EventModel) -> FreezerModel {
        match (self.action, event) {
            (ActionModel::Resolve { .. }, EventModel::Resolved(found)) => self.resolved(found),
            (ActionModel::Load { path }, EventModel::Loaded(bytes)) => self.entered(
                path,
                bytes,
                subscripts::analysed(bytes),
            ).settled(),
            (ActionModel::Seal { .. }, EventModel::Sealed(copy)) => self.sealed(copy),
            _ => self,
        }
    }

    /// Whether the copy is that of a file of the tree.
    pub open spec fn is_copy(self, copy: Seq<char>) -> bool {
        exists|i: int| 0 <= i < self.frozen.len() && #[trigger] self.frozen[i].copy == copy
    }

    /// What holds of the stack: no file is on it twice, each script but the
    /// topmost waits for a file that it includes, and it is no deeper than files
    /// are followed.
    pub open spec fn wf_stack(self) -> bool {
        &&& 1 <= self.stack.len() <= SOURCE_DEPTH_CAP + 1
        &&& forall|i: int, j: int|
            0 <= i < j < self.stack.len() ==> #[trigger] self.stack[i].path
                != #[trigger] self.stack[j].path
        &&& forall|i: int|
            0 <= i < self.stack.len() ==> (#[trigger] self.stack[i]).answers.len()
                <= self.stack[i].sites.len()
        &&& forall|i: int|
            0 <= i < self.stack.len() - 1 ==> (#[trigger] self.stack[i]).answers.len()
                < self.stack[i].sites.len() && includes(
                self.stack[i].sites[self.stack[i].answers.len() as int],
            )
        &&& self.mode != Subscripts::Freeze ==> self.stack.len() == 1
            && self.stack[0].sites.len() == 0
    }

    /// What holds of the frozen files: none is frozen twice, and none is being
    /// worked on.
    pub open spec fn wf_frozen(self) -> bool {
        &&& forall|i: int, j: int|
            0 <= i < j < self.frozen.len() ==> #[trigger] self.frozen[i].path
                != #[trigger] self.frozen[j].path
        &&& forall|i: int|
            0 <= i < self.frozen.len() ==> !in_progress(
                self.stack,
                (#[trigger] self.frozen[i]).path,
            )
    }

    /// What holds of the sites that are done: only inclusions read copies, and
    /// they read copies of files of the tree.
    pub open spec fn wf_answers(self) -> bool {
        forall|i: int, k: int|
            0 <= i < self.stack.len() && 0 <= k < self.stack[i].answers.len() ==> (
            #[trigger] self.stack[i].answers[k] matches Some(copy) ==> includes(
                self.stack[i].sites[k],
            ) && self.is_copy(copy))
    }

    /// What holds of the action: it is the next thing that the topmost script
    /// needs.
    pub open spec fn wf_action(self) -> bool {
        let f = self.top();
        match self.action {
            ActionModel::Resolve { target, from } => f.answers.len() < f.sites.len() && includes(
                f.sites[f.answers.len() as int],
            ) && target == f.sites[f.answers.len() as int].target && from == f.path,
            ActionModel::Load { path } => f.answers.len() < f.sites.len() && includes(
                f.sites[f.answers.len() as int],
            ) && self.stack.len() <= SOURCE_DEPTH_CAP && copy_of(self.frozen, path) is None
                && !in_progress(self.stack, path),
            ActionModel::Seal { bytes } => self.stack.len() > 1 && f.answers.len() == f.sites.len()
                && bytes == output(f, self.prefix),
            ActionModel::Done { bytes } => self.stack.len() == 1 && f.answers.len()
                == f.sites.len() && bytes == output(f, self.prefix),
        }
    }

    /// What holds of the walk at every step.
    pub open spec fn wf(self) -> bool {
        self.wf_stack() && self.wf_frozen() && self.wf_answers() && self.wf_action()
    }
}

/// The start of the walk over the script at `path`.
pub open spec fn started(
    mode: Subscripts,
    prefix: Seq<char>,
    path: Seq<u8>,
    bytes: Seq<u8>,
    a: AnalysisModel,
) -> FreezerModel {
    FreezerModel {
        mode,
        prefix,
        frozen: seq![],
        stack: seq![],
        notes: seq![],
        action: ActionModel::Done { bytes: seq![] },
    }.entered(path, bytes, a).settled()
}

// ---------------------------------------------------------------------------
// What holds at every step

proof fn lemma_copy_of(frozen: Seq<FrozenModel>, path: Seq<u8>)
    ensures
        copy_of(frozen, path) is None <==> forall|i: int|
            0 <= i < frozen.len() ==> (#[trigger] frozen[i]).path != path,
        copy_of(frozen, path) matches Some(copy) ==> exists|i: int|
            0 <= i < frozen.len() && (#[trigger] frozen[i]).path == path && frozen[i].copy == copy,
    decreases frozen.len(),
{
    if frozen.len() > 0 {
        lemma_copy_of(frozen.drop_last(), path);
        let init = frozen.drop_last();
        assert(forall|i: int| 0 <= i < init.len() ==> init[i] == frozen[i]);
        assert(frozen.last() == frozen[frozen.len() - 1]);
        if frozen.last().path != path && copy_of(frozen, path) is Some {
            let k = choose|i: int|
                0 <= i < init.len() && (#[trigger] init[i]).path == path && init[i].copy
                    == copy_of(frozen, path)->0;
            assert(frozen[k].path == path);
        }
        if copy_of(frozen, path) is None {
            assert forall|i: int| 0 <= i < frozen.len() implies (#[trigger] frozen[i]).path
                != path by {
                if i < init.len() {
                    assert(init[i].path != path);
                }
            }
        } else if frozen.last().path != path {
            assert(exists|i: int| 0 <= i < init.len() && (#[trigger] init[i]).path == path);
        }
    }
}

/// A walk on the way to the next thing that it needs.
spec fn under_way(m: FreezerModel) -> bool {
    m.wf_stack() && m.wf_frozen() && m.wf_answers()
}

proof fn lemma_answered(m: FreezerModel, answer: Option<Seq<char>>)
    requires
        under_way(m),
        m.top().answers.len() < m.top().sites.len(),
        answer matches Some(copy) ==> m.is_copy(copy) && includes(
            m.top().sites[m.top().answers.len() as int],
        ),
    ensures
        under_way(m.answered(answer)),
{
    let n = m.answered(answer);
    let last = m.stack.len() - 1;
    assert(forall|i: int| 0 <= i < last ==> n.stack[i] == m.stack[i]);
    assert(n.stack[last] == m.stack[last].with_answer(answer));
    assert forall|path: Seq<u8>| in_progress(n.stack, path) == in_progress(m.stack, path) by {
        if in_progress(m.stack, path) {
            let k = choose|i: int| 0 <= i < m.stack.len() && #[trigger] m.stack[i].path == path;
            assert(n.stack[k].path == path);
        }
        if in_progress(n.stack, path) {
            let k = choose|i: int| 0 <= i < n.stack.len() && #[trigger] n.stack[i].path == path;
            assert(m.stack[k].path == path);
        }
    }
    assert forall|i: int, k: int|
        0 <= i < n.stack.len() && 0 <= k < n.stack[i].answers.len() implies (
    #[trigger] n.stack[i].answers[k] matches Some(copy) ==> includes(n.stack[i].sites[k])
        && n.is_copy(copy)) by {
        if let Some(copy) = n.stack[i].answers[k] {
            if i < last || k < m.stack[i].answers.len() {
                assert(m.stack[i].answers[k] == n.stack[i].answers[k]);
                assert(m.is_copy(copy));
            } else {
                assert(m.is_copy(copy));
            }
            let c = choose|c: int| 0 <= c < m.frozen.len() && #[trigger] m.frozen[c].copy == copy;
            assert(n.frozen[c].copy == copy);
        }
    }
}

proof fn lemma_settled(m: FreezerModel)
    requires
        under_way(m),
    ensures
        m.settled().wf(),
        m.settled().frozen == m.frozen,
        m.settled().mode == m.mode,
        m.settled().prefix == m.prefix,
        m.settled().stack.len() == m.stack.len(),
        m.settled().stack.drop_last() == m.stack.drop_last(),
        !(m.settled().action is Load),
    decreases m.top().sites.len() - m.top().answers.len(),
{
    let f = m.top();
    assert(f == m.stack[m.stack.len() - 1]);
    if f.answers.len() < f.sites.len() && !includes(f.sites[f.answers.len() as int]) {
        lemma_answered(m, None);
        lemma_settled(m.answered(None));
        assert(m.answered(None).stack.drop_last() =~= m.stack.drop_last());
    } else {
        let n = m.settled();
        assert(n.stack == m.stack && n.frozen == m.frozen);
        assert(n.wf_answers()) by {
            assert forall|i: int, k: int|
                0 <= i < n.stack.len() && 0 <= k < n.stack[i].answers.len() implies (
            #[trigger] n.stack[i].answers[k] matches Some(copy) ==> includes(n.stack[i].sites[k])
                && n.is_copy(copy)) by {
                if let Some(copy) = n.stack[i].answers[k] {
                    assert(m.stack[i].answers[k] == Some(copy));
                    assert(m.is_copy(copy));
                    let c = choose|c: int|
                        0 <= c < m.frozen.len() && #[trigger] m.frozen[c].copy == copy;
                    assert(n.frozen[c].copy == copy);
                }
            }
        }
    }
}

proof fn lemma_entered(m: FreezerModel, path: Seq<u8>, bytes: Seq<u8>, a: AnalysisModel)
    requires
        m.stack.len() == 0 && m.frozen.len() == 0 || (m.wf() && m.action is Load && m.action->path
            == path),
    ensures
        under_way(m.entered(path, bytes, a)),
{
    let n = m.entered(path, bytes, a);
    let last = m.stack.len() as int;
    lemma_copy_of(m.frozen, path);
    assert(forall|i: int| 0 <= i < last ==> n.stack[i] == m.stack[i]);
    assert(n.stack[last] == opened(m.mode, path, bytes, a));
    if last > 0 {
        assert(m.top() == m.stack[last - 1]);
        assert forall|i: int, j: int| 0 <= i < j < n.stack.len() implies #[trigger] n.stack[i].path
            != #[trigger] n.stack[j].path by {
            if j == last {
                assert(m.stack[i].path != path);
            } else {
                assert(m.stack[i].path != m.stack[j].path);
            }
        }
        assert forall|i: int| 0 <= i < n.frozen.len() implies !in_progress(
            n.stack,
            (#[trigger] n.frozen[i]).path,
        ) by {
            let p = n.frozen[i].path;
            assert(m.frozen[i].path == p);
            assert(!in_progress(m.stack, p));
            if in_progress(n.stack, p) {
                let k = choose|k: int| 0 <= k < n.stack.len() && #[trigger] n.stack[k].path == p;
                if k < last {
                    assert(m.stack[k].path == p);
                } else {
                    assert(p == path);
                }
            }
        }
        assert forall|i: int, k: int|
            0 <= i < n.stack.len() && 0 <= k < n.stack[i].answers.len() implies (
        #[trigger] n.stack[i].answers[k] matches Some(copy) ==> includes(n.stack[i].sites[k])
            && n.is_copy(copy)) by {
            assert(i < last);
            if let Some(copy) = n.stack[i].answers[k] {
                assert(m.stack[i].answers[k] == Some(copy));
                assert(m.is_copy(copy));
                let c = choose|c: int|
                    0 <= c < m.frozen.len() && #[trigger] m.frozen[c].copy == copy;
                assert(n.frozen[c].copy == copy);
            }
        }
    }
}

proof fn lemma_popped(m: FreezerModel, copy: Seq<char>)
    requires
        m.wf(),
        m.action is Seal,
    ensures
        ({
            let n = FreezerModel {
                frozen: m.frozen.push(FrozenModel { path: m.top().path, copy }),
                stack: m.stack.drop_last(),
                ..m
            };
            under_way(n) && n.is_copy(copy) && n.top().answers.len() < n.top().sites.len()
                && includes(n.top().sites[n.top().answers.len() as int])
        }),
{
    let n = FreezerModel {
        frozen: m.frozen.push(FrozenModel { path: m.top().path, copy }),
        stack: m.stack.drop_last(),
        ..m
    };
    let last = m.stack.len() - 1;
    let count = m.frozen.len() as int;
    assert(m.top() == m.stack[last]);
    assert(forall|i: int| 0 <= i < last ==> n.stack[i] == m.stack[i]);
    assert(n.top() == m.stack[last - 1]);
    assert(forall|i: int| 0 <= i < count ==> n.frozen[i] == m.frozen[i]);
    assert(n.frozen[count].path == m.top().path && n.frozen[count].copy == copy);
    assert forall|i: int, j: int| 0 <= i < j < n.frozen.len() implies #[trigger] n.frozen[i].path
        != #[trigger] n.frozen[j].path by {
        assert(m.frozen[i].path == n.frozen[i].path);
        if j == count {
            assert(!in_progress(m.stack, m.frozen[i].path));
            assert(m.stack[last].path == m.top().path);
        } else {
            assert(m.frozen[j].path == n.frozen[j].path);
        }
    }
    assert forall|i: int| 0 <= i < n.frozen.len() implies !in_progress(
        n.stack,
        (#[trigger] n.frozen[i]).path,
    ) by {
        let p = n.frozen[i].path;
        if in_progress(n.stack, p) {
            let k = choose|k: int| 0 <= k < n.stack.len() && #[trigger] n.stack[k].path == p;
            assert(m.stack[k].path == p);
            if i < count {
                assert(m.frozen[i].path == p);
                assert(in_progress(m.stack, p));
            } else {
                assert(m.stack[k].path != m.stack[last].path);
            }
        }
    }
    assert forall|i: int, k: int|
        0 <= i < n.stack.len() && 0 <= k < n.stack[i].answers.len() implies (
    #[trigger] n.stack[i].answers[k] matches Some(c) ==> includes(n.stack[i].sites[k])
        && n.is_copy(c)) by {
        if let Some(c) = n.stack[i].answers[k] {
            assert(m.stack[i].answers[k] == Some(c));
            assert(m.is_copy(c));
            let j = choose|j: int| 0 <= j < m.frozen.len() && #[trigger] m.frozen[j].copy == c;
            assert(n.frozen[j].copy == c);
        }
    }
}

/// What holds of a walk holds after every event, whatever it is.
pub proof fn law_every_step_keeps_the_walk_sound(m: FreezerModel, event: EventModel)
    requires
        m.wf(),
    ensures
        m.stepped(event).wf(),
{
    assert(m.top() == m.stack[m.stack.len() - 1]);
    match (m.action, event) {
        (ActionModel::Resolve { .. }, EventModel::Resolved(found)) => {
            match found {
                None => {
                    lemma_answered(m, None);
                    lemma_settled(m.answered(None));
                },
                Some(path) => {
                    lemma_copy_of(m.frozen, path);
                    match copy_of(m.frozen, path) {
                        Some(copy) => {
                            assert(m.is_copy(copy));
                            lemma_answered(m, Some(copy));
                            lemma_settled(m.answered(Some(copy)));
                        },
                        None => {
                            if in_progress(m.stack, path) {
                                lemma_answered(m, None);
                                lemma_settled(m.answered(None));
                            } else if m.stack.len() > SOURCE_DEPTH_CAP {
                                let n = FreezerModel {
                                    notes: m.notes.push(subscripts::too_deep(path)),
                                    ..m
                                };
                                lemma_same(m, n);
                                lemma_answered(n, None);
                                lemma_settled(n.answered(None));
                            } else {
                                let n = FreezerModel { action: ActionModel::Load { path }, ..m };
                                lemma_same(m, n);
                                assert(n.top() == m.top());
                            }
                        },
                    }
                },
            }
        },
        (ActionModel::Load { path }, EventModel::Loaded(bytes)) => {
            lemma_entered(m, path, bytes, subscripts::analysed(bytes));
            lemma_settled(m.entered(path, bytes, subscripts::analysed(bytes)));
        },
        (ActionModel::Seal { .. }, EventModel::Sealed(copy)) => {
            lemma_popped(m, copy);
            let n = FreezerModel {
                frozen: m.frozen.push(FrozenModel { path: m.top().path, copy }),
                stack: m.stack.drop_last(),
                ..m
            };
            lemma_answered(n, Some(copy));
            lemma_settled(n.answered(Some(copy)));
        },
        _ => {},
    }
}

proof fn lemma_same(m: FreezerModel, n: FreezerModel)
    requires
        under_way(m),
        n.stack == m.stack,
        n.frozen == m.frozen,
        n.mode == m.mode,
    ensures
        under_way(n),
{
    assert forall|i: int, k: int|
        0 <= i < n.stack.len() && 0 <= k < n.stack[i].answers.len() implies (
    #[trigger] n.stack[i].answers[k] matches Some(c) ==> includes(n.stack[i].sites[k])
        && n.is_copy(c)) by {
        if let Some(c) = n.stack[i].answers[k] {
            assert(m.stack[i].answers[k] == Some(c));
            assert(m.is_copy(c));
            let j = choose|j: int| 0 <= j < m.frozen.len() && #[trigger] m.frozen[j].copy == c;
            assert(n.frozen[j].copy == c);
        }
    }
}

// ---------------------------------------------------------------------------
// The machine

/// The copy of the file at `path`, if it has one.
fn find_copy<'a>(frozen: &'a Vec<Frozen>, path: &[u8]) -> (r: Option<&'a String>)
    ensures
        match r {
            Some(copy) => copy_of(frozen_views(frozen@), path@) == Some(copy@),
            None => copy_of(frozen_views(frozen@), path@) is None,
        },
{
    let ghost all = frozen_views(frozen@);
    let mut n: usize = frozen.len();
    assert(all.take(n as int) =~= all);
    while n > 0
        invariant
            n <= frozen@.len(),
            all == frozen_views(frozen@),
            copy_of(all, path@) == copy_of(all.take(n as int), path@),
        decreases n,
    {
        assert(all.take(n as int).drop_last() =~= all.take(n - 1));
        assert(all.take(n as int).last() == frozen@[n - 1]@);
        if subscripts::same_bytes(&frozen[n - 1].path, path) {
            return Some(&frozen[n - 1].copy);
        }
        n = n - 1;
    }
    None
}

/// Whether the file at `path` is being worked on.
fn is_in_progress(stack: &Vec<Frame>, path: &[u8]) -> (r: bool)
    ensures
        r == in_progress(frame_views(stack@), path@),
{
    let ghost all = frame_views(stack@);
    let mut i: usize = 0;
    while i < stack.len()
        invariant
            i <= stack@.len(),
            all == frame_views(stack@),
            forall|k: int| 0 <= k < i ==> #[trigger] all[k].path != path@,
        decreases stack@.len() - i,
    {
        assert(all[i as int] == stack@[i as int]@);
        if subscripts::same_bytes(&stack[i].path, path) {
            assert(all[i as int].path == path@);
            return true;
        }
        i = i + 1;
    }
    false
}

/// A script before any of its sites is done.
fn open_frame(mode: Subscripts, path: Vec<u8>, bytes: Vec<u8>, analysis: Analysis) -> (r: Frame)
    ensures
        r@ == opened(mode, path@, bytes@, analysis@),
{
    let answers: Vec<Option<String>> = Vec::new();
    assert(rewrite::answer_texts(answers@) =~= seq![]);
    match analysis {
        Analysis::Found(text, found) => {
            if mode == Subscripts::Freeze {
                Frame { path, bytes, text, sites: found, answers }
            } else {
                let none: Vec<Site> = Vec::new();
                assert(sites::views(none@) =~= seq![]);
                Frame { path, bytes, text, sites: none, answers }
            }
        },
        _ => {
            let none: Vec<Site> = Vec::new();
            assert(sites::views(none@) =~= seq![]);
            Frame { path, bytes, text: Vec::new(), sites: none, answers }
        },
    }
}

/// Add the messages about a script that is about to be worked on.
fn push_opening_notes(notes: &mut Vec<String>, mode: Subscripts, path: &[u8], analysis: &Analysis)
    ensures
        text::texts(final(notes)@) == text::texts(old(notes)@) + opening_notes(
            mode,
            path@,
            analysis@,
        ),
{
    let ghost before = notes@;
    if mode == Subscripts::Off {
        assert(text::texts(notes@) =~= text::texts(before) + seq![]);
        return;
    }
    match analysis {
        Analysis::NotText => {
            notes.push(subscripts::not_text_message(path));
        },
        Analysis::Unparsable(e) => {
            notes.push(subscripts::unparsable_message(path, e.as_str()));
        },
        Analysis::Found(_, found) => {
            assert(sites::views(found@).len() == found@.len());
            if mode == Subscripts::Report && found.len() > 0 {
                notes.push(subscripts::report_detection(path, found));
            }
        },
    }
    assert(text::texts(notes@) =~= text::texts(before) + opening_notes(mode, path@, analysis@));
}

/// Finish a script: the messages about it, and its bytes.
fn close_frame(f: &Frame, prefix: &str, notes: &mut Vec<String>) -> (r: Vec<u8>)
    requires
        f@.answers.len() == f@.sites.len(),
    ensures
        r@ == output(f@, prefix@),
        text::texts(final(notes)@) == text::texts(old(notes)@) + closing_notes(f@, prefix@),
{
    let ghost before = notes@;
    assert(f@.sites.len() == f.sites@.len() && f@.answers.len() == f.answers@.len());
    if f.sites.len() == 0 {
        assert(text::texts(notes@) =~= text::texts(before) + closing_notes(f@, prefix@));
        return vstd::slice::slice_to_vec(&f.bytes);
    }
    let (text, outcomes) = rewrite::rewrite_sites(&f.text, &f.sites, &f.answers, prefix);
    assert(outcomes@.len() == f.sites@.len());
    notes.push(subscripts::report_outcomes(&f.path, &f.sites, &outcomes));
    assert(text::texts(notes@) =~= text::texts(before) + closing_notes(f@, prefix@));
    text::encode(&text)
}

impl Freezer {
    /// What holds of a walk at every step.
    pub open spec fn wf(&self) -> bool {
        self@.wf()
    }

    /// Do the topmost site with `answer`.
    fn answer(&mut self, answer: Option<String>)
        requires
            old(self)@.stack.len() > 0,
        ensures
            final(self)@ == old(self)@.answered(crate::frontmatter::opt(answer)),
    {
        let ghost before = self@;
        let ghost frames = self.stack@;
        assert(self@.stack.len() == self.stack@.len());
        if let Some(mut f) = self.stack.pop() {
            let ghost top = f@;
            let ghost answers = f.answers@;
            assert(top == before.stack.last());
            f.answers.push(answer);
            assert(rewrite::answer_texts(f.answers@) =~= rewrite::answer_texts(answers).push(
                crate::frontmatter::opt(answer),
            ));
            assert(f@ == top.with_answer(crate::frontmatter::opt(answer)));
            self.stack.push(f);
            assert(self@.stack =~= before.answered(crate::frontmatter::opt(answer)).stack);
        }
    }

    /// Go on to the next thing that is needed.
    fn settle(&mut self)
        requires
            under_way(old(self)@),
        ensures
            final(self)@ == old(self)@.settled(),
    {
        let ghost start = self@;
        loop
            invariant_except_break
                under_way(self@),
                self@.settled() == start.settled(),
            ensures
                self@ == start.settled(),
            decreases self@.top().sites.len() - self@.top().answers.len(),
        {
            let ghost now = self@;
            let n = self.stack.len();
            assert(n == self@.stack.len());
            let f = &self.stack[n - 1];
            assert(f@ == self@.top());
            assert(self@.top() == self@.stack[n - 1]);
            assert(f@.sites.len() == f.sites@.len() && f@.answers.len() == f.answers@.len());
            let done = f.answers.len();
            if done < f.sites.len() {
                let site = &f.sites[done];
                assert(site@ == f@.sites[done as int]);
                if site.category == Category::Source && site.resolvable {
                    let target = site.target.clone();
                    let from = vstd::slice::slice_to_vec(&f.path);
                    self.action = Action::Resolve { target, from };
                    assert(self@ == now.settled());
                    break;
                }
                proof {
                    lemma_answered(now, None);
                }
                self.answer(None);
            } else {
                let bytes = close_frame(f, self.prefix.as_str(), &mut self.notes);
                if n == 1 {
                    self.action = Action::Done { bytes };
                } else {
                    self.action = Action::Seal { bytes };
                }
                assert(self@ == now.settled());
                break;
            }
        }
    }

    /// The start of the walk over the script at `path`, which `analysis` says
    /// what it is.
    pub fn begin(
        mode: Subscripts,
        prefix: String,
        path: Vec<u8>,
        bytes: Vec<u8>,
        analysis: Analysis,
    ) -> (r: Freezer)
        ensures
            r.wf(),
            r@ == started(mode, prefix@, path@, bytes@, analysis@),
    {
        let ghost a = analysis@;
        let ghost empty = FreezerModel {
            mode,
            prefix: prefix@,
            frozen: seq![],
            stack: seq![],
            notes: seq![],
            action: ActionModel::Done { bytes: seq![] },
        };
        let mut notes: Vec<String> = Vec::new();
        assert(text::texts(notes@) =~= seq![]);
        push_opening_notes(&mut notes, mode, &path, &analysis);
        let ghost path_bytes = path@;
        let ghost all = bytes@;
        let frame = open_frame(mode, path, bytes, analysis);
        let mut stack: Vec<Frame> = Vec::new();
        stack.push(frame);
        let mut r = Freezer {
            mode,
            prefix,
            frozen: Vec::new(),
            stack,
            notes,
            action: Action::Done { bytes: Vec::new() },
        };
        assert(frozen_views(r.frozen@) =~= seq![]);
        assert(frame_views(r.stack@) =~= empty.entered(path_bytes, all, a).stack);
        assert(r@ =~= empty.entered(path_bytes, all, a));
        proof {
            lemma_entered(empty, path_bytes, all, a);
            lemma_settled(r@);
        }
        r.settle();
        r
    }

    /// What is needed next.
    pub fn action(&self) -> (r: &Action)
        ensures
            r@ == self@.action,
    {
        &self.action
    }

    /// The messages since the last call.
    pub fn take_notes(&mut self) -> (r: Vec<String>)
        ensures
            text::texts(r@) == old(self)@.notes,
            final(self)@ == (FreezerModel { notes: seq![], ..old(self)@ }),
            old(self).wf() ==> final(self).wf(),
    {
        let ghost before = self@;
        let mut notes: Vec<String> = Vec::new();
        assert(text::texts(notes@) =~= seq![]);
        std::mem::swap(&mut notes, &mut self.notes);
        proof {
            if before.wf() {
                lemma_same(before, self@);
            }
        }
        notes
    }

    /// Take the file that the topmost inclusion means.
    fn resolved(&mut self, found: Option<Vec<u8>>)
        requires
            old(self).wf(),
            old(self)@.action is Resolve,
        ensures
            final(self)@ == old(self)@.resolved(subscripts::path_view(found)),
    {
        let ghost before = self@;
        assert(before.top() == before.stack[before.stack.len() - 1]);
        let path = match found {
            Some(path) => path,
            None => {
                proof {
                    lemma_answered(before, None);
                }
                self.answer(None);
                self.settle();
                return;
            },
        };
        proof {
            lemma_copy_of(before.frozen, path@);
        }
        let copy = match find_copy(&self.frozen, &path) {
            Some(copy) => Some(copy.clone()),
            None => None,
        };
        if let Some(copy) = copy {
            proof {
                assert(before.is_copy(copy@));
                lemma_answered(before, Some(copy@));
            }
            self.answer(Some(copy));
            self.settle();
            return;
        }
        if is_in_progress(&self.stack, &path) {
            proof {
                lemma_answered(before, None);
            }
            self.answer(None);
            self.settle();
            return;
        }
        assert(self@.stack.len() == self.stack@.len());
        if self.stack.len() > SOURCE_DEPTH_CAP {
            let ghost notes = self.notes@;
            self.notes.push(subscripts::too_deep_message(&path));
            assert(text::texts(self.notes@) =~= text::texts(notes).push(
                subscripts::too_deep(path@),
            ));
            proof {
                lemma_same(before, self@);
                lemma_answered(self@, None);
            }
            self.answer(None);
            self.settle();
            return;
        }
        self.action = Action::Load { path };
    }

    /// Take the bytes of the file that was asked for, which `analysis` says what
    /// it is.
    pub fn load(&mut self, bytes: Vec<u8>, analysis: Analysis)
        requires
            old(self).wf(),
            old(self)@.action is Load,
        ensures
            final(self).wf(),
            final(self)@ == old(self)@.entered(
                old(self)@.action->path,
                bytes@,
                analysis@,
            ).settled(),
    {
        let ghost before = self@;
        let ghost a = analysis@;
        let ghost all = bytes@;
        if let Action::Load { path } = &self.action {
            let path = vstd::slice::slice_to_vec(path);
            let ghost p = path@;
            push_opening_notes(&mut self.notes, self.mode, &path, &analysis);
            let ghost frames = self.stack@;
            let frame = open_frame(self.mode, path, bytes, analysis);
            self.stack.push(frame);
            assert(frame_views(self.stack@) =~= frame_views(frames).push(frame@));
            assert(self@ =~= before.entered(p, all, a));
            proof {
                lemma_entered(before, p, all, a);
                lemma_settled(self@);
            }
            self.settle();
        }
    }

    /// Take the path of the copy of the topmost script.
    fn sealed(&mut self, copy: String)
        requires
            old(self).wf(),
            old(self)@.action is Seal,
        ensures
            final(self)@ == old(self)@.sealed(copy@),
    {
        let ghost before = self@;
        let ghost frames = self.stack@;
        let ghost files = self.frozen@;
        assert(self@.stack.len() == self.stack@.len());
        if let Some(f) = self.stack.pop() {
            assert(f@ == before.top());
            let ghost more = FrozenModel { path: before.top().path, copy: copy@ };
            let frozen = Frozen { path: f.path, copy: copy.clone() };
            assert(frozen@ == more);
            self.frozen.push(frozen);
            assert(frozen_views(self.frozen@) =~= frozen_views(files).push(more));
            assert(frame_views(self.stack@) =~= before.stack.drop_last());
            proof {
                lemma_popped(before, copy@);
                lemma_answered(self@, Some(copy@));
            }
            self.answer(Some(copy));
            self.settle();
        }
    }

    /// Take what came of the action. An event that does not answer it changes
    /// nothing.
    pub fn step(&mut self, event: Event)
        requires
            old(self).wf(),
        ensures
            final(self).wf(),
            final(self)@ == old(self)@.stepped(event@),
    {
        proof {
            law_every_step_keeps_the_walk_sound(self@, event@);
        }
        match event {
            Event::Resolved(found) => {
                if matches!(self.action, Action::Resolve { .. }) {
                    self.resolved(found);
                }
            },
            Event::Loaded(bytes) => {
                if matches!(self.action, Action::Load { .. }) {
                    let analysis = subscripts::analyse(&bytes);
                    self.load(bytes, analysis);
                }
            },
            Event::Sealed(copy) => {
                if matches!(self.action, Action::Seal { .. }) {
                    self.sealed(copy);
                }
            },
        }
    }
}

/// The start of the walk over the script at `path`, whose children run under the
/// scriptbox at `exe`.
pub fn apply(mode: Subscripts, bytes: Vec<u8>, path: Vec<u8>, exe: &str) -> (r: Freezer)
    ensures
        r.wf(),
        r@ == started(
            mode,
            rewrite::prefix_for(exe@),
            path@,
            bytes@,
            subscripts::analysed(bytes@),
        ),
{
    let analysis = subscripts::analyse(&bytes);
    Freezer::begin(mode, rewrite::wrap_prefix(exe), path, bytes, analysis)
}

// ---------------------------------------------------------------------------
// What a walk promises

/// Whether the file at `path` has been met: it is being worked on, or has its
/// copy.
pub open spec fn met(m: FreezerModel, path: Seq<u8>) -> bool {
    in_progress(m.stack, path) || copy_of(m.frozen, path) is Some
}

proof fn lemma_settled_stack(m: FreezerModel)
    requires
        m.stack.len() > 0,
    ensures
        m.settled().frozen == m.frozen,
        m.settled().mode == m.mode,
        m.settled().prefix == m.prefix,
        m.settled().stack.len() == m.stack.len(),
        forall|i: int|
            0 <= i < m.stack.len() ==> (#[trigger] m.settled().stack[i]).path == m.stack[i].path
                && m.settled().stack[i].bytes == m.stack[i].bytes && m.settled().stack[i].text
                == m.stack[i].text && m.settled().stack[i].sites == m.stack[i].sites
                && m.settled().stack[i].answers.len() >= m.stack[i].answers.len(),
        forall|path: Seq<u8>|
            #[trigger] in_progress(m.settled().stack, path) == in_progress(m.stack, path),
    decreases m.top().sites.len() - m.top().answers.len(),
{
    let f = m.top();
    let n = m.settled();
    if f.answers.len() < f.sites.len() && !includes(f.sites[f.answers.len() as int]) {
        let a = m.answered(None);
        lemma_settled_stack(a);
        assert(a.stack.len() == m.stack.len());
        assert(forall|i: int| 0 <= i < m.stack.len() - 1 ==> a.stack[i] == m.stack[i]);
        assert(a.stack[m.stack.len() - 1].path == m.stack[m.stack.len() - 1].path);
    }
    assert(forall|i: int| 0 <= i < m.stack.len() ==> n.stack[i].path == m.stack[i].path);
    assert forall|path: Seq<u8>| #[trigger]
        in_progress(n.stack, path) == in_progress(m.stack, path) by {
        if in_progress(m.stack, path) {
            let k = choose|i: int| 0 <= i < m.stack.len() && #[trigger] m.stack[i].path == path;
            assert(n.stack[k].path == path);
        }
        if in_progress(n.stack, path) {
            let k = choose|i: int| 0 <= i < n.stack.len() && #[trigger] n.stack[i].path == path;
            assert(m.stack[k].path == path);
        }
    }
}

proof fn lemma_answered_stack(m: FreezerModel, answer: Option<Seq<char>>)
    requires
        m.stack.len() > 0,
    ensures
        m.answered(answer).settled().frozen == m.frozen,
        m.answered(answer).settled().mode == m.mode,
        m.answered(answer).settled().prefix == m.prefix,
        m.answered(answer).settled().stack.len() == m.stack.len(),
        forall|i: int|
            0 <= i < m.stack.len() ==> (#[trigger] m.answered(answer).settled().stack[i]).path
                == m.stack[i].path && m.answered(answer).settled().stack[i].bytes
                == m.stack[i].bytes && m.answered(answer).settled().stack[i].text
                == m.stack[i].text && m.answered(answer).settled().stack[i].sites
                == m.stack[i].sites,
        forall|path: Seq<u8>|
            #[trigger] in_progress(m.answered(answer).settled().stack, path) == in_progress(
                m.stack,
                path,
            ),
{
    let a = m.answered(answer);
    lemma_settled_stack(a);
    assert(a.stack.len() == m.stack.len());
    assert(forall|i: int| 0 <= i < m.stack.len() - 1 ==> a.stack[i] == m.stack[i]);
    assert(a.stack[m.stack.len() - 1] == m.stack[m.stack.len() - 1].with_answer(answer));
    assert forall|path: Seq<u8>| #[trigger]
        in_progress(a.stack, path) == in_progress(m.stack, path) by {
        if in_progress(m.stack, path) {
            let k = choose|i: int| 0 <= i < m.stack.len() && #[trigger] m.stack[i].path == path;
            assert(a.stack[k].path == path);
        }
        if in_progress(a.stack, path) {
            let k = choose|i: int| 0 <= i < a.stack.len() && #[trigger] a.stack[i].path == path;
            assert(m.stack[k].path == path);
        }
    }
}

proof fn lemma_copy_kept(frozen: Seq<FrozenModel>, more: FrozenModel, path: Seq<u8>)
    requires
        copy_of(frozen, path) is Some,
        more.path != path,
    ensures
        copy_of(frozen.push(more), path) == copy_of(frozen, path),
{
    assert(frozen.push(more).drop_last() =~= frozen);
}

/// A file that has been met stays met, and a copy once made stays the copy of
/// its file: every script of the tree that includes it reads the same copy.
pub proof fn law_copies_are_kept(m: FreezerModel, event: EventModel, path: Seq<u8>)
    requires
        m.wf(),
    ensures
        met(m, path) ==> met(m.stepped(event), path),
        copy_of(m.frozen, path) is Some ==> copy_of(m.stepped(event).frozen, path) == copy_of(
            m.frozen,
            path,
        ),
{
    let n = m.stepped(event);
    match (m.action, event) {
        (ActionModel::Resolve { .. }, EventModel::Resolved(found)) => {
            lemma_answered_stack(m, None);
            if let Some(p) = found {
                if let Some(copy) = copy_of(m.frozen, p) {
                    lemma_answered_stack(m, Some(copy));
                }
                lemma_answered_stack(
                    FreezerModel { notes: m.notes.push(subscripts::too_deep(p)), ..m },
                    None,
                );
            }
        },
        (ActionModel::Load { path: p }, EventModel::Loaded(bytes)) => {
            let e = m.entered(p, bytes, subscripts::analysed(bytes));
            lemma_settled_stack(e);
            if in_progress(m.stack, path) {
                let k = choose|i: int| 0 <= i < m.stack.len() && #[trigger] m.stack[i].path == path;
                assert(e.stack[k].path == path);
                assert(in_progress(e.stack, path));
                assert(in_progress(n.stack, path));
            }
        },
        (ActionModel::Seal { .. }, EventModel::Sealed(copy)) => {
            let last = m.stack.len() - 1;
            let more = FrozenModel { path: m.top().path, copy };
            let q = FreezerModel {
                frozen: m.frozen.push(more),
                stack: m.stack.drop_last(),
                ..m
            };
            lemma_answered_stack(q, Some(copy));
            assert(n.frozen == q.frozen);
            assert(m.top() == m.stack[last]);
            assert(q.frozen.drop_last() =~= m.frozen);
            if copy_of(m.frozen, path) is Some {
                lemma_copy_of(m.frozen, path);
                let k = choose|i: int|
                    0 <= i < m.frozen.len() && (#[trigger] m.frozen[i]).path == path;
                assert(!in_progress(m.stack, m.frozen[k].path));
                assert(m.stack[last].path != path);
                lemma_copy_kept(m.frozen, more, path);
            } else if in_progress(m.stack, path) {
                let k = choose|i: int| 0 <= i < m.stack.len() && #[trigger] m.stack[i].path == path;
                if k < last {
                    assert(q.stack[k].path == path);
                    assert(in_progress(q.stack, path));
                    assert(in_progress(n.stack, path));
                } else {
                    assert(copy_of(q.frozen, path) == Some(copy));
                }
            }
        },
        _ => {},
    }
}

/// Only a file that has not been met is loaded, and then it has been: with
/// [`law_copies_are_kept`], no file is ever loaded twice.
pub proof fn law_files_are_loaded_once(m: FreezerModel, bytes: Seq<u8>)
    requires
        m.wf(),
        m.action is Load,
    ensures
        !met(m, m.action->path),
        met(m.stepped(EventModel::Loaded(bytes)), m.action->path),
{
    let path = m.action->path;
    let e = m.entered(path, bytes, subscripts::analysed(bytes));
    lemma_settled_stack(e);
    assert(e.stack[m.stack.len() as int].path == path);
    assert(in_progress(e.stack, path));
    assert(in_progress(m.stepped(EventModel::Loaded(bytes)).stack, path));
}

/// A file that has been met is not loaded again: where it has its copy, that copy
/// is what the inclusion reads, and where it is still being worked on, it includes
/// itself, and the inclusion stays as it is.
pub proof fn law_files_that_were_met_are_not_loaded(m: FreezerModel, path: Seq<u8>)
    requires
        m.wf(),
        m.action is Resolve,
        met(m, path),
    ensures
        m.stepped(EventModel::Resolved(Some(path))) == m.answered(
            copy_of(m.frozen, path),
        ).settled(),
        !(m.stepped(EventModel::Resolved(Some(path))).action is Load),
{
    assert(m.top() == m.stack[m.stack.len() - 1]);
    let answer = copy_of(m.frozen, path);
    lemma_copy_of(m.frozen, path);
    if let Some(copy) = answer {
        assert(m.is_copy(copy));
    }
    lemma_answered(m, answer);
    lemma_settled(m.answered(answer));
}

/// A name that stands for no file, or for more than one, is left as it is.
pub proof fn law_unresolved_names_are_left(m: FreezerModel)
    requires
        m.wf(),
        m.action is Resolve,
    ensures
        m.stepped(EventModel::Resolved(None)) == m.answered(None).settled(),
{
}

/// What is to run in the end is the script that the walk started from, with the
/// sites that were answered reading copies of files of the tree.
pub proof fn law_what_runs_reads_copies(m: FreezerModel, k: int)
    requires
        m.wf(),
        m.action is Done,
    ensures
        m.stack.len() == 1,
        m.stack[0].answers.len() == m.stack[0].sites.len(),
        m.action->Done_bytes == output(m.stack[0], m.prefix),
        0 <= k < m.stack[0].answers.len() && m.stack[0].answers[k] is Some ==> includes(
            m.stack[0].sites[k],
        ) && m.is_copy(m.stack[0].answers[k]->0),
{
    assert(m.top() == m.stack[0]);
}

/// The script that the walk starts from stays the lowest one; it is never frozen
/// and never loaded, even where a file of the tree includes it.
pub proof fn law_the_first_script_is_never_frozen(m: FreezerModel, event: EventModel)
    requires
        m.wf(),
    ensures
        copy_of(m.frozen, m.stack[0].path) is None,
        m.action is Load ==> m.action->path != m.stack[0].path,
        m.stepped(event).stack[0].path == m.stack[0].path,
        m.stepped(event).stack[0].bytes == m.stack[0].bytes,
        m.stepped(event).stack[0].text == m.stack[0].text,
        m.stepped(event).stack[0].sites == m.stack[0].sites,
{
    lemma_copy_of(m.frozen, m.stack[0].path);
    assert(in_progress(m.stack, m.stack[0].path));
    if copy_of(m.frozen, m.stack[0].path) is Some {
        let k = choose|i: int|
            0 <= i < m.frozen.len() && (#[trigger] m.frozen[i]).path == m.stack[0].path;
        assert(!in_progress(m.stack, m.frozen[k].path));
    }
    match (m.action, event) {
        (ActionModel::Resolve { .. }, EventModel::Resolved(found)) => {
            lemma_answered_stack(m, None);
            if let Some(p) = found {
                if let Some(copy) = copy_of(m.frozen, p) {
                    lemma_answered_stack(m, Some(copy));
                }
                lemma_answered_stack(
                    FreezerModel { notes: m.notes.push(subscripts::too_deep(p)), ..m },
                    None,
                );
            }
        },
        (ActionModel::Load { path: p }, EventModel::Loaded(bytes)) => {
            let e = m.entered(p, bytes, subscripts::analysed(bytes));
            lemma_settled_stack(e);
            assert(e.stack[0] == m.stack[0]);
        },
        (ActionModel::Seal { .. }, EventModel::Sealed(copy)) => {
            let q = FreezerModel {
                frozen: m.frozen.push(FrozenModel { path: m.top().path, copy }),
                stack: m.stack.drop_last(),
                ..m
            };
            lemma_answered_stack(q, Some(copy));
            assert(q.stack[0] == m.stack[0]);
        },
        _ => {},
    }
}

/// No file is followed deeper than the cap, whatever includes whatever.
pub proof fn law_the_depth_is_capped(m: FreezerModel)
    requires
        m.wf(),
    ensures
        m.stack.len() - 1 <= SOURCE_DEPTH_CAP,
        m.action is Load ==> m.stack.len() <= SOURCE_DEPTH_CAP,
{
}

/// Reporting changes nothing, and neither does a script that is no text or that
/// cannot be parsed: the script itself is what is to run, at once.
pub proof fn law_only_freezing_changes_a_script(
    mode: Subscripts,
    prefix: Seq<char>,
    path: Seq<u8>,
    bytes: Seq<u8>,
    a: AnalysisModel,
)
    requires
        mode != Subscripts::Freeze || !(a is Found) || a->Found_1.len() == 0,
    ensures
        started(mode, prefix, path, bytes, a).action == (ActionModel::Done { bytes }),
{
    let m = FreezerModel {
        mode,
        prefix,
        frozen: seq![],
        stack: seq![],
        notes: seq![],
        action: ActionModel::Done { bytes: seq![] },
    }.entered(path, bytes, a);
    assert(m.top() == opened(mode, path, bytes, a));
}

/// A walk starts sound.
pub proof fn law_walks_start_sound(
    mode: Subscripts,
    prefix: Seq<char>,
    path: Seq<u8>,
    bytes: Seq<u8>,
    a: AnalysisModel,
)
    ensures
        started(mode, prefix, path, bytes, a).wf(),
{
    let m = FreezerModel {
        mode,
        prefix,
        frozen: seq![],
        stack: seq![],
        notes: seq![],
        action: ActionModel::Done { bytes: seq![] },
    };
    lemma_entered(m, path, bytes, a);
    lemma_settled(m.entered(path, bytes, a));
}

/// How many sites of the scripts that are being worked on are still to be done.
pub open spec fn sites_left(stack: Seq<FrameModel>) -> nat
    decreases stack.len(),
{
    if stack.len() == 0 {
        0
    } else {
        sites_left(stack.drop_last()) + (stack.last().sites.len()
            - stack.last().answers.len()) as nat
    }
}

/// How many files of `files` have not been met.
pub open spec fn files_left(m: FreezerModel, files: Set<Seq<u8>>) -> nat {
    files.filter(|p: Seq<u8>| !met(m, p)).len()
}

/// Whether it is not yet known which file the topmost inclusion means.
pub open spec fn asking(m: FreezerModel) -> nat {
    if m.action is Resolve {
        1
    } else {
        0
    }
}

/// Whether an event answers what is needed, with a file of `files` where it names
/// one.
pub open spec fn answers(m: FreezerModel, event: EventModel, files: Set<Seq<u8>>) -> bool {
    match (m.action, event) {
        (ActionModel::Resolve { .. }, EventModel::Resolved(found)) => found is Some
            ==> files.contains(found->0),
        (ActionModel::Load { path }, EventModel::Loaded(_)) => files.contains(path),
        (ActionModel::Seal { .. }, EventModel::Sealed(_)) => true,
        _ => false,
    }
}

proof fn lemma_sites_left(a: Seq<FrameModel>, b: Seq<FrameModel>)
    requires
        a.len() == b.len(),
        forall|i: int|
            0 <= i < a.len() ==> (#[trigger] b[i]).sites == a[i].sites && a[i].answers.len()
                <= b[i].answers.len() <= b[i].sites.len(),
    ensures
        sites_left(b) <= sites_left(a),
    decreases a.len(),
{
    if a.len() > 0 {
        assert(b[b.len() - 1] == b.last());
        assert forall|i: int| 0 <= i < a.drop_last().len() implies (#[trigger] b.drop_last()[i]).sites
            == a.drop_last()[i].sites && a.drop_last()[i].answers.len()
            <= b.drop_last()[i].answers.len() <= b.drop_last()[i].sites.len() by {
            assert(b.drop_last()[i] == b[i]);
        }
        lemma_sites_left(a.drop_last(), b.drop_last());
    }
}

proof fn lemma_answered_sites_left(m: FreezerModel, answer: Option<Seq<char>>)
    requires
        under_way(m),
        m.top().answers.len() < m.top().sites.len(),
        answer matches Some(copy) ==> m.is_copy(copy) && includes(
            m.top().sites[m.top().answers.len() as int],
        ),
    ensures
        sites_left(m.answered(answer).settled().stack) < sites_left(m.stack),
{
    let a = m.answered(answer);
    lemma_answered(m, answer);
    lemma_settled(a);
    lemma_settled_stack(a);
    lemma_sites_left(a.stack, a.settled().stack);
    assert(a.stack.drop_last() =~= m.stack.drop_last());
    assert(a.stack.last() == m.top().with_answer(answer));
}

proof fn lemma_files_left(m: FreezerModel, n: FreezerModel, files: Set<Seq<u8>>)
    requires
        files.finite(),
        forall|p: Seq<u8>| met(m, p) ==> #[trigger] met(n, p),
    ensures
        files_left(n, files) <= files_left(m, files),
        forall|p: Seq<u8>|
            files.contains(p) && !met(m, p) && #[trigger] met(n, p) ==> files_left(n, files)
                < files_left(m, files),
{
    let a = files.filter(|p: Seq<u8>| !met(m, p));
    let b = files.filter(|p: Seq<u8>| !met(n, p));
    assert(b.subset_of(a));
    vstd::set_lib::lemma_len_subset(b, a);
    assert forall|p: Seq<u8>| files.contains(p) && !met(m, p) && #[trigger] met(n, p) implies b.len()
        < a.len() by {
        assert(b.subset_of(a.remove(p)));
        vstd::set_lib::lemma_len_subset(b, a.remove(p));
    }
}

/// Every event that answers what is needed brings the walk nearer to its end:
/// either fewer files of the tree are left to be met, or as many, and fewer sites
/// are left to be done, or as many of both, and it is known which file to load.
/// So a walk over finitely many files ends.
pub proof fn law_every_answer_makes_progress(
    m: FreezerModel,
    event: EventModel,
    files: Set<Seq<u8>>,
)
    requires
        m.wf(),
        files.finite(),
        answers(m, event, files),
    ensures
        ({
            let n = m.stepped(event);
            ||| files_left(n, files) < files_left(m, files)
            ||| files_left(n, files) == files_left(m, files) && sites_left(n.stack) < sites_left(
                m.stack,
            )
            ||| files_left(n, files) == files_left(m, files) && sites_left(n.stack) == sites_left(
                m.stack,
            ) && asking(n) < asking(m)
        }),
{
    let n = m.stepped(event);
    assert forall|p: Seq<u8>| met(m, p) implies #[trigger] met(n, p) by {
        law_copies_are_kept(m, event, p);
    }
    lemma_files_left(m, n, files);
    assert(m.top() == m.stack[m.stack.len() - 1]);
    match (m.action, event) {
        (ActionModel::Resolve { .. }, EventModel::Resolved(found)) => {
            match found {
                None => {
                    lemma_answered_sites_left(m, None);
                },
                Some(path) => {
                    lemma_copy_of(m.frozen, path);
                    match copy_of(m.frozen, path) {
                        Some(copy) => {
                            assert(m.is_copy(copy));
                            lemma_answered_sites_left(m, Some(copy));
                        },
                        None => {
                            if in_progress(m.stack, path) {
                                lemma_answered_sites_left(m, None);
                            } else if m.stack.len() > SOURCE_DEPTH_CAP {
                                let q = FreezerModel {
                                    notes: m.notes.push(subscripts::too_deep(path)),
                                    ..m
                                };
                                lemma_same(m, q);
                                lemma_answered_sites_left(q, None);
                            } else {
                                assert(n.stack == m.stack && n.frozen == m.frozen);
                                assert forall|p: Seq<u8>| met(n, p) == met(m, p) by {}
                                assert(files.filter(|p: Seq<u8>| !met(n, p)) =~= files.filter(
                                    |p: Seq<u8>| !met(m, p),
                                ));
                            }
                        },
                    }
                },
            }
        },
        (ActionModel::Load { path }, EventModel::Loaded(bytes)) => {
            law_files_are_loaded_once(m, bytes);
            assert(met(n, path));
        },
        (ActionModel::Seal { .. }, EventModel::Sealed(copy)) => {
            lemma_popped(m, copy);
            let q = FreezerModel {
                frozen: m.frozen.push(FrozenModel { path: m.top().path, copy }),
                stack: m.stack.drop_last(),
                ..m
            };
            lemma_answered_sites_left(q, Some(copy));
        },
        _ => {},
    }
}

// ---------------------------------------------------------------------------
// What each step does

proof fn lemma_settled_keeps_answers(m: FreezerModel, i: int, k: int)
    requires
        m.stack.len() > 0,
        0 <= i < m.stack.len(),
        0 <= k < m.stack[i].answers.len(),
    ensures
        m.settled().stack.len() == m.stack.len(),
        k < m.settled().stack[i].answers.len(),
        m.settled().stack[i].answers[k] == m.stack[i].answers[k],
    decreases m.top().sites.len() - m.top().answers.len(),
{
    let f = m.top();
    if f.answers.len() < f.sites.len() && !includes(f.sites[f.answers.len() as int]) {
        let a = m.answered(None);
        assert(a.stack.len() == m.stack.len());
        assert(a.stack[i].answers.len() >= m.stack[i].answers.len());
        assert(a.stack[i].answers[k] == m.stack[i].answers[k]);
        lemma_settled_keeps_answers(a, i, k);
    }
}

/// Once a file has its copy, the inclusion that waited for it reads that copy, and
/// so will every later one.
pub proof fn law_an_inclusion_reads_the_copy(m: FreezerModel, copy: Seq<char>)
    requires
        m.wf(),
        m.action is Seal,
    ensures
        ({
            let n = m.stepped(EventModel::Sealed(copy));
            let below = m.stack.len() - 2;
            let k = m.stack[below].answers.len() as int;
            &&& n.stack.len() == m.stack.len() - 1
            &&& k < n.stack[below].answers.len()
            &&& n.stack[below].answers[k] == Some(copy)
            &&& n.stack[below].sites == m.stack[below].sites
            &&& copy_of(n.frozen, m.stack.last().path) == Some(copy)
        }),
{
    let below = m.stack.len() - 2;
    let more = FrozenModel { path: m.top().path, copy };
    let q = FreezerModel {
        frozen: m.frozen.push(more),
        stack: m.stack.drop_last(),
        ..m
    };
    let a = q.answered(Some(copy));
    let k = m.stack[below].answers.len() as int;
    assert(q.top() == m.stack[below]);
    assert(a.stack[below].answers[k] == Some(copy));
    lemma_settled_keeps_answers(a, below, k);
    lemma_settled_stack(a);
    assert(q.frozen.last() == more);
}

/// Which file an inclusion means decides what it reads: the copy of a file that
/// has one; nothing new where there is no such file, where the file includes
/// itself or where it lies too deep. Any other file is loaded.
pub proof fn law_what_an_inclusion_comes_to(m: FreezerModel, found: Option<Seq<u8>>)
    requires
        m.wf(),
        m.action is Resolve,
    ensures
        ({
            let n = m.stepped(EventModel::Resolved(found));
            let top = m.stack.len() - 1;
            let k = m.stack[top].answers.len() as int;
            &&& n.stack.len() == m.stack.len()
            &&& n.frozen == m.frozen
            &&& found is Some && copy_of(m.frozen, found->0) is None && !in_progress(
                m.stack,
                found->0,
            ) && m.stack.len() <= 64 ==> n.action == (ActionModel::Load { path: found->0 })
                && n.stack == m.stack && n.notes == m.notes
            &&& found is Some && copy_of(m.frozen, found->0) is Some ==> k
                < n.stack[top].answers.len() && n.stack[top].answers[k] == copy_of(
                m.frozen,
                found->0,
            )
            &&& found is None || (copy_of(m.frozen, found->0) is None && (in_progress(
                m.stack,
                found->0,
            ) || m.stack.len() > 64)) ==> k < n.stack[top].answers.len()
                && n.stack[top].answers[k] is None
        }),
{
    let top = m.stack.len() - 1;
    let k = m.stack[top].answers.len() as int;
    assert(m.top() == m.stack[top]);
    lemma_answered_stack(m, None);
    let none = m.answered(None);
    assert(none.stack[top].answers[k] is None);
    lemma_settled_keeps_answers(none, top, k);
    if let Some(path) = found {
        if let Some(copy) = copy_of(m.frozen, path) {
            lemma_answered_stack(m, Some(copy));
            let some = m.answered(Some(copy));
            assert(some.stack[top].answers[k] == Some(copy));
            lemma_settled_keeps_answers(some, top, k);
        }
        let q = FreezerModel { notes: m.notes.push(subscripts::too_deep(path)), ..m };
        lemma_answered_stack(q, None);
        let deep = q.answered(None);
        assert(deep.stack[top].answers[k] is None);
        lemma_settled_keeps_answers(deep, top, k);
    }
}

/// A file that was loaded is worked on in turn, with its own sites, on top of the
/// script that includes it; freezing goes all the way down.
pub proof fn law_loaded_files_are_worked_on(m: FreezerModel, bytes: Seq<u8>)
    requires
        m.wf(),
        m.action is Load,
    ensures
        ({
            let n = m.stepped(EventModel::Loaded(bytes));
            let top = m.stack.len() as int;
            &&& n.stack.len() == top + 1
            &&& n.mode == m.mode && n.prefix == m.prefix && n.frozen == m.frozen
            &&& n.stack[top].path == m.action->path
            &&& n.stack[top].bytes == bytes
            &&& n.stack[top].sites == subscripts::sites_of(bytes)
            &&& n.stack[top].sites.len() > 0 ==> n.stack[top].text == decode_utf8(bytes)
            &&& forall|i: int| 0 <= i < top ==> n.stack[i] == m.stack[i]
        }),
{
    let path = m.action->path;
    let a = subscripts::analysed(bytes);
    let e = m.entered(path, bytes, a);
    lemma_entered(m, path, bytes, a);
    lemma_settled(e);
    lemma_settled_stack(e);
    let top = m.stack.len() as int;
    assert(e.stack[top] == opened(m.mode, path, bytes, a));
    assert(m.top() == m.stack[top - 1]);
    let n = e.settled();
    assert forall|i: int| 0 <= i < top implies n.stack[i] == m.stack[i] by {
        assert(n.stack.drop_last()[i] == e.stack.drop_last()[i]);
    }
}

/// A walk in which everything is frozen starts with the sites of the script; in
/// any other it has none to work on.
pub proof fn law_where_a_walk_starts(
    mode: Subscripts,
    prefix: Seq<char>,
    path: Seq<u8>,
    bytes: Seq<u8>,
)
    ensures
        ({
            let m = started(mode, prefix, path, bytes, subscripts::analysed(bytes));
            &&& m.mode == mode && m.prefix == prefix && m.frozen.len() == 0
            &&& m.stack.len() == 1
            &&& m.stack[0].path == path && m.stack[0].bytes == bytes
            &&& mode == Subscripts::Freeze ==> m.stack[0].sites == subscripts::sites_of(bytes)
            &&& m.stack[0].sites.len() > 0 ==> m.stack[0].text == decode_utf8(bytes)
            &&& mode != Subscripts::Freeze ==> m.stack[0].sites.len() == 0 && m.action == (
            ActionModel::Done { bytes })
        }),
{
    let a = subscripts::analysed(bytes);
    let m = FreezerModel {
        mode,
        prefix,
        frozen: seq![],
        stack: seq![],
        notes: seq![],
        action: ActionModel::Done { bytes: seq![] },
    };
    let e = m.entered(path, bytes, a);
    assert(e.stack[0] == opened(mode, path, bytes, a));
    lemma_settled_stack(e);
    law_only_freezing_changes_a_script(mode, prefix, path, bytes, AnalysisModel::NotText);
    if mode != Subscripts::Freeze {
        law_only_freezing_changes_a_script(mode, prefix, path, bytes, a);
    }
}

/// What a script comes to is its text, rewritten at its sites as they were
/// answered; without sites it is the script itself.
pub proof fn law_a_finished_script_is_rewritten(f: FrameModel, prefix: Seq<char>)
    ensures
        f.sites.len() == 0 ==> output(f, prefix) == f.bytes,
        f.sites.len() > 0 ==> output(f, prefix) == encode_utf8(
            rewrite::rewritten(f.text, f.sites, f.answers, prefix),
        ),
{
}

/// A script of a walk is finished when its sites are; what is sealed or run then is
/// what it comes to, and a report on all of its sites has been made.
pub proof fn law_finished_scripts_are_reported(m: FreezerModel)
    requires
        m.stack.len() > 0,
        m.top().answers.len() <= m.top().sites.len(),
    ensures
        ({
            let n = m.settled();
            let f = n.stack.last();
            &&& n.action is Seal ==> n.stack.len() > 1 && n.action->Seal_bytes == output(
                f,
                m.prefix,
            )
            &&& n.action is Done ==> n.stack.len() == 1 && n.action->Done_bytes == output(
                f,
                m.prefix,
            )
            &&& n.action is Seal || n.action is Done ==> f.answers.len() == f.sites.len()
            &&& (n.action is Seal || n.action is Done) && f.sites.len() > 0 ==> n.notes.len() > 0
                && n.notes.last() == subscripts::outcome_report(
                f.path,
                f.sites,
                rewrite::outcomes_for(f.sites, f.answers, m.prefix, f.text.len()),
            )
            &&& n.action is Resolve ==> f.answers.len() < f.sites.len() && n.action->target
                == f.sites[f.answers.len() as int].target && n.action->from == f.path
                && f.sites[f.answers.len() as int].resolvable
                && f.sites[f.answers.len() as int].category == Category::Source
        }),
    decreases m.top().sites.len() - m.top().answers.len(),
{
    let f = m.top();
    if f.answers.len() < f.sites.len() && !includes(f.sites[f.answers.len() as int]) {
        let a = m.answered(None);
        assert(a.top() == f.with_answer(None));
        law_finished_scripts_are_reported(a);
    }
}

/// Working sites off asks about every inclusion of a known name and gives every
/// other site no copy, one after the other.
pub proof fn law_sites_are_worked_off_in_order(m: FreezerModel, k: int)
    requires
        m.stack.len() > 0,
        m.top().answers.len() <= k < m.settled().top().answers.len(),
    ensures
        m.settled().top().answers[k] is None,
        !(m.top().sites[k].resolvable && m.top().sites[k].category == Category::Source),
    decreases m.top().sites.len() - m.top().answers.len(),
{
    let f = m.top();
    if f.answers.len() < f.sites.len() && !includes(f.sites[f.answers.len() as int]) {
        let a = m.answered(None);
        let top = m.stack.len() - 1;
        assert(a.top() == f.with_answer(None));
        if k == f.answers.len() {
            lemma_settled_keeps_answers(a, top, k);
            assert(a.stack[top].answers[k] is None);
            lemma_settled_stack(a);
        } else {
            law_sites_are_worked_off_in_order(a, k);
        }
    }
}

/// What is said of a script at first: that it is no text or cannot be parsed, and,
/// where only a report is asked for, what was found in it.
pub proof fn law_what_is_said_at_first(path: Seq<u8>, e: Seq<char>, t: Seq<char>, s: Seq<SiteModel>)
    ensures
        opening_notes(Subscripts::Freeze, path, AnalysisModel::NotText) == seq![
            subscripts::not_text(path),
        ],
        opening_notes(Subscripts::Report, path, AnalysisModel::NotText) == seq![
            subscripts::not_text(path),
        ],
        opening_notes(Subscripts::Freeze, path, AnalysisModel::Unparsable(e)) == seq![
            subscripts::unparsable(path, e),
        ],
        opening_notes(Subscripts::Report, path, AnalysisModel::Unparsable(e)) == seq![
            subscripts::unparsable(path, e),
        ],
        s.len() > 0 ==> opening_notes(Subscripts::Report, path, AnalysisModel::Found(t, s)) == seq![
            subscripts::detection(path, s),
        ],
        forall|a: AnalysisModel| (#[trigger] opening_notes(Subscripts::Off, path, a)).len() == 0,
{
}

proof fn lemma_settled_keeps_notes(m: FreezerModel)
    requires
        m.stack.len() > 0,
    ensures
        m.notes.is_prefix_of(m.settled().notes),
    decreases m.top().sites.len() - m.top().answers.len(),
{
    let f = m.top();
    let n = m.settled();
    if f.answers.len() < f.sites.len() && !includes(f.sites[f.answers.len() as int]) {
        lemma_settled_keeps_notes(m.answered(None));
    } else {
        assert(n.notes.subrange(0, m.notes.len() as int) =~= m.notes);
    }
}

/// What is said of a script is said when the walk comes to it: a report lists what
/// was found, and a script that is no text or cannot be parsed is told of. A file
/// that is not followed because it lies too deep is told of too.
pub proof fn law_what_a_walk_tells(
    mode: Subscripts,
    prefix: Seq<char>,
    path: Seq<u8>,
    bytes: Seq<u8>,
    a: AnalysisModel,
    m: FreezerModel,
    deep: Seq<u8>,
)
    ensures
        opening_notes(mode, path, a).is_prefix_of(started(mode, prefix, path, bytes, a).notes),
        mode != Subscripts::Freeze ==> started(mode, prefix, path, bytes, a).notes
            == opening_notes(mode, path, a),
        m.wf() && m.action is Load ==> (m.notes + opening_notes(
            m.mode,
            m.action->path,
            subscripts::analysed(bytes),
        )).is_prefix_of(m.stepped(EventModel::Loaded(bytes)).notes),
        m.wf() && m.action is Resolve && copy_of(m.frozen, deep) is None && !in_progress(
            m.stack,
            deep,
        ) && m.stack.len() > 64 ==> m.notes.push(subscripts::too_deep(deep)).is_prefix_of(
            m.stepped(EventModel::Resolved(Some(deep))).notes,
        ),
{
    let start = FreezerModel {
        mode,
        prefix,
        frozen: seq![],
        stack: seq![],
        notes: seq![],
        action: ActionModel::Done { bytes: seq![] },
    };
    let e = start.entered(path, bytes, a);
    assert(e.notes =~= opening_notes(mode, path, a));
    lemma_settled_keeps_notes(e);
    if mode != Subscripts::Freeze {
        assert(e.top() == opened(mode, path, bytes, a));
        assert(e.settled().notes =~= e.notes);
    }
    if m.wf() && m.action is Load {
        lemma_settled_keeps_notes(m.entered(m.action->path, bytes, subscripts::analysed(bytes)));
    }
    if m.wf() && m.action is Resolve {
        let q = FreezerModel { notes: m.notes.push(subscripts::too_deep(deep)), ..m };
        lemma_settled_keeps_notes(q.answered(None));
    }
}

} // verus!
