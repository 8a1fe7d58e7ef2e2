//! The resolution of an artifact with everything that it depends on, as a
//! state machine. The machine decides what is done next; whoever drives it
//! does the fetching and the probing of the local repository and reports back.
//!
//! A run starts with the fetch of the root. After each fetch, every coordinate
//! that waits, and every dependency that the manifest just fetched declares, is
//! probed again: only those that the local repository lacks stay in the
//! frontier. The last of them is fetched next. The run is over when nothing is
//! left.

use crate::error::RepositoryOperationError;
use crate::repository::{Artifact, ArtifactView};
use crate::utils::{dependencies_in_pom, manifest_dependencies};
use std::collections::VecDeque;
use vstd::prelude::*;

verus! {

/// What the driver of a resolution is asked to do next.
#[derive(Debug)]
pub enum Step {
    /// Fetch the binary and the manifest of this coordinate, save both, and
    /// report the manifest.
    Fetch(Artifact),
    /// Report whether the local repository holds this coordinate.
    Probe(Artifact),
    /// Nothing: the resolution is complete.
    Done,
}

/// The mathematical value of a [`Step`].
pub enum StepView {
    Fetch(ArtifactView),
    Probe(ArtifactView),
    Done,
}

impl View for Step {
    type V = StepView;

    open spec fn view(&self) -> StepView {
        match self {
            Step::Fetch(artifact) => StepView::Fetch(artifact@),
            Step::Probe(artifact) => StepView::Probe(artifact@),
            Step::Done => StepView::Done,
        }
    }
}

/// The state of a resolution.
pub struct Frontier {
    /// The coordinate whose fetch is asked for.
    pub fetching: Option<ArtifactView>,
    /// The coordinates that were probed since the last fetch and that the local
    /// repository lacks, in the order in which they were probed.
    pub missing: Seq<ArtifactView>,
    /// The coordinates that are still to be probed, the next one first.
    pub unprobed: Seq<ArtifactView>,
}

impl Frontier {
    /// The state in which a resolution of `root` starts: the root is fetched,
    /// whether or not the local repository holds it.
    pub open spec fn start(root: ArtifactView) -> Frontier {
        Frontier { fetching: Some(root), missing: Seq::empty(), unprobed: Seq::empty() }
    }

    /// What is asked of the driver in this state.
    pub open spec fn step(self) -> StepView {
        if let Some(artifact) = self.fetching {
            StepView::Fetch(artifact)
        } else if self.unprobed.len() > 0 {
            StepView::Probe(self.unprobed[0])
        } else {
            StepView::Done
        }
    }

    /// Where nothing is fetched and nothing is left to probe, the last of the
    /// missing coordinates is fetched next.
    pub open spec fn settled(self) -> Frontier {
        if self.fetching is None && self.unprobed.len() == 0 && self.missing.len() > 0 {
            Frontier {
                fetching: Some(self.missing.last()),
                missing: self.missing.drop_last(),
                unprobed: Seq::empty(),
            }
        } else {
            self
        }
    }

    /// The state after the fetch that was asked for, where the manifest that
    /// was fetched declares `dependencies`: all that waited and all that is
    /// declared is to be probed. In a state that asks for no fetch, nothing
    /// changes.
    pub open spec fn fetched(self, dependencies: Seq<ArtifactView>) -> Frontier {
        if self.fetching is Some {
            Frontier {
                fetching: None,
                missing: Seq::empty(),
                unprobed: self.unprobed + self.missing + dependencies,
            }.settled()
        } else {
            self
        }
    }

    /// The state after the probe that was asked for: the coordinate stays in
    /// the frontier unless the local repository holds it. In a state that asks
    /// for no probe, nothing changes.
    pub open spec fn probed(self, exists: bool) -> Frontier {
        if self.fetching is None && self.unprobed.len() > 0 {
            Frontier {
                fetching: None,
                missing: if exists {
                    self.missing
                } else {
                    self.missing.push(self.unprobed[0])
                },
                unprobed: self.unprobed.drop_first(),
            }.settled()
        } else {
            self
        }
    }

    /// What holds of every state of a run: a fetch is asked for only when
    /// nothing is left to probe, and something is asked for as long as a
    /// coordinate waits.
    pub open spec fn wf(self) -> bool {
        &&& self.fetching is Some ==> self.unprobed.len() == 0
        &&& self.fetching is None && self.unprobed.len() == 0 ==> self.missing.len() == 0
    }

    /// Whether the state asks for nothing that `present` holds: neither the
    /// coordinate to fetch nor one that counts as missing is in `present`.
    pub open spec fn avoids(self, present: Set<ArtifactView>) -> bool {
        &&& self.fetching matches Some(artifact) ==> !present.contains(artifact)
        &&& forall|i: int| 0 <= i < self.missing.len() ==> !present.contains(#[trigger] self.missing[i])
    }
}

/// The resolution of one root artifact.
pub struct Resolver {
    fetching: Option<Artifact>,
    missing: Vec<Artifact>,
    unprobed: VecDeque<Artifact>,
}

impl View for Resolver {
    type V = Frontier;

    closed spec fn view(&self) -> Frontier {
        Frontier {
            fetching: match self.fetching {
                Some(artifact) => Some(artifact@),
                None => None,
            },
            missing: self.missing.deep_view(),
            unprobed: self.unprobed.deep_view(),
        }
    }
}

impl Resolver {
    /// Starts the resolution of `root`.
    pub fn new(root: Artifact) -> (r: Self)
        ensures
            r@ == Frontier::start(root@),
    {
        let r = Resolver { fetching: Some(root), missing: Vec::new(), unprobed: VecDeque::new() };
        assert(r.missing.deep_view() == Seq::<ArtifactView>::empty());
        assert(r.unprobed.deep_view() == Seq::<ArtifactView>::empty());
        r
    }

    /// What the driver is to do next.
    pub fn step(&self) -> (r: Step)
        ensures
            r@ == self@.step(),
    {
        match &self.fetching {
            Some(artifact) => Step::Fetch(artifact.clone()),
            None => {
                if self.unprobed.len() > 0 {
                    assert(self.unprobed.deep_view()[0] == self.unprobed@[0]@);
                    Step::Probe(self.unprobed[0].clone())
                } else {
                    Step::Done
                }
            },
        }
    }

    /// Lets the last of the missing coordinates be fetched next, where nothing
    /// is fetched and nothing is left to probe.
    fn settle(&mut self)
        ensures
            final(self)@ == old(self)@.settled(),
    {
        if self.fetching.is_none() && self.unprobed.len() == 0 && self.missing.len() > 0 {
            let ghost before = self.missing.deep_view();
            let last = self.missing.pop();
            assert(self.missing.deep_view() == before.drop_last());
            assert(last.unwrap()@ == before.last());
            assert(self.unprobed.deep_view() == Seq::<ArtifactView>::empty());
            self.fetching = last;
        }
    }

    /// Reports that the coordinate asked for was fetched and saved, and that
    /// its manifest declares `dependencies`.
    pub fn fetched(&mut self, dependencies: Vec<Artifact>)
        ensures
            final(self)@ == old(self)@.fetched(dependencies.deep_view()),
    {
        if self.fetching.is_none() {
            return ;
        }
        let ghost waiting = self.unprobed.deep_view();
        let ghost missing = self.missing.deep_view();
        let ghost declared = dependencies.deep_view();
        let mut held: Vec<Artifact> = Vec::new();
        core::mem::swap(&mut self.missing, &mut held);
        assert(self.missing.deep_view() == Seq::<ArtifactView>::empty());
        assert(waiting + missing.take(0) == waiting);
        for artifact in it: held
            invariant
                it.seq().len() == missing.len(),
                forall|k: int| 0 <= k < missing.len() ==> it.seq()[k]@ == missing[k],
                self.unprobed.deep_view() == waiting + missing.take(it.index()),
                self.missing.deep_view() == Seq::<ArtifactView>::empty(),
                self.fetching == old(self).fetching,
        {
            let ghost before = self.unprobed.deep_view();
            self.unprobed.push_back(artifact);
            assert(self.unprobed.deep_view() == before.push(artifact@));
            assert(missing.take(it.index() + 1) == missing.take(it.index()).push(artifact@));
        }
        assert(missing.take(missing.len() as int) == missing);
        assert(waiting + missing + declared.take(0) == waiting + missing);
        for artifact in it: dependencies
            invariant
                it.seq().len() == declared.len(),
                forall|k: int| 0 <= k < declared.len() ==> it.seq()[k]@ == declared[k],
                self.unprobed.deep_view() == waiting + missing + declared.take(it.index()),
                self.missing.deep_view() == Seq::<ArtifactView>::empty(),
                self.fetching == old(self).fetching,
        {
            let ghost before = self.unprobed.deep_view();
            self.unprobed.push_back(artifact);
            assert(self.unprobed.deep_view() == before.push(artifact@));
            assert(declared.take(it.index() + 1) == declared.take(it.index()).push(artifact@));
        }
        assert(declared.take(declared.len() as int) == declared);
        self.fetching = None;
        self.settle();
    }

    /// Reports whether the local repository holds the coordinate that was
    /// to be probed.
    pub fn probed(&mut self, exists: bool)
        ensures
            final(self)@ == old(self)@.probed(exists),
    {
        if self.fetching.is_some() {
            return ;
        }
        let ghost waiting = self.unprobed.deep_view();
        let ghost missing = self.missing.deep_view();
        match self.unprobed.pop_front() {
            None => {},
            Some(artifact) => {
                assert(self.unprobed.deep_view() == waiting.drop_first());
                assert(artifact@ == waiting[0]);
                if !exists {
                    self.missing.push(artifact);
                    assert(self.missing.deep_view() == missing.push(artifact@));
                }
                self.settle();
            },
        }
    }

    /// Reports that the coordinate asked for was fetched and saved, and that
    /// `manifest` is the text of its manifest, as it was saved. Where the
    /// manifest declares its dependencies, they join the frontier; where it
    /// gives none, the resolution is at an end and the state stays as it was.
    pub fn read_manifest(&mut self, manifest: &str) -> (r: Result<(), RepositoryOperationError>)
        ensures
            match manifest_dependencies(manifest@) {
                Ok(dependencies) => r is Ok && final(self)@ == old(self)@.fetched(dependencies),
                Err(fault) => final(self)@ == old(self)@ && (r matches Err(
                    RepositoryOperationError::ManifestParseError(error),
                ) && error@ == fault),
            },
    {
        match dependencies_in_pom(manifest) {
            Ok(dependencies) => {
                self.fetched(dependencies);
                Ok(())
            },
            Err(error) => Err(RepositoryOperationError::ManifestParseError(error)),
        }
    }
}

/// A run starts in a well-formed state.
pub proof fn lemma_start_is_well_formed(root: ArtifactView)
    ensures
        Frontier::start(root).wf(),
        Frontier::start(root).step() == StepView::Fetch(root),
{
}

/// Every report leaves a well-formed state well-formed.
pub proof fn lemma_reports_keep_well_formed(
    state: Frontier,
    dependencies: Seq<ArtifactView>,
    exists: bool,
)
    requires
        state.wf(),
    ensures
        state.fetched(dependencies).wf(),
        state.probed(exists).wf(),
{
}

/// A well-formed state asks for nothing only when no coordinate waits: the run
/// is over exactly when the frontier is empty.
pub proof fn lemma_done_is_empty(state: Frontier)
    requires
        state.wf(),
    ensures
        state.step() == StepView::Done <==> state.fetching is None && state.missing.len() == 0
            && state.unprobed.len() == 0,
{
}

/// After a fetch, each coordinate that waited and each declared dependency is
/// probed, in that order, before anything else is fetched.
pub proof fn lemma_fetch_probes_all(state: Frontier, dependencies: Seq<ArtifactView>)
    requires
        state.wf(),
        state.fetching is Some,
    ensures
        state.missing.len() + dependencies.len() > 0 ==> {
            &&& state.fetched(dependencies).fetching is None
            &&& state.fetched(dependencies).missing.len() == 0
            &&& state.fetched(dependencies).unprobed == state.missing + dependencies
        },
        state.missing.len() + dependencies.len() == 0 ==> state.fetched(dependencies).step()
            == StepView::Done,
{
    assert(state.unprobed + state.missing + dependencies == state.missing + dependencies);
}

/// A probe that is answered by what the local repository holds keeps out of
/// the frontier whatever the repository holds: where `present` is what it
/// holds and the state asks for nothing in `present`, neither does the next.
pub proof fn lemma_probe_avoids_present(
    state: Frontier,
    present: Set<ArtifactView>,
    exists: bool,
)
    requires
        state.avoids(present),
        state.step() matches StepView::Probe(artifact) ==> exists == present.contains(artifact),
    ensures
        state.probed(exists).avoids(present),
{
    let next = state.probed(exists);
    if state.fetching is None && state.unprobed.len() > 0 {
        let kept = if exists {
            state.missing
        } else {
            state.missing.push(state.unprobed[0])
        };
        assert forall|i: int| 0 <= i < kept.len() implies !present.contains(#[trigger] kept[i]) by {
            if i < state.missing.len() {
                assert(kept[i] == state.missing[i]);
            }
        }
        assert forall|i: int| 0 <= i < next.missing.len() implies !present.contains(
            #[trigger] next.missing[i],
        ) by {
            assert(next.missing[i] == kept[i]);
        }
    }
}

/// After a fetch nothing counts as missing until it is probed again: whatever
/// the local repository holds by then, the next state asks for nothing in it.
pub proof fn lemma_fetch_avoids_present(
    state: Frontier,
    present: Set<ArtifactView>,
    dependencies: Seq<ArtifactView>,
)
    requires
        state.wf(),
        state.fetching is Some,
    ensures
        state.fetched(dependencies).avoids(present),
{
    lemma_fetch_probes_all(state, dependencies);
}

/// What a driver reports back to the machine.
pub enum Report {
    /// The coordinate asked for was fetched and saved; its manifest declares
    /// these dependencies.
    Fetched(Seq<ArtifactView>),
    /// Whether the local repository holds the coordinate asked about.
    Probed(bool),
}

/// A resolution under way, together with the local repository that it fills.
pub struct Run {
    /// The state of the machine.
    pub state: Frontier,
    /// The coordinates that the local repository holds.
    pub present: Set<ArtifactView>,
    /// The coordinates that were fetched so far, in order.
    pub fetched: Seq<ArtifactView>,
}

impl Run {
    /// The run of a resolution of `root` against a local repository that holds
    /// `present`, before anything is done.
    pub open spec fn start(root: ArtifactView, present: Set<ArtifactView>) -> Run {
        Run { state: Frontier::start(root), present, fetched: Seq::empty() }
    }

    /// The run after one report. A fetch saves what it fetched, so the local
    /// repository holds it from then on. A probe is answered by what the local
    /// repository holds. A report that does not answer what was asked, or a
    /// probe answered otherwise, is not part of any run and changes nothing.
    pub open spec fn after(self, report: Report) -> Run {
        match (self.state.step(), report) {
            (StepView::Fetch(artifact), Report::Fetched(dependencies)) => Run {
                state: self.state.fetched(dependencies),
                present: self.present.insert(artifact),
                fetched: self.fetched.push(artifact),
            },
            (StepView::Probe(artifact), Report::Probed(exists)) => if exists
                == self.present.contains(artifact) {
                Run { state: self.state.probed(exists), ..self }
            } else {
                self
            },
            _ => self,
        }
    }

    /// The run after the reports `reports`, in order.
    pub open spec fn after_all(self, reports: Seq<Report>) -> Run
        decreases reports.len(),
    {
        if reports.len() == 0 {
            self
        } else {
            self.after_all(reports.drop_last()).after(reports.last())
        }
    }

    /// What holds throughout a run: the machine is well-formed; before the
    /// first fetch it asks for the root; after it, it asks for nothing that the
    /// local repository holds; and what was fetched is held, each once.
    pub open spec fn steady(self, root: ArtifactView) -> bool {
        &&& self.state.wf()
        &&& self.fetched.len() == 0 ==> self.state == Frontier::start(root)
        &&& self.fetched.len() > 0 ==> self.state.avoids(self.present)
        &&& forall|i: int| 0 <= i < self.fetched.len() ==> self.present.contains(#[trigger] self.fetched[i])
        &&& self.fetched.no_duplicates()
    }
}

/// One report keeps a run steady.
pub proof fn lemma_report_keeps_steady(run: Run, root: ArtifactView, report: Report)
    requires
        run.steady(root),
    ensures
        run.after(report).steady(root),
{
    let next = run.after(report);
    match (run.state.step(), report) {
        (StepView::Fetch(artifact), Report::Fetched(dependencies)) => {
            lemma_reports_keep_well_formed(run.state, dependencies, false);
            lemma_fetch_avoids_present(run.state, next.present, dependencies);
            assert forall|i: int| 0 <= i < run.fetched.len() implies run.fetched[i] != artifact by {
                assert(run.present.contains(run.fetched[i]));
            }
            assert forall|i: int| 0 <= i < next.fetched.len() implies next.present.contains(
                #[trigger] next.fetched[i],
            ) by {
                if i < run.fetched.len() {
                    assert(next.fetched[i] == run.fetched[i]);
                }
            }
        },
        (StepView::Probe(artifact), Report::Probed(exists)) => {
            if exists == run.present.contains(artifact) {
                lemma_reports_keep_well_formed(run.state, Seq::empty(), exists);
                lemma_probe_avoids_present(run.state, run.present, exists);
            }
        },
        _ => {},
    }
}

/// No coordinate is fetched twice. In a run of a resolution of `root`, against
/// a local repository that holds `present` at the start, the coordinates that
/// are fetched are all different, whatever the manifests declare; and none of
/// them but the root, which is fetched first and in any case, was held when
/// the run began.
pub proof fn lemma_no_coordinate_fetched_twice(
    root: ArtifactView,
    present: Set<ArtifactView>,
    reports: Seq<Report>,
)
    ensures
        Run::start(root, present).after_all(reports).steady(root),
        Run::start(root, present).after_all(reports).fetched.no_duplicates(),
        forall|i: int|
            0 < i < Run::start(root, present).after_all(reports).fetched.len() ==> !present.contains(
                #[trigger] Run::start(root, present).after_all(reports).fetched[i],
            ),
    decreases reports.len(),
{
    let first = Run::start(root, present);
    if reports.len() == 0 {
    } else {
        lemma_no_coordinate_fetched_twice(root, present, reports.drop_last());
        let before = first.after_all(reports.drop_last());
        lemma_report_keeps_steady(before, root, reports.last());
        lemma_present_grows(first, reports.drop_last());
        let next = before.after(reports.last());
        assert forall|i: int| 0 < i < next.fetched.len() implies !present.contains(
            #[trigger] next.fetched[i],
        ) by {
            if i < before.fetched.len() {
                assert(next.fetched[i] == before.fetched[i]);
            } else {
                assert(before.fetched.len() > 0);
                assert(before.state.avoids(before.present));
            }
        }
    }
}

/// The local repository loses nothing in a run.
pub proof fn lemma_present_grows(run: Run, reports: Seq<Report>)
    ensures
        run.present.subset_of(run.after_all(reports).present),
        run.fetched.len() <= run.after_all(reports).fetched.len(),
    decreases reports.len(),
{
    if reports.len() > 0 {
        lemma_present_grows(run, reports.drop_last());
    }
}

} // verus!
