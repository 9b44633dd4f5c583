//! The privileged apply protocol. The unprivileged side computes the new
//! document and the helper's arguments and escalates only when the plan
//! changes something. The helper's side is a state machine: back up, write
//! the new document, run the builder, and on builder failure restore the
//! backup byte for byte. Generation pruning runs only after a successful
//! build; its failure costs the exit status but never the new document.
//!
//! The driver that runs this machine against a real file lives outside the
//! library; `run_helper_on_disk` runs it against an in-memory document and
//! carries the rollback guarantee in its contract.

use vstd::prelude::*;

use crate::bytes::ascii;
use crate::bytes::dec_rep;
use crate::bytes::lit;
use crate::editor::doc_model;
use crate::editor::entries_of;
use crate::editor::spec_add;
use crate::editor::spec_remove;
use crate::editor::vecs_view;
use crate::error::SnowError;
use crate::ident::bare_convention;
use crate::ident::spelled_list;
use crate::ident::valid_ident;
use crate::plan::DomainKind;
use crate::plan::Operation;
use crate::plan::spec_plan_install;
use crate::plan::spec_plan_remove;
use crate::store::spec_attr_path;

verus! {

/// Where the helper stands in its write-build-restore-prune run.
#[derive(Clone, Copy, Debug, PartialEq, Eq, Structural)]
pub enum HelperPhase {
    AwaitWrite,
    AwaitBuild,
    AwaitRestore,
    AwaitPrune,
    Done,
}

/// What the helper must do next; the driver performs it and reports back.
#[derive(Clone, Copy, Debug, PartialEq, Eq, Structural)]
pub enum HelperAction {
    WriteNewDocument,
    RunBuilder,
    RestoreBackup,
    PruneGenerations,
    Exit,
}

/// What the driver reports: the write happened, the builder exited with
/// or without success, the backup is restored, pruning exited.
#[derive(Clone, Copy, Debug, PartialEq, Eq, Structural)]
pub enum HelperEvent {
    Wrote,
    BuilderFinished(bool),
    Restored,
    PruneFinished(bool),
}

/// The outcome of one apply: whether the new document is committed, and
/// whether the old one was restored. For a declarative domain one of the
/// two always holds.
#[derive(Clone, Copy, Debug, PartialEq, Eq, Structural)]
pub struct ApplyOutcome {
    pub success: bool,
    pub restored: bool,
}

/// The helper's state machine. `retain` is the generation-retention
/// count; zero means no pruning. `built` records a successful build,
/// `restored` a rollback, `prune_ok` the pruning exit.
pub struct HelperProtocol {
    pub phase: HelperPhase,
    pub retain: u32,
    pub built: bool,
    pub restored: bool,
    pub prune_ok: bool,
}

/// Which event answers which phase.
pub open spec fn event_fits(phase: HelperPhase, ev: HelperEvent) -> bool {
    match ev {
        HelperEvent::Wrote => phase == HelperPhase::AwaitWrite,
        HelperEvent::BuilderFinished(_) => phase == HelperPhase::AwaitBuild,
        HelperEvent::Restored => phase == HelperPhase::AwaitRestore,
        HelperEvent::PruneFinished(_) => phase == HelperPhase::AwaitPrune,
    }
}

/// The transition relation of the helper.
pub open spec fn spec_step(s: HelperProtocol, ev: HelperEvent) -> HelperProtocol {
    match ev {
        HelperEvent::Wrote => HelperProtocol { phase: HelperPhase::AwaitBuild, ..s },
        HelperEvent::BuilderFinished(ok) => if !ok {
            HelperProtocol { phase: HelperPhase::AwaitRestore, built: false, ..s }
        } else if s.retain > 0 {
            HelperProtocol { phase: HelperPhase::AwaitPrune, built: true, ..s }
        } else {
            HelperProtocol { phase: HelperPhase::Done, built: true, ..s }
        },
        HelperEvent::Restored => HelperProtocol {
            phase: HelperPhase::Done,
            restored: true,
            ..s
        },
        HelperEvent::PruneFinished(ok) => HelperProtocol {
            phase: HelperPhase::Done,
            prune_ok: ok,
            ..s
        },
    }
}

/// The helper's exit status: zero only when the build succeeded and any
/// requested pruning did too. A pruning failure costs the exit status
/// but never rolls the document back.
pub open spec fn spec_exit_ok(s: HelperProtocol) -> bool {
    s.built && s.prune_ok
}

impl HelperProtocol {
    /// A fresh run, waiting to write the new document.
    pub fn start(retain: u32) -> (s: Self)
        ensures
            s.phase == HelperPhase::AwaitWrite,
            s.retain == retain,
            !s.built,
            !s.restored,
            s.prune_ok,
    {
        HelperProtocol {
            phase: HelperPhase::AwaitWrite,
            retain,
            built: false,
            restored: false,
            prune_ok: true,
        }
    }

    /// What the driver must do in the current phase.
    pub fn next_action(&self) -> (a: HelperAction)
        ensures
            a == (match self.phase {
                HelperPhase::AwaitWrite => HelperAction::WriteNewDocument,
                HelperPhase::AwaitBuild => HelperAction::RunBuilder,
                HelperPhase::AwaitRestore => HelperAction::RestoreBackup,
                HelperPhase::AwaitPrune => HelperAction::PruneGenerations,
                HelperPhase::Done => HelperAction::Exit,
            }),
    {
        match self.phase {
            HelperPhase::AwaitWrite => HelperAction::WriteNewDocument,
            HelperPhase::AwaitBuild => HelperAction::RunBuilder,
            HelperPhase::AwaitRestore => HelperAction::RestoreBackup,
            HelperPhase::AwaitPrune => HelperAction::PruneGenerations,
            HelperPhase::Done => HelperAction::Exit,
        }
    }

    /// Takes the driver's report and moves on.
    pub fn step(&mut self, ev: HelperEvent)
        requires
            event_fits(old(self).phase, ev),
        ensures
            *final(self) == spec_step(*old(self), ev),
    {
        match ev {
            HelperEvent::Wrote => {
                self.phase = HelperPhase::AwaitBuild;
            },
            HelperEvent::BuilderFinished(ok) => {
                if !ok {
                    self.built = false;
                    self.phase = HelperPhase::AwaitRestore;
                } else {
                    self.built = true;
                    if self.retain > 0 {
                        self.phase = HelperPhase::AwaitPrune;
                    } else {
                        self.phase = HelperPhase::Done;
                    }
                }
            },
            HelperEvent::Restored => {
                self.restored = true;
                self.phase = HelperPhase::Done;
            },
            HelperEvent::PruneFinished(ok) => {
                self.prune_ok = ok;
                self.phase = HelperPhase::Done;
            },
        }
    }

    /// The outcome, once the run is done.
    pub fn outcome(&self) -> (r: Option<(ApplyOutcome, bool)>)
        ensures
            (match r {
                Some(oc) => self.phase == HelperPhase::Done && oc.0 == (ApplyOutcome {
                    success: self.built,
                    restored: self.restored,
                }) && oc.1 == spec_exit_ok(*self),
                None => self.phase != HelperPhase::Done,
            }),
    {
        match self.phase {
            HelperPhase::Done => Some(
                (
                    ApplyOutcome { success: self.built, restored: self.restored },
                    self.built && self.prune_ok,
                ),
            ),
            _ => None,
        }
    }
}

spec fn phase_rank(p: HelperPhase) -> int {
    match p {
        HelperPhase::AwaitWrite => 4,
        HelperPhase::AwaitBuild => 3,
        HelperPhase::AwaitRestore => 2,
        HelperPhase::AwaitPrune => 2,
        HelperPhase::Done => 0,
    }
}

/// Runs the helper's machine against an in-memory document, with the
/// builder's and the pruner's exits injected. Rollback invariant: after
/// any run whose builder failed, the document is byte-identical to what
/// it was before the apply began; after a successful build it is the new
/// document, whatever pruning did.
pub fn run_helper_on_disk(
    disk: &mut Vec<u8>,
    new_doc: &Vec<u8>,
    retain: u32,
    builder_ok: bool,
    prune_ok: bool,
) -> (r: (ApplyOutcome, bool))
    ensures
        !builder_ok ==> final(disk)@ == old(disk)@ && r.0 == (ApplyOutcome {
            success: false,
            restored: true,
        }) && !r.1,
        builder_ok ==> final(disk)@ == new_doc@ && r.0 == (ApplyOutcome {
            success: true,
            restored: false,
        }),
        r.1 == (builder_ok && (retain == 0 || prune_ok)),
{
    let ghost disk0 = disk@;
    let backup = vstd::slice::slice_to_vec(disk.as_slice());
    let mut m = HelperProtocol::start(retain);
    loop
        invariant
            disk0 == old(disk)@,
            backup@ == disk0,
            m.retain == retain,
            m.phase == HelperPhase::AwaitWrite ==> disk@ == disk0 && !m.built && !m.restored
                && m.prune_ok,
            m.phase == HelperPhase::AwaitBuild ==> disk@ == new_doc@ && !m.built && !m.restored
                && m.prune_ok,
            m.phase == HelperPhase::AwaitRestore ==> !builder_ok && !m.built && !m.restored
                && m.prune_ok,
            m.phase == HelperPhase::AwaitPrune ==> disk@ == new_doc@ && builder_ok && m.built
                && !m.restored && m.prune_ok && retain > 0,
            m.phase == HelperPhase::Done ==> {
                &&& m.built == builder_ok
                &&& m.restored == !builder_ok
                &&& (builder_ok ==> disk@ == new_doc@)
                &&& (!builder_ok ==> disk@ == disk0)
                &&& m.prune_ok == (!builder_ok || retain == 0 || prune_ok)
            },
        decreases phase_rank(m.phase),
    {
        let action = m.next_action();
        match action {
            HelperAction::WriteNewDocument => {
                *disk = vstd::slice::slice_to_vec(new_doc.as_slice());
                m.step(HelperEvent::Wrote);
            },
            HelperAction::RunBuilder => {
                m.step(HelperEvent::BuilderFinished(builder_ok));
            },
            HelperAction::RestoreBackup => {
                *disk = vstd::slice::slice_to_vec(backup.as_slice());
                m.step(HelperEvent::Restored);
            },
            HelperAction::PruneGenerations => {
                m.step(HelperEvent::PruneFinished(prune_ok));
            },
            HelperAction::Exit => {
                match m.outcome() {
                    Some(oc) => {
                        return oc;
                    },
                    None => {
                        proof {
                            assert(false);
                        }
                    },
                }
            },
        }
    }
}

/// The flake reference handed to the builder: the flake file, with the
/// configuration argument after a `#` when one is set.
pub open spec fn spec_flake_ref(flake: Seq<u8>, arg: Option<Seq<u8>>) -> Seq<u8> {
    match arg {
        Some(a) => flake + lit("#"@) + a,
        None => flake,
    }
}

fn flake_ref(flake: &Vec<u8>, arg: Option<&Vec<u8>>) -> (r: Vec<u8>)
    ensures
        r@ == spec_flake_ref(
            flake@,
            (match arg {
                Some(a) => Some(a@),
                None => None,
            }),
        ),
{
    match arg {
        Some(a) => {
            let mut r = vstd::slice::slice_to_vec(flake.as_slice());
            proof {
                reveal_strlit("#");
            }
            let hash = ascii("#");
            r.extend_from_slice(hash.as_slice());
            r.extend_from_slice(a.as_slice());
            proof {
                assert(r@ =~= flake@ + lit("#"@) + a@);
            }
            r
        },
        None => vstd::slice::slice_to_vec(flake.as_slice()),
    }
}

/// The helper's arguments for a configuration write: the target file,
/// the retention count, and the builder's own switch arguments.
pub open spec fn spec_helper_config_argv(
    configfile: Seq<u8>,
    generations: u32,
    flake: Seq<u8>,
    arg: Option<Seq<u8>>,
) -> Seq<Seq<u8>> {
    seq![
        lit("config"@),
        lit("--output"@),
        configfile,
        lit("--generations"@),
        dec_rep(generations as nat),
        lit("--"@),
        lit("switch"@),
        lit("--flake"@),
        spec_flake_ref(flake, arg),
        lit("--impure"@),
    ]
}

/// The helper's arguments for a flake update run: update the flake
/// first, then rebuild as for a configuration write.
pub open spec fn spec_helper_update_argv(
    generations: u32,
    flake: Seq<u8>,
    arg: Option<Seq<u8>>,
) -> Seq<Seq<u8>> {
    seq![
        lit("update"@),
        lit("--flake"@),
        flake,
        lit("--generations"@),
        dec_rep(generations as nat),
        lit("--"@),
        lit("switch"@),
        lit("--flake"@),
        spec_flake_ref(flake, arg),
        lit("--impure"@),
    ]
}

/// Builds the helper's argument list for writing a new document.
pub fn helper_config_argv(
    configfile: &Vec<u8>,
    generations: u32,
    flake: &Vec<u8>,
    flakearg: Option<&Vec<u8>>,
) -> (r: Vec<Vec<u8>>)
    ensures
        vecs_view(r@) == spec_helper_config_argv(
            configfile@,
            generations,
            flake@,
            (match flakearg {
                Some(a) => Some(a@),
                None => None,
            }),
        ),
{
    proof {
        reveal_strlit("config");
        reveal_strlit("--output");
        reveal_strlit("--generations");
        reveal_strlit("--");
        reveal_strlit("switch");
        reveal_strlit("--flake");
        reveal_strlit("--impure");
    }
    let mut r: Vec<Vec<u8>> = Vec::new();
    r.push(ascii("config"));
    r.push(ascii("--output"));
    r.push(vstd::slice::slice_to_vec(configfile.as_slice()));
    r.push(ascii("--generations"));
    r.push(crate::bytes::dec_bytes(generations as u64));
    r.push(ascii("--"));
    r.push(ascii("switch"));
    r.push(ascii("--flake"));
    r.push(flake_ref(flake, flakearg));
    r.push(ascii("--impure"));
    proof {
        assert(vecs_view(r@) =~= spec_helper_config_argv(
            configfile@,
            generations,
            flake@,
            (match flakearg {
                Some(a) => Some(a@),
                None => None,
            }),
        ));
    }
    r
}

/// Builds the helper's argument list for a flake update run.
pub fn helper_update_argv(generations: u32, flake: &Vec<u8>, flakearg: Option<&Vec<u8>>) -> (r:
    Vec<Vec<u8>>)
    ensures
        vecs_view(r@) == spec_helper_update_argv(
            generations,
            flake@,
            (match flakearg {
                Some(a) => Some(a@),
                None => None,
            }),
        ),
{
    proof {
        reveal_strlit("update");
        reveal_strlit("--flake");
        reveal_strlit("--generations");
        reveal_strlit("--");
        reveal_strlit("switch");
        reveal_strlit("--impure");
    }
    let mut r: Vec<Vec<u8>> = Vec::new();
    r.push(ascii("update"));
    r.push(ascii("--flake"));
    r.push(vstd::slice::slice_to_vec(flake.as_slice()));
    r.push(ascii("--generations"));
    r.push(crate::bytes::dec_bytes(generations as u64));
    r.push(ascii("--"));
    r.push(ascii("switch"));
    r.push(ascii("--flake"));
    r.push(flake_ref(flake, flakearg));
    r.push(ascii("--impure"));
    proof {
        assert(vecs_view(r@) =~= spec_helper_update_argv(
            generations,
            flake@,
            (match flakearg {
                Some(a) => Some(a@),
                None => None,
            }),
        ));
    }
    r
}

/// What one declarative mutation asks of the privileged path: nothing,
/// or an escalation with the new document and the helper's arguments.
#[derive(Debug)]
pub enum DeclarativeAction {
    NoChange,
    Escalate { new_doc: Vec<u8>, argv: Vec<Vec<u8>> },
}

/// The new document a declarative mutation writes: `None` when the
/// attribute is not a syntactic array (the edit fails), `Some(None)`
/// when the plan is empty (a no-op that never escalates), and
/// `Some(Some(d))` for a real edit.
pub open spec fn spec_new_document(
    domain: DomainKind,
    op: Operation,
    doc: Seq<u8>,
    req: Seq<Seq<u8>>,
    cur: Seq<Seq<u8>>,
) -> Option<Option<Seq<u8>>> {
    let path = spec_attr_path(domain);
    if op == Operation::Install {
        let adds = spec_plan_install(req, cur);
        if adds.len() == 0 {
            Some(None)
        } else {
            match doc_model(doc, path) {
                None => None,
                Some(m) => Some(
                    Some(
                        spec_add(
                            doc,
                            path,
                            spelled_list(bare_convention(entries_of(m.toks)), adds),
                        )->Some_0,
                    ),
                ),
            }
        }
    } else {
        let rems = spec_plan_remove(req, cur);
        if rems.len() == 0 {
            Some(None)
        } else {
            match doc_model(doc, path) {
                None => None,
                Some(m) => Some(Some(spec_remove(doc, path, rems)->Some_0)),
            }
        }
    }
}

/// Idempotence at the apply boundary: an Install whose packages are all
/// present plans an empty diff, and an empty plan never invokes the
/// privileged path — the mutation is a no-op that still succeeds.
pub proof fn lemma_apply_idempotent(
    domain: DomainKind,
    doc: Seq<u8>,
    req: Seq<Seq<u8>>,
    cur: Seq<Seq<u8>>,
)
    requires
        forall|k: int| 0 <= k < req.len() ==> crate::editor::matches_any(#[trigger] req[k], cur),
    ensures
        spec_new_document(domain, Operation::Install, doc, req, cur) == Some(
            Option::<Seq<u8>>::None,
        ),
{
    crate::plan::lemma_install_idempotent(req, cur);
}

/// Plans one declarative mutation end to end: plan the diff against the
/// current packages, edit the document in its own convention, and build
/// the helper's arguments. An empty plan never touches the privileged
/// path; a document whose attribute is not an array fails the mutation
/// with the document untouched, since the edit happens before any write.
pub fn plan_declarative_apply(
    domain: DomainKind,
    op: Operation,
    doc: &Vec<u8>,
    requested: &Vec<Vec<u8>>,
    current: &Vec<Vec<u8>>,
    configfile: &Vec<u8>,
    generations: u32,
    flake: &Vec<u8>,
    flakearg: Option<&Vec<u8>>,
) -> (r: Result<DeclarativeAction, SnowError>)
    requires
        domain != DomainKind::Profile,
        op == Operation::Install || op == Operation::Remove,
        forall|k: int| 0 <= k < requested@.len() ==> valid_ident((#[trigger] requested@[k])@),
    ensures
        (match r {
            Ok(a) => match a {
                DeclarativeAction::NoChange => spec_new_document(
                    domain,
                    op,
                    doc@,
                    vecs_view(requested@),
                    vecs_view(current@),
                ) == Some(Option::<Seq<u8>>::None),
                DeclarativeAction::Escalate { new_doc, argv } => spec_new_document(
                    domain,
                    op,
                    doc@,
                    vecs_view(requested@),
                    vecs_view(current@),
                ) == Some(Some(new_doc@)) && vecs_view(argv@) == spec_helper_config_argv(
                    configfile@,
                    generations,
                    flake@,
                    (match flakearg {
                        Some(a) => Some(a@),
                        None => None,
                    }),
                ),
            },
            Err(e) => spec_new_document(
                domain,
                op,
                doc@,
                vecs_view(requested@),
                vecs_view(current@),
            ) is None && e == SnowError::StructuralEdit,
        }),
{
    let path = crate::store::attr_path(domain);
    let p = crate::plan::plan(domain, op, requested, current);
    if p.additions.len() == 0 && p.removals.len() == 0 {
        return Ok(DeclarativeAction::NoChange);
    }
    let edited = if matches!(op, Operation::Install) {
        proof {
            crate::plan::lemma_plan_install_sound(vecs_view(requested@), vecs_view(current@));
            assert forall|k: int| 0 <= k < p.additions@.len() implies valid_ident(
                (#[trigger] p.additions@[k])@,
            ) by {
                let x = vecs_view(p.additions@)[k];
                assert(vecs_view(requested@).contains(x));
                let j = choose|j: int|
                    0 <= j < vecs_view(requested@).len() && vecs_view(requested@)[j] == x;
                assert(valid_ident(requested@[j]@));
            }
        }
        crate::editor::add_packages(doc, &path, &p.additions)
    } else {
        crate::editor::remove_from_array(doc, &path, &p.removals)
    };
    match edited {
        Ok(new_doc) => {
            let argv = helper_config_argv(configfile, generations, flake, flakearg);
            Ok(DeclarativeAction::Escalate { new_doc, argv })
        },
        Err(e) => Err(e),
    }
}

} // verus!
