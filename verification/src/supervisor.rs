//! The supervisor: the top-level state machine that owns the scanned
//! import set and the current layer.  It decides what to boot with, which
//! fork request to issue for an `exec`, when a rescan's delta forces a
//! recycle, and what each stop must do.  The process work those decisions
//! call for — spawning, writing to the loader's stdin, signalling,
//! joining reader threads — is carried out by the caller around this
//! state machine.

use vstd::prelude::*;

use crate::codec::{decode_message, spec_encode, Message, MessageV};
use crate::delta::{compute_delta, delta_spec};
use crate::imports::{effective_import_set, effective_modules, records_view, ImportRecord, ImportSet};
use crate::layer::{
    error_text, has_uuid, sv_register, sv_terminate, wf_layer, Layer, ProcessResultV, WorkerV,
};

verus! {

/// An operation was applied to a supervisor in the wrong lifecycle state,
/// or could not mint a fresh request key.  These surface immediately: they
/// are caller bugs, not runtime failures.
#[derive(Debug, Clone, Copy, PartialEq, Eq, Structural)]
pub enum LifecycleError {
    /// `boot` was called while a layer exists.
    AlreadyBooted,
    /// An operation that needs a layer was called before `boot`.
    NotBooted,
    /// The freshly minted UUID collides with an in-flight request.
    DuplicateRequest,
}

/// One step of the boot handshake, read from the loader's stdout.
pub enum HandshakeStep {
    /// The loader finished pre-importing: the layer may start its readers.
    Booted,
    /// The loader crashed before finishing; boot fails with this reason.
    Failed(String),
    /// Any other line: log it and keep reading.
    Continue,
}

/// The supervisor's state: where the project lives, what its package is
/// called, the import set of the last scan, and the current layer.
pub struct Supervisor {
    /// The root that is scanned for source files.
    pub project_path: String,
    /// The detected (or caller-supplied) package name; imports whose first
    /// dotted segment equals it are first-party and never pre-imported.
    pub package_name: String,
    /// The effective import set of the most recent scan.
    pub previous_imports: ImportSet,
    /// Whether a scan has happened; `reload` before the first scan is a
    /// no-op.
    pub scanned_once: bool,
    /// The worker tables of the current loader, or `None` when no loader
    /// process exists.
    pub layer: Option<Layer>,
}

impl Supervisor {
    /// The supervisor's invariant: its import set and its layer tables are
    /// well-formed.
    pub open spec fn wf(self) -> bool {
        &&& self.previous_imports.wf()
        &&& match self.layer {
            Some(l) => wf_layer(l@),
            None => true,
        }
    }

    /// A supervisor for one project, not yet booted.
    pub fn new(package_name: String, project_path: String) -> (s: Supervisor)
        ensures
            s.wf(),
            s.package_name@ == package_name@,
            s.project_path@ == project_path@,
            !s.scanned_once,
            s.layer is None,
            s.previous_imports@ == Set::<Seq<char>>::empty(),
    {
        Supervisor {
            project_path,
            package_name,
            previous_imports: ImportSet::new(),
            scanned_once: false,
            layer: None,
        }
    }

    /// Boots from one scan's records: records the effective import set,
    /// marks the scan done, and installs an empty layer table for the
    /// loader the caller is about to spawn.  Booting over a live layer is
    /// a lifecycle error and changes nothing.
    pub fn boot_from_records(&mut self, records: &Vec<ImportRecord>) -> (r: Result<
        (),
        LifecycleError,
    >)
        requires
            old(self).wf(),
        ensures
            final(self).wf(),
            match r {
                Ok(()) => {
                    &&& old(self).layer is None
                    &&& final(self).previous_imports@ == effective_modules(
                        records_view(records@),
                        old(self).package_name@,
                    )
                    &&& final(self).scanned_once
                    &&& match final(self).layer {
                        Some(l) => l@ == Seq::<WorkerV>::empty(),
                        None => false,
                    }
                    &&& final(self).package_name == old(self).package_name
                    &&& final(self).project_path == old(self).project_path
                },
                Err(e) => e == LifecycleError::AlreadyBooted && *final(self) == *old(self)
                    && old(self).layer is Some,
            },
    {
        if self.layer.is_some() {
            return Err(LifecycleError::AlreadyBooted);
        }
        self.previous_imports = effective_import_set(records, &self.package_name);
        self.scanned_once = true;
        self.layer = Some(Layer::new());
        Ok(())
    }

    /// One step of the boot handshake.  The step is `Booted` exactly on
    /// the `ImportComplete` line; an `ImportError` line always fails the
    /// boot, carrying the error text (and the traceback after a blank line
    /// when one was reported); every other line is read past.
    pub fn handshake_step(line: &str) -> (r: HandshakeStep)
        ensures
            r is Booted <==> line@ == spec_encode(MessageV::ImportComplete),
            (exists|er: Seq<char>, tb: Option<Seq<char>>|
                line@ == spec_encode(MessageV::ImportError { error: er, traceback: tb }))
                <==> r is Failed,
            r matches HandshakeStep::Failed(e) ==> exists|er: Seq<char>, tb: Option<Seq<char>>|
                line@ == spec_encode(MessageV::ImportError { error: er, traceback: tb }) && e@
                    == error_text(er, tb),
            r is Continue ==> line@ != spec_encode(MessageV::ImportComplete) && (forall|
                er: Seq<char>,
                tb: Option<Seq<char>>,
            |
                line@ != spec_encode(MessageV::ImportError { error: er, traceback: tb })),
    {
        match decode_message(line) {
            Some(Message::ImportComplete) => {
                proof {
                    assert forall|er: Seq<char>, tb: Option<Seq<char>>|
                        line@ != spec_encode(
                            MessageV::ImportError { error: er, traceback: tb },
                        ) by {
                        if line@ == spec_encode(MessageV::ImportError { error: er, traceback: tb }) {
                            crate::codec::lemma_encode_injective(
                                MessageV::ImportComplete,
                                MessageV::ImportError { error: er, traceback: tb },
                            );
                        }
                    }
                }
                HandshakeStep::Booted
            }
            Some(Message::ImportError { error, traceback }) => {
                let ghost er = error@;
                let ghost tb = crate::codec::opt_view(traceback);
                proof {
                    if line@ == spec_encode(MessageV::ImportComplete) {
                        crate::codec::lemma_encode_injective(
                            MessageV::ImportError { error: er, traceback: tb },
                            MessageV::ImportComplete,
                        );
                    }
                }
                let mut msg = error;
                match traceback {
                    None => {}
                    Some(t) => {
                        msg.append("\n\n");
                        msg.append(t.as_str());
                    }
                }
                assert(msg@ == error_text(er, tb));
                HandshakeStep::Failed(msg)
            }
            Some(m) => {
                proof {
                    match &m {
                        Message::ImportComplete => {
                            assert(false);
                        }
                        Message::ImportError { .. } => {
                            assert(false);
                        }
                        _ => {}
                    }
                    if line@ == spec_encode(MessageV::ImportComplete) {
                        crate::codec::lemma_encode_injective(m@, MessageV::ImportComplete);
                    }
                    assert forall|er: Seq<char>, tb: Option<Seq<char>>|
                        line@ != spec_encode(
                            MessageV::ImportError { error: er, traceback: tb },
                        ) by {
                        if line@ == spec_encode(MessageV::ImportError { error: er, traceback: tb }) {
                            crate::codec::lemma_encode_injective(
                                m@,
                                MessageV::ImportError { error: er, traceback: tb },
                            );
                        }
                    }
                }
                HandshakeStep::Continue
            }
            None => HandshakeStep::Continue,
        }
    }

    /// Prepares one isolated execution: mints the worker's UUID, installs
    /// its fork and completion resolvers in the layer, and returns the
    /// UUID with the `ForkRequest` to send.  The resolvers are installed
    /// before the request is handed back, so a response can never arrive
    /// before its resolver exists.
    pub fn exec_worker(&mut self, request_name: String, code: String) -> (r: Result<
        (String, Message),
        LifecycleError,
    >)
        requires
            old(self).wf(),
        ensures
            final(self).wf(),
            final(self).package_name == old(self).package_name,
            final(self).project_path == old(self).project_path,
            final(self).previous_imports == old(self).previous_imports,
            final(self).scanned_once == old(self).scanned_once,
            match r {
                Ok(p) => {
                    &&& match (old(self).layer, final(self).layer) {
                        (Some(l0), Some(l1)) => !has_uuid(l0@, p.0@) && l1@ == sv_register(
                            l0@,
                            p.0@,
                            request_name@,
                        ),
                        _ => false,
                    }
                    &&& p.1@ == (MessageV::ForkRequest {
                        request_id: p.0@,
                        request_name: request_name@,
                        code: code@,
                    })
                },
                Err(LifecycleError::NotBooted) => *final(self) == *old(self) && old(self).layer
                    is None,
                Err(_) => match (old(self).layer, final(self).layer) {
                    (Some(l0), Some(l1)) => l1@ == l0@,
                    _ => false,
                },
            },
    {
        let uuid = crate::ids::new_worker_uuid();
        let ghost uv = uuid@;
        let ghost rn = request_name@;
        let ghost cd = code@;
        match &mut self.layer {
            None => Err(LifecycleError::NotBooted),
            Some(l) => {
                let ok = l.register_worker(uuid.clone(), request_name.clone());
                proof {
                    assert(l@ == sv_register(old(self).layer->0@, uv, rn));
                }
                if ok {
                    let msg = Message::ForkRequest {
                        request_id: uuid.clone(),
                        request_name,
                        code,
                    };
                    proof {
                        assert(msg@ =~~= (MessageV::ForkRequest {
                            request_id: uv,
                            request_name: rn,
                            code: cd,
                        }));
                    }
                    Ok((uuid, msg))
                } else {
                    Err(LifecycleError::DuplicateRequest)
                }
            }
        }
    }

    /// Stops a worker: it leaves the live tables, a pending completion is
    /// resolved with `Error("stopped")`, and the worker's recorded pid is
    /// returned for the caller to signal (`Some(None)` when the fork
    /// response never arrived; `Ok(None)` when no live worker carries the
    /// UUID).
    pub fn stop_worker(&mut self, uuid: &String) -> (r: Result<
        Option<Option<i32>>,
        LifecycleError,
    >)
        requires
            old(self).wf(),
        ensures
            final(self).wf(),
            match r {
                Ok(pid) => match (old(self).layer, final(self).layer) {
                    (Some(l0), Some(l1)) => l1@ == sv_terminate(
                        l0@,
                        uuid@,
                        ProcessResultV::Error("stopped"@),
                    ),
                    _ => false,
                },
                Err(e) => e == LifecycleError::NotBooted && *final(self) == *old(self) && old(
                    self,
                ).layer is None,
            },
    {
        match &mut self.layer {
            None => Err(LifecycleError::NotBooted),
            Some(l) => Ok(l.stop_worker(uuid)),
        }
    }

    /// The cooperative half of a stop: the `ExitRequest` to write to the
    /// loader, best effort.
    pub fn exit_request(uuid: &String) -> (msg: Message)
        ensures
            msg@ == (MessageV::ExitRequest { request_id: uuid@ }),
    {
        Message::ExitRequest { request_id: uuid.clone() }
    }

    /// Decides a reload: rescan records in hand, return the new effective
    /// import set if it drifted from the previous scan's.  Before the
    /// first scan, or when the delta is empty on both sides, there is
    /// nothing to do.
    pub fn plan_reload(&self, records: &Vec<ImportRecord>) -> (r: Option<ImportSet>)
        requires
            self.wf(),
        ensures
            match r {
                None => !self.scanned_once || delta_spec(
                    self.previous_imports@,
                    effective_modules(records_view(records@), self.package_name@),
                ) == (Set::<Seq<char>>::empty(), Set::<Seq<char>>::empty()),
                Some(s) => {
                    &&& self.scanned_once
                    &&& s.wf()
                    &&& s@ == effective_modules(records_view(records@), self.package_name@)
                    &&& delta_spec(self.previous_imports@, s@) != (
                        Set::<Seq<char>>::empty(),
                        Set::<Seq<char>>::empty(),
                    )
                },
            },
    {
        if !self.scanned_once {
            return None;
        }
        let new_set = effective_import_set(records, &self.package_name);
        let d = compute_delta(&self.previous_imports, &new_set);
        let added_empty = d.added.len() == 0;
        let removed_empty = d.removed.len() == 0;
        proof {
            if d.added.modules@.len() == 0 {
                assert(d.added@ =~= Set::<Seq<char>>::empty());
            } else {
                assert(d.added@.contains(d.added.modules@[0]@));
            }
            if d.removed.modules@.len() == 0 {
                assert(d.removed@ =~= Set::<Seq<char>>::empty());
            } else {
                assert(d.removed@.contains(d.removed.modules@[0]@));
            }
        }
        if added_empty && removed_empty {
            None
        } else {
            Some(new_set)
        }
    }

    /// Commits a reload after the caller has stopped the workers and torn
    /// the old loader down: records the new import set and installs an
    /// empty layer table for the loader about to be spawned.  From the
    /// caller's viewpoint the reload is atomic: the old layer served until
    /// teardown, and the supervisor now serves from the new one.
    pub fn commit_reload(&mut self, new_set: ImportSet)
        requires
            old(self).wf(),
            new_set.wf(),
        ensures
            final(self).wf(),
            final(self).previous_imports == new_set,
            final(self).scanned_once,
            match final(self).layer {
                Some(l) => l@ == Seq::<WorkerV>::empty(),
                None => false,
            },
            final(self).package_name == old(self).package_name,
            final(self).project_path == old(self).project_path,
    {
        self.previous_imports = new_set;
        self.scanned_once = true;
        self.layer = Some(Layer::new());
    }

    /// Drops the layer after the caller killed the loader process.  The
    /// caller is expected to have torn the tables down first, resolving
    /// every outstanding resolver.
    pub fn clear_layer(&mut self)
        requires
            old(self).wf(),
        ensures
            final(self).wf(),
            final(self).layer is None,
            final(self).previous_imports == old(self).previous_imports,
            final(self).scanned_once == old(self).scanned_once,
            final(self).package_name == old(self).package_name,
            final(self).project_path == old(self).project_path,
    {
        self.layer = None;
    }
}

} // verus!
