//! The compositor-facing state machine: the registry of known outputs,
//! the gamma-control manager singleton, and the pure transitions that
//! compositor events and client commands drive.
//!
//! The exec methods only mutate the registry and say what must happen
//! on the wire; performing the protocol requests (binding an output,
//! creating or destroying a gamma-control object, submitting a ramp)
//! is the caller's business.
use vstd::prelude::*;
use crate::ipc::{CommandModel, IpcCommand, IpcResponse, ResponseModel};

verus! {

/// The temperature every output reports before a command has been
/// applied to it: a warm-white baseline.
pub const DEFAULT_TEMPERATURE: u32 = 6600;

/// The gamma exponent (in thousandths) every output reports before a
/// command has been applied to it: exponent 1.
pub const DEFAULT_GAMMA_MILLIS: u32 = 1000;

/// One known output: its compositor-assigned identity, its
/// human-readable name (empty until reported), whether a gamma-control
/// session is held for it, its negotiated ramp size (0 until reported)
/// and the last applied temperature and gamma exponent.
pub struct OutputInfo {
    pub id: u32,
    pub output_name: String,
    pub has_gamma_control: bool,
    pub ramp_size: u32,
    pub current_temperature: u32,
    pub current_gamma_millis: u32,
}

/// The model of one output: the name as a character sequence.
pub struct OutputModel {
    pub id: u32,
    pub name: Seq<char>,
    pub has_gamma_control: bool,
    pub ramp_size: u32,
    pub temperature: u32,
    pub gamma_millis: u32,
}

impl View for OutputInfo {
    type V = OutputModel;

    open spec fn view(&self) -> OutputModel {
        OutputModel {
            id: self.id,
            name: self.output_name@,
            has_gamma_control: self.has_gamma_control,
            ramp_size: self.ramp_size,
            temperature: self.current_temperature,
            gamma_millis: self.current_gamma_millis,
        }
    }
}

/// The model of the daemon's compositor-facing state.
pub struct StateModel {
    pub outputs: Seq<OutputModel>,
    pub has_manager: bool,
}

/// The registry of known outputs plus the manager singleton's
/// availability.
pub struct AppData {
    pub outputs: Vec<OutputInfo>,
    pub has_manager: bool,
}

impl View for AppData {
    type V = StateModel;

    open spec fn view(&self) -> StateModel {
        StateModel {
            outputs: Seq::new(self.outputs@.len(), |i: int| self.outputs@[i]@),
            has_manager: self.has_manager,
        }
    }
}

/// One ramp submission the caller owes the compositor after a
/// temperature command: which output, and how many entries per channel
/// its ramp table takes.
#[derive(Debug, PartialEq, Clone, Copy)]
pub struct RampJob {
    pub id: u32,
    pub ramp_size: u32,
}

impl OutputModel {
    /// An output takes a ramp only once both its gamma-control session
    /// and its ramp size have been negotiated.
    pub open spec fn usable(self) -> bool {
        self.has_gamma_control && self.ramp_size > 0
    }
}

/// The filter semantics of `apply` and `query`: an empty filter names
/// every output, a non-empty one exactly the outputs whose name it
/// holds.
pub open spec fn name_matched(filter: Seq<Seq<char>>, name: Seq<char>) -> bool {
    filter.len() == 0 || filter.contains(name)
}

impl StateModel {
    /// Identities are unique among currently known outputs.
    pub open spec fn wf(self) -> bool {
        forall|i: int, j: int|
            0 <= i < self.outputs.len() && 0 <= j < self.outputs.len() && i != j
                ==> (#[trigger] self.outputs[i]).id != (#[trigger] self.outputs[j]).id
    }

    pub open spec fn knows_id(self, id: u32) -> bool {
        exists|i: int| 0 <= i < self.outputs.len() && (#[trigger] self.outputs[i]).id == id
    }
}

/// The state before any compositor event: no outputs, no manager.
pub open spec fn spec_new() -> StateModel {
    StateModel { outputs: Seq::empty(), has_manager: false }
}

/// The session a fresh output starts with: unnamed, no ramp size, the
/// warm-white baseline; its gamma-control session is negotiated at once
/// exactly when the manager is already known.
pub open spec fn fresh_output(id: u32, has_manager: bool) -> OutputModel {
    OutputModel {
        id,
        name: Seq::empty(),
        has_gamma_control: has_manager,
        ramp_size: 0,
        temperature: DEFAULT_TEMPERATURE,
        gamma_millis: DEFAULT_GAMMA_MILLIS,
    }
}

/// A new output advertised by the registry.
pub open spec fn spec_add_output(s: StateModel, id: u32) -> StateModel {
    StateModel { outputs: s.outputs.push(fresh_output(id, s.has_manager)), ..s }
}

/// The gamma-control manager singleton advertised by the registry:
/// every output lacking a session gets one.
pub open spec fn spec_set_manager(s: StateModel) -> StateModel {
    StateModel {
        has_manager: true,
        outputs: Seq::new(
            s.outputs.len(),
            |i: int| OutputModel { has_gamma_control: true, ..s.outputs[i] },
        ),
    }
}

/// Negotiation for one output: its session is created exactly when the
/// manager is known, the output is known and no session is held yet.
pub open spec fn spec_assign_one(s: StateModel, id: u32) -> StateModel {
    if !s.has_manager {
        s
    } else {
        StateModel {
            outputs: Seq::new(
                s.outputs.len(),
                |i: int|
                    if s.outputs[i].id == id {
                        OutputModel { has_gamma_control: true, ..s.outputs[i] }
                    } else {
                        s.outputs[i]
                    },
            ),
            ..s
        }
    }
}

/// Negotiation for every output lacking a session, provided the
/// manager is known.
pub open spec fn spec_assign_all(s: StateModel) -> StateModel {
    if !s.has_manager {
        s
    } else {
        StateModel {
            outputs: Seq::new(
                s.outputs.len(),
                |i: int| OutputModel { has_gamma_control: true, ..s.outputs[i] },
            ),
            ..s
        }
    }
}

proof fn lemma_ids_lacking_control_step(outs: Seq<OutputModel>, i: int)
    requires
        0 <= i < outs.len(),
    ensures
        ids_lacking_control(outs.take(i + 1)) == if !outs[i].has_gamma_control {
            ids_lacking_control(outs.take(i)).push(outs[i].id)
        } else {
            ids_lacking_control(outs.take(i))
        },
{
    assert(outs.take(i + 1).drop_last() =~= outs.take(i));
    assert(outs.take(i + 1).last() == outs[i]);
}

/// The identities of the outputs that hold no gamma-control session
/// yet, in registry order.
pub open spec fn ids_lacking_control(outs: Seq<OutputModel>) -> Seq<u32>
    decreases outs.len(),
{
    if outs.len() == 0 {
        Seq::empty()
    } else {
        let rest = ids_lacking_control(outs.drop_last());
        if !outs.last().has_gamma_control {
            rest.push(outs.last().id)
        } else {
            rest
        }
    }
}

/// An output's name reported by the compositor.
pub open spec fn spec_set_name(s: StateModel, id: u32, name: Seq<char>) -> StateModel {
    StateModel {
        outputs: Seq::new(
            s.outputs.len(),
            |i: int|
                if s.outputs[i].id == id {
                    OutputModel { name, ..s.outputs[i] }
                } else {
                    s.outputs[i]
                },
        ),
        ..s
    }
}

/// An output's ramp size reported through its gamma-control session.
pub open spec fn spec_set_ramp_size(s: StateModel, id: u32, size: u32) -> StateModel {
    StateModel {
        outputs: Seq::new(
            s.outputs.len(),
            |i: int|
                if s.outputs[i].id == id {
                    OutputModel { ramp_size: size, ..s.outputs[i] }
                } else {
                    s.outputs[i]
                },
        ),
        ..s
    }
}

/// A gamma-control session reported invalid by the compositor: the
/// session's handle is dropped; the output itself survives.
pub open spec fn spec_control_failed(s: StateModel, id: u32) -> StateModel {
    StateModel {
        outputs: Seq::new(
            s.outputs.len(),
            |i: int|
                if s.outputs[i].id == id {
                    OutputModel { has_gamma_control: false, ..s.outputs[i] }
                } else {
                    s.outputs[i]
                },
        ),
        ..s
    }
}

/// The registry's state after a temperature command: every matched,
/// usable output carries the new temperature and gamma exponent; every
/// other output is untouched.
pub open spec fn spec_apply_state(
    s: StateModel,
    filter: Seq<Seq<char>>,
    kelvin: u32,
    gamma_millis: u32,
) -> StateModel {
    StateModel {
        outputs: Seq::new(
            s.outputs.len(),
            |i: int|
                if name_matched(filter, s.outputs[i].name) && s.outputs[i].usable() {
                    OutputModel { temperature: kelvin, gamma_millis, ..s.outputs[i] }
                } else {
                    s.outputs[i]
                },
        ),
        ..s
    }
}

/// The ramp submissions a temperature command owes: one per matched,
/// usable output, in registry order.
pub open spec fn spec_jobs(outs: Seq<OutputModel>, filter: Seq<Seq<char>>) -> Seq<RampJob>
    decreases outs.len(),
{
    if outs.len() == 0 {
        Seq::empty()
    } else {
        let rest = spec_jobs(outs.drop_last(), filter);
        let o = outs.last();
        if name_matched(filter, o.name) && o.usable() {
            rest.push(RampJob { id: o.id, ramp_size: o.ramp_size })
        } else {
            rest
        }
    }
}

/// What a temperature query reports: name, temperature and gamma
/// exponent of every matched output (negotiated or not), in registry
/// order.
pub open spec fn spec_query(outs: Seq<OutputModel>, filter: Seq<Seq<char>>) -> Seq<
    (Seq<char>, u32, u32),
>
    decreases outs.len(),
{
    if outs.len() == 0 {
        Seq::empty()
    } else {
        let rest = spec_query(outs.drop_last(), filter);
        let o = outs.last();
        if name_matched(filter, o.name) {
            rest.push((o.name, o.temperature, o.gamma_millis))
        } else {
            rest
        }
    }
}

/// What executing one command amounts to: the state afterwards, the
/// response owed to the client, whether the daemon must shut down, and
/// the ramp submissions owed to the compositor.
pub open spec fn spec_handle_command(s: StateModel, c: CommandModel) -> (
    StateModel,
    ResponseModel,
    bool,
    Seq<RampJob>,
) {
    match c {
        CommandModel::SetTemperature { kelvin, gamma_millis, outputs } => (
            spec_apply_state(s, outputs, kelvin, gamma_millis),
            ResponseModel::Success,
            false,
            spec_jobs(s.outputs, outputs),
        ),
        CommandModel::GetTemperature { outputs } => (
            s,
            ResponseModel::Temperature { temperatures: spec_query(s.outputs, outputs) },
            false,
            Seq::empty(),
        ),
        CommandModel::Kill => (s, ResponseModel::Success, true, Seq::empty()),
    }
}

proof fn lemma_jobs_step(outs: Seq<OutputModel>, filter: Seq<Seq<char>>, i: int)
    requires
        0 <= i < outs.len(),
    ensures
        spec_jobs(outs.take(i + 1), filter) == if name_matched(filter, outs[i].name)
            && outs[i].usable() {
            spec_jobs(outs.take(i), filter).push(RampJob { id: outs[i].id, ramp_size: outs[i].ramp_size })
        } else {
            spec_jobs(outs.take(i), filter)
        },
{
    assert(outs.take(i + 1).drop_last() =~= outs.take(i));
    assert(outs.take(i + 1).last() == outs[i]);
}

proof fn lemma_query_step(outs: Seq<OutputModel>, filter: Seq<Seq<char>>, i: int)
    requires
        0 <= i < outs.len(),
    ensures
        spec_query(outs.take(i + 1), filter) == if name_matched(filter, outs[i].name) {
            spec_query(outs.take(i), filter).push((outs[i].name, outs[i].temperature, outs[i].gamma_millis))
        } else {
            spec_query(outs.take(i), filter)
        },
{
    assert(outs.take(i + 1).drop_last() =~= outs.take(i));
    assert(outs.take(i + 1).last() == outs[i]);
}

/// Idempotence of temperature commands: applying the same temperature,
/// gamma exponent and filter twice in succession leaves every output
/// exactly as applying it once does.
pub proof fn lemma_apply_idempotent(
    s: StateModel,
    filter: Seq<Seq<char>>,
    kelvin: u32,
    gamma_millis: u32,
)
    ensures
        spec_apply_state(spec_apply_state(s, filter, kelvin, gamma_millis), filter, kelvin, gamma_millis)
            == spec_apply_state(s, filter, kelvin, gamma_millis),
{
    let once = spec_apply_state(s, filter, kelvin, gamma_millis);
    let twice = spec_apply_state(once, filter, kelvin, gamma_millis);
    assert(twice.outputs =~= once.outputs);
}

/// Session negotiation is order-independent: whether an output arrives
/// before or after the gamma-control manager, the output ends up with
/// a negotiated gamma-control session either way.
pub proof fn lemma_negotiation_order_independent(s: StateModel, id: u32)
    ensures
        ({
            let a = spec_set_manager(spec_add_output(s, id));
            let n = a.outputs.len();
            n == s.outputs.len() + 1 && a.outputs[n - 1].id == id && a.outputs[
                n - 1
            ].has_gamma_control
        }),
        ({
            let b = spec_add_output(spec_set_manager(s), id);
            let n = b.outputs.len();
            n == s.outputs.len() + 1 && b.outputs[n - 1].id == id && b.outputs[
                n - 1
            ].has_gamma_control
        }),
{
}

/// The filter semantics of a temperature command: an empty filter
/// reaches every usable output; a non-empty filter reaches exactly the
/// usable outputs it names; outputs it does not name are untouched,
/// and a filter naming no known output changes nothing.
pub proof fn lemma_apply_filter_semantics(
    s: StateModel,
    filter: Seq<Seq<char>>,
    kelvin: u32,
    gamma_millis: u32,
)
    ensures
        ({
            let t = spec_apply_state(s, filter, kelvin, gamma_millis);
            &&& t.outputs.len() == s.outputs.len()
            &&& forall|i: int|
                0 <= i < s.outputs.len() && (filter.len() == 0 || filter.contains(
                    (#[trigger] s.outputs[i]).name,
                )) && s.outputs[i].usable() ==> t.outputs[i] == OutputModel {
                    temperature: kelvin,
                    gamma_millis,
                    ..s.outputs[i]
                }
            &&& forall|i: int|
                0 <= i < s.outputs.len() && filter.len() > 0 && !filter.contains(
                    (#[trigger] s.outputs[i]).name,
                ) ==> t.outputs[i] == s.outputs[i]
            &&& forall|i: int|
                0 <= i < s.outputs.len() && !(#[trigger] s.outputs[i]).usable() ==> t.outputs[i]
                    == s.outputs[i]
        }),
        (filter.len() > 0 && forall|i: int|
            0 <= i < s.outputs.len() ==> !filter.contains((#[trigger] s.outputs[i]).name))
            ==> spec_apply_state(s, filter, kelvin, gamma_millis) == s,
{
    let t = spec_apply_state(s, filter, kelvin, gamma_millis);
    if filter.len() > 0 && forall|i: int|
        0 <= i < s.outputs.len() ==> !filter.contains((#[trigger] s.outputs[i]).name) {
        assert(t.outputs =~= s.outputs);
    }
}

/// The filter semantics of a temperature query: an empty filter
/// reports every known output, negotiated or not, in registry order; a
/// filter naming no known output reports nothing.
pub proof fn lemma_query_filter_semantics(outs: Seq<OutputModel>, filter: Seq<Seq<char>>)
    ensures
        filter.len() == 0 ==> ({
            let q = spec_query(outs, filter);
            q.len() == outs.len() && forall|i: int|
                0 <= i < outs.len() ==> q[i] == ((#[trigger] outs[i]).name, outs[i].temperature, outs[i].gamma_millis)
        }),
        (forall|i: int| 0 <= i < outs.len() ==> !filter.contains((#[trigger] outs[i]).name))
            && filter.len() > 0 ==> spec_query(outs, filter) == Seq::<(Seq<char>, u32, u32)>::empty(),
    decreases outs.len(),
{
    if outs.len() > 0 {
        lemma_query_filter_semantics(outs.drop_last(), filter);
        assert(forall|i: int|
            0 <= i < outs.len() - 1 ==> #[trigger] outs.drop_last()[i] == outs[i]);
        if filter.len() == 0 {
            let q = spec_query(outs, filter);
            let qr = spec_query(outs.drop_last(), filter);
            assert(q == qr.push((outs.last().name, outs.last().temperature, outs.last().gamma_millis)));
            assert forall|i: int| 0 <= i < outs.len() implies q[i] == (
                (#[trigger] outs[i]).name,
                outs[i].temperature,
                outs[i].gamma_millis,
            ) by {
                if i < outs.len() - 1 {
                    assert(q[i] == qr[i]);
                    assert(outs.drop_last()[i] == outs[i]);
                } else {
                    assert(outs.last() == outs[i]);
                }
            }
        }
    }
}

/// The outcome of one command against the registry.
pub struct CommandOutcome {
    pub response: IpcResponse,
    pub shutdown: bool,
    pub jobs: Vec<RampJob>,
}

/// Does the (possibly empty) filter name this output?
fn name_in_filter(filter: &Vec<String>, name: &String) -> (r: bool)
    ensures
        r == name_matched(filter.deep_view(), name@),
{
    if filter.len() == 0 {
        return true;
    }
    let mut i: usize = 0;
    while i < filter.len()
        invariant
            0 <= i <= filter@.len(),
            forall|k: int| 0 <= k < i ==> filter.deep_view()[k] != name@,
        decreases filter@.len() - i,
    {
        if filter[i].eq(name) {
            assert(filter.deep_view()[i as int] == name@);
            return true;
        }
        i = i + 1;
    }
    assert(!filter.deep_view().contains(name@));
    false
}

impl AppData {
    /// The daemon's initial state.
    pub fn new() -> (r: Self)
        ensures
            r@ == spec_new(),
            r@.wf(),
    {
        let r = Self { outputs: Vec::new(), has_manager: false };
        proof {
            assert(r@.outputs =~= spec_new().outputs);
        }
        r
    }

    /// A new output advertised by the registry: record it, and
    /// negotiate its gamma-control session at once when the manager is
    /// already known. Returns whether the caller owes the compositor
    /// that negotiation.
    pub fn handle_global_output(&mut self, id: u32) -> (negotiate: bool)
        requires
            old(self)@.wf(),
            !old(self)@.knows_id(id),
        ensures
            final(self)@ == spec_add_output(old(self)@, id),
            final(self)@.wf(),
            negotiate == old(self).has_manager,
    {
        let has_manager = self.has_manager;
        self.outputs.push(
            OutputInfo {
                id,
                output_name: String::new(),
                has_gamma_control: has_manager,
                ramp_size: 0,
                current_temperature: DEFAULT_TEMPERATURE,
                current_gamma_millis: DEFAULT_GAMMA_MILLIS,
            },
        );
        proof {
            assert(self@.outputs =~= spec_add_output(old(self)@, id).outputs);
        }
        has_manager
    }

    /// Negotiate a gamma-control session for one output, provided the
    /// manager is known, the output is known and no session is held
    /// yet; a no-op otherwise. Returns whether the caller owes the
    /// compositor the negotiation.
    #[verifier::loop_isolation(false)]
    pub fn assign_gamma_control_one(&mut self, id: u32) -> (negotiate: bool)
        requires
            old(self)@.wf(),
        ensures
            final(self)@ == spec_assign_one(old(self)@, id),
            final(self)@.wf(),
            negotiate == (old(self)@.has_manager && exists|i: int|
                0 <= i < old(self)@.outputs.len() && (#[trigger] old(self)@.outputs[i]).id == id
                    && !old(self)@.outputs[i].has_gamma_control),
    {
        if !self.has_manager {
            proof {
                assert(self@.outputs =~= spec_assign_one(old(self)@, id).outputs);
            }
            return false;
        }
        let ghost spec_outs = spec_assign_one(old(self)@, id).outputs;
        let mut i: usize = 0;
        while i < self.outputs.len()
            invariant
                self@.has_manager,
                old(self)@.has_manager,
                old(self)@.wf(),
                self@ == old(self)@,
                0 <= i <= self.outputs@.len(),
                forall|k: int| 0 <= k < i ==> (#[trigger] self@.outputs[k]).id != id,
            decreases self.outputs@.len() - i,
        {
            if self.outputs[i].id == id {
                assert(self@.outputs[i as int].id == id);
                if self.outputs[i].has_gamma_control {
                    proof {
                        assert forall|k: int| 0 <= k < self@.outputs.len() implies self@.outputs[k]
                            == spec_outs[k] by {
                            if k != i as int && old(self)@.outputs[k].id == id {
                                assert(old(self)@.outputs[i as int].id == id);
                            }
                        }
                        assert(self@.outputs =~= spec_outs);
                    }
                    return false;
                }
                self.outputs[i].has_gamma_control = true;
                proof {
                    assert forall|k: int| 0 <= k < self@.outputs.len() implies self@.outputs[k]
                        == spec_outs[k] by {
                        if k != i as int && old(self)@.outputs[k].id == id {
                            assert(old(self)@.outputs[i as int].id == id);
                        }
                    }
                    assert(self@.outputs =~= spec_outs);
                }
                return true;
            }
            i = i + 1;
        }
        proof {
            assert forall|k: int| 0 <= k < self@.outputs.len() implies self@.outputs[k]
                == spec_outs[k] by {
                assert(self@.outputs[k].id != id);
            }
            assert(self@.outputs =~= spec_outs);
        }
        false
    }

    /// Negotiate gamma-control sessions for every output lacking one,
    /// provided the manager is known; a no-op otherwise. Returns the
    /// identities the caller owes the compositor a negotiation for, in
    /// registry order.
    #[verifier::loop_isolation(false)]
    pub fn assign_gamma_control_all(&mut self) -> (negotiate: Vec<u32>)
        requires
            old(self)@.wf(),
        ensures
            final(self)@ == spec_assign_all(old(self)@),
            final(self)@.wf(),
            negotiate@ == if old(self)@.has_manager {
                ids_lacking_control(old(self)@.outputs)
            } else {
                Seq::<u32>::empty()
            },
    {
        let mut negotiate: Vec<u32> = Vec::new();
        if !self.has_manager {
            proof {
                assert(self@.outputs =~= spec_assign_all(old(self)@).outputs);
            }
            return negotiate;
        }
        let ghost spec_outs = spec_assign_all(old(self)@).outputs;
        let mut i: usize = 0;
        while i < self.outputs.len()
            invariant
                self@.has_manager,
                old(self)@.has_manager,
                old(self)@.wf(),
                self@.outputs.len() == old(self)@.outputs.len(),
                0 <= i <= self.outputs@.len(),
                forall|k: int| 0 <= k < i ==> self@.outputs[k] == #[trigger] spec_outs[k],
                forall|k: int|
                    i <= k < self@.outputs.len() ==> self@.outputs[k] == #[trigger] old(
                        self,
                    )@.outputs[k],
                negotiate@ == ids_lacking_control(old(self)@.outputs.take(i as int)),
            decreases self.outputs@.len() - i,
        {
            proof {
                lemma_ids_lacking_control_step(old(self)@.outputs, i as int);
            }
            if !self.outputs[i].has_gamma_control {
                let oid = self.outputs[i].id;
                assert(oid == old(self)@.outputs[i as int].id);
                negotiate.push(oid);
                self.outputs[i].has_gamma_control = true;
            }
            i = i + 1;
        }
        proof {
            assert(old(self)@.outputs.take(old(self)@.outputs.len() as int) =~= old(
                self,
            )@.outputs);
            assert(self@.outputs =~= spec_outs);
        }
        negotiate
    }

    /// The gamma-control manager singleton advertised by the registry:
    /// record it and negotiate sessions for every output lacking one.
    /// Returns the identities the caller owes a negotiation for.
    pub fn handle_global_manager(&mut self) -> (negotiate: Vec<u32>)
        requires
            old(self)@.wf(),
        ensures
            final(self)@ == spec_set_manager(old(self)@),
            final(self)@.wf(),
            negotiate@ == ids_lacking_control(old(self)@.outputs),
    {
        self.has_manager = true;
        proof {
            assert(self@.outputs =~= old(self)@.outputs);
            assert(self@.wf());
        }
        let negotiate = self.assign_gamma_control_all();
        proof {
            assert(self@.outputs =~= spec_set_manager(old(self)@).outputs);
        }
        negotiate
    }

    /// An output withdrawn by the registry: forget it. Returns whether
    /// a gamma-control session was held for it, which the caller must
    /// then release.
    pub fn handle_global_remove(&mut self, id: u32) -> (had_control: bool)
        requires
            old(self)@.wf(),
        ensures
            final(self)@.wf(),
            final(self)@.has_manager == old(self)@.has_manager,
            !old(self)@.knows_id(id) ==> final(self)@ == old(self)@ && !had_control,
            old(self)@.knows_id(id) ==> exists|i: int|
                0 <= i < old(self)@.outputs.len() && (#[trigger] old(self)@.outputs[i]).id == id
                    && final(self)@.outputs == old(self)@.outputs.remove(i) && had_control == old(
                    self,
                )@.outputs[i].has_gamma_control,
    {
        let mut i: usize = 0;
        while i < self.outputs.len()
            invariant
                old(self)@.wf(),
                self@ == old(self)@,
                0 <= i <= self.outputs@.len(),
                forall|k: int| 0 <= k < i ==> (#[trigger] self@.outputs[k]).id != id,
            decreases self.outputs@.len() - i,
        {
            if self.outputs[i].id == id {
                assert(self@.outputs[i as int].id == id);
                let had_control = self.outputs[i].has_gamma_control;
                self.outputs.remove(i);
                proof {
                    assert(self@.outputs =~= old(self)@.outputs.remove(i as int));
                    assert forall|a: int, b: int|
                        0 <= a < self@.outputs.len() && 0 <= b < self@.outputs.len() && a != b
                            implies (#[trigger] self@.outputs[a]).id != (
                    #[trigger] self@.outputs[b]).id by {
                        let oa = if a < i as int { a } else { a + 1 };
                        let ob = if b < i as int { b } else { b + 1 };
                        assert(self@.outputs[a] == old(self)@.outputs[oa]);
                        assert(self@.outputs[b] == old(self)@.outputs[ob]);
                    }
                }
                return had_control;
            }
            i = i + 1;
        }
        false
    }

    /// An output's name reported by the compositor: record it.
    #[verifier::loop_isolation(false)]
    pub fn handle_output_name(&mut self, id: u32, name: String)
        requires
            old(self)@.wf(),
        ensures
            final(self)@ == spec_set_name(old(self)@, id, name@),
            final(self)@.wf(),
    {
        let ghost spec_outs = spec_set_name(old(self)@, id, name@).outputs;
        let mut i: usize = 0;
        while i < self.outputs.len()
            invariant
                old(self)@.wf(),
                self@ == old(self)@,
                0 <= i <= self.outputs@.len(),
                forall|k: int| 0 <= k < i ==> (#[trigger] self@.outputs[k]).id != id,
            decreases self.outputs@.len() - i,
        {
            if self.outputs[i].id == id {
                assert(self@.outputs[i as int].id == id);
                self.outputs[i].output_name = name;
                proof {
                    assert forall|k: int| 0 <= k < self@.outputs.len() implies self@.outputs[k]
                        == spec_outs[k] by {
                        if k != i as int && old(self)@.outputs[k].id == id {
                            assert(old(self)@.outputs[i as int].id == id);
                        }
                    }
                    assert(self@.outputs =~= spec_outs);
                }
                return ;
            }
            i = i + 1;
        }
        proof {
            assert forall|k: int| 0 <= k < self@.outputs.len() implies self@.outputs[k]
                == spec_outs[k] by {
                assert(self@.outputs[k].id != id);
            }
            assert(self@.outputs =~= spec_outs);
        }
    }

    /// An output's ramp size reported through its gamma-control
    /// session: record the negotiated capability.
    #[verifier::loop_isolation(false)]
    pub fn handle_gamma_size(&mut self, id: u32, size: u32)
        requires
            old(self)@.wf(),
        ensures
            final(self)@ == spec_set_ramp_size(old(self)@, id, size),
            final(self)@.wf(),
    {
        let ghost spec_outs = spec_set_ramp_size(old(self)@, id, size).outputs;
        let mut i: usize = 0;
        while i < self.outputs.len()
            invariant
                old(self)@.wf(),
                self@ == old(self)@,
                0 <= i <= self.outputs@.len(),
                forall|k: int| 0 <= k < i ==> (#[trigger] self@.outputs[k]).id != id,
            decreases self.outputs@.len() - i,
        {
            if self.outputs[i].id == id {
                assert(self@.outputs[i as int].id == id);
                self.outputs[i].ramp_size = size;
                proof {
                    assert forall|k: int| 0 <= k < self@.outputs.len() implies self@.outputs[k]
                        == spec_outs[k] by {
                        if k != i as int && old(self)@.outputs[k].id == id {
                            assert(old(self)@.outputs[i as int].id == id);
                        }
                    }
                    assert(self@.outputs =~= spec_outs);
                }
                return ;
            }
            i = i + 1;
        }
        proof {
            assert forall|k: int| 0 <= k < self@.outputs.len() implies self@.outputs[k]
                == spec_outs[k] by {
                assert(self@.outputs[k].id != id);
            }
            assert(self@.outputs =~= spec_outs);
        }
    }

    /// A gamma-control session reported invalid by the compositor:
    /// drop the handle; the output itself survives. The caller must
    /// destroy the protocol object.
    #[verifier::loop_isolation(false)]
    pub fn handle_gamma_failed(&mut self, id: u32)
        requires
            old(self)@.wf(),
        ensures
            final(self)@ == spec_control_failed(old(self)@, id),
            final(self)@.wf(),
    {
        let ghost spec_outs = spec_control_failed(old(self)@, id).outputs;
        let mut i: usize = 0;
        while i < self.outputs.len()
            invariant
                old(self)@.wf(),
                self@ == old(self)@,
                0 <= i <= self.outputs@.len(),
                forall|k: int| 0 <= k < i ==> (#[trigger] self@.outputs[k]).id != id,
            decreases self.outputs@.len() - i,
        {
            if self.outputs[i].id == id {
                assert(self@.outputs[i as int].id == id);
                self.outputs[i].has_gamma_control = false;
                proof {
                    assert forall|k: int| 0 <= k < self@.outputs.len() implies self@.outputs[k]
                        == spec_outs[k] by {
                        if k != i as int && old(self)@.outputs[k].id == id {
                            assert(old(self)@.outputs[i as int].id == id);
                        }
                    }
                    assert(self@.outputs =~= spec_outs);
                }
                return ;
            }
            i = i + 1;
        }
        proof {
            assert forall|k: int| 0 <= k < self@.outputs.len() implies self@.outputs[k]
                == spec_outs[k] by {
                assert(self@.outputs[k].id != id);
            }
            assert(self@.outputs =~= spec_outs);
        }
    }

    /// A temperature command: record the new temperature and gamma
    /// exponent on every matched, usable output and say which ramp
    /// submissions the caller owes the compositor. An empty filter
    /// matches every output; a filter naming no known output is a
    /// no-op, not an error.
    #[verifier::loop_isolation(false)]
    pub fn apply_gamma_control(
        &mut self,
        names: &Vec<String>,
        kelvin: u32,
        gamma_millis: u32,
    ) -> (jobs: Vec<RampJob>)
        requires
            old(self)@.wf(),
        ensures
            final(self)@ == spec_apply_state(old(self)@, names.deep_view(), kelvin, gamma_millis),
            final(self)@.wf(),
            jobs@ == spec_jobs(old(self)@.outputs, names.deep_view()),
    {
        let ghost filter = names.deep_view();
        let ghost spec_outs = spec_apply_state(old(self)@, filter, kelvin, gamma_millis).outputs;
        let mut jobs: Vec<RampJob> = Vec::new();
        let mut i: usize = 0;
        while i < self.outputs.len()
            invariant
                self@.outputs.len() == old(self)@.outputs.len(),
                self@.has_manager == old(self)@.has_manager,
                0 <= i <= self.outputs@.len(),
                forall|k: int| 0 <= k < i ==> self@.outputs[k] == #[trigger] spec_outs[k],
                forall|k: int|
                    i <= k < self@.outputs.len() ==> self@.outputs[k] == #[trigger] old(
                        self,
                    )@.outputs[k],
                jobs@ == spec_jobs(old(self)@.outputs.take(i as int), filter),
            decreases self.outputs@.len() - i,
        {
            proof {
                lemma_jobs_step(old(self)@.outputs, filter, i as int);
            }
            let matched = name_in_filter(names, &self.outputs[i].output_name);
            assert(matched == name_matched(filter, old(self)@.outputs[i as int].name));
            if matched && self.outputs[i].has_gamma_control && self.outputs[i].ramp_size > 0 {
                let oid = self.outputs[i].id;
                let size = self.outputs[i].ramp_size;
                jobs.push(RampJob { id: oid, ramp_size: size });
                self.outputs[i].current_temperature = kelvin;
                self.outputs[i].current_gamma_millis = gamma_millis;
            }
            i = i + 1;
        }
        proof {
            assert(old(self)@.outputs.take(old(self)@.outputs.len() as int) =~= old(
                self,
            )@.outputs);
            assert(self@.outputs =~= spec_outs);
        }
        jobs
    }

    /// A temperature query: report the name, current temperature and
    /// gamma exponent of every matched output, negotiated or not, in
    /// registry order. The filter works as in `apply_gamma_control`.
    #[verifier::loop_isolation(false)]
    pub fn get_temperatures(&self, names: &Vec<String>) -> (r: Vec<(String, u32, u32)>)
        ensures
            r.deep_view() == spec_query(self@.outputs, names.deep_view()),
    {
        let ghost filter = names.deep_view();
        let mut r: Vec<(String, u32, u32)> = Vec::new();
        let mut i: usize = 0;
        while i < self.outputs.len()
            invariant
                0 <= i <= self.outputs@.len(),
                r.deep_view() == spec_query(self@.outputs.take(i as int), filter),
            decreases self.outputs@.len() - i,
        {
            proof {
                lemma_query_step(self@.outputs, filter, i as int);
            }
            let matched = name_in_filter(names, &self.outputs[i].output_name);
            if matched {
                let name = self.outputs[i].output_name.clone();
                let t = self.outputs[i].current_temperature;
                let g = self.outputs[i].current_gamma_millis;
                r.push((name, t, g));
                proof {
                    assert(r.deep_view() =~= spec_query(
                        self@.outputs.take(i as int + 1),
                        filter,
                    ));
                }
            }
            i = i + 1;
        }
        proof {
            assert(self@.outputs.take(self@.outputs.len() as int) =~= self@.outputs);
        }
        r
    }

    /// Execute one client command against the registry: mutate the
    /// state, produce the response owed to the client, say whether the
    /// daemon must shut down, and list the ramp submissions owed to
    /// the compositor.
    pub fn handle_command(&mut self, cmd: IpcCommand) -> (outcome: CommandOutcome)
        requires
            old(self)@.wf(),
        ensures
            final(self)@ == spec_handle_command(old(self)@, cmd@).0,
            final(self)@.wf(),
            outcome.response@ == spec_handle_command(old(self)@, cmd@).1,
            outcome.shutdown == spec_handle_command(old(self)@, cmd@).2,
            outcome.jobs@ == spec_handle_command(old(self)@, cmd@).3,
    {
        match cmd {
            IpcCommand::SetTemperature { kelvin, gamma_millis, outputs } => {
                let jobs = self.apply_gamma_control(&outputs, kelvin, gamma_millis);
                CommandOutcome { response: IpcResponse::Success, shutdown: false, jobs }
            },
            IpcCommand::GetTemperature { outputs } => {
                let temperatures = self.get_temperatures(&outputs);
                let jobs: Vec<RampJob> = Vec::new();
                proof {
                    assert(jobs@ =~= Seq::<RampJob>::empty());
                }
                CommandOutcome {
                    response: IpcResponse::Temperature { temperatures },
                    shutdown: false,
                    jobs,
                }
            },
            IpcCommand::Kill {  } => {
                let jobs: Vec<RampJob> = Vec::new();
                proof {
                    assert(jobs@ =~= Seq::<RampJob>::empty());
                }
                CommandOutcome { response: IpcResponse::Success, shutdown: true, jobs }
            },
        }
    }

    /// Is an output with this identity currently known?
    pub fn knows_output(&self, id: u32) -> (r: bool)
        ensures
            r == self@.knows_id(id),
    {
        let mut i: usize = 0;
        while i < self.outputs.len()
            invariant
                0 <= i <= self.outputs@.len(),
                forall|k: int| 0 <= k < i ==> self@.outputs[k].id != id,
            decreases self.outputs@.len() - i,
        {
            if self.outputs[i].id == id {
                assert(self@.outputs[i as int].id == id);
                return true;
            }
            i = i + 1;
        }
        false
    }
}

impl Default for AppData {
    fn default() -> (r: Self)
        ensures
            r@ == spec_new(),
            r@.wf(),
    {
        Self::new()
    }
}

} // verus!
