//! The settlement plane: batches of transactions and checkpoints.
//!
//! Published transactions are gathered into a batch. At each tick of a timer a
//! batch that is not empty is submitted for safekeeping. Where it is accepted, the
//! state is rebuilt from the execution log and a checkpoint is made of its root
//! hash and the certificate; where it is refused, it is queued again.
use crate::crypto::{hex_encode, hex_text};
use crate::replay::{entry_views, reconstruct_state_from_log, replayed, ReplayError, State};
use crate::state::{state_root, state_root_of};
use crate::types::UserID;
use vstd::prelude::*;

verus! {

/// Why the settlement plane cannot make a checkpoint.
#[derive(Debug, Clone, Copy, PartialEq, Eq)]
pub enum SettlementPlaneError {
    /// A log entry is no transaction.
    Bincode,
    /// An order in the log is from a user who never made a deposit.
    UnknownUser(UserID),
    /// A balance grew beyond what a decimal can hold.
    Overflow,
}

/// A replay failure as the settlement plane reports it.
pub open spec fn settlement_error(e: ReplayError) -> SettlementPlaneError {
    match e {
        ReplayError::Malformed => SettlementPlaneError::Bincode,
        ReplayError::UnknownUser(user) => SettlementPlaneError::UnknownUser(user),
        ReplayError::Overflow => SettlementPlaneError::Overflow,
    }
}

/// The public record of a state: its root hash and the certificate for the
/// transactions that led to it, both in hexadecimal.
#[derive(Debug, PartialEq, Eq)]
pub struct L1Checkpoint {
    pub state_root: String,
    pub da_certificate: String,
}

/// The model of an [`L1Checkpoint`].
pub struct CheckpointView {
    pub state_root: Seq<char>,
    pub da_certificate: Seq<char>,
}

impl View for L1Checkpoint {
    type V = CheckpointView;

    open spec fn view(&self) -> CheckpointView {
        CheckpointView { state_root: self.state_root@, da_certificate: self.da_certificate@ }
    }
}

/// The checkpoint of a state.
pub open spec fn checkpoint_of(state: State, certificate: Seq<u8>) -> CheckpointView {
    CheckpointView {
        state_root: hex_text(state_root_of(state.ledger, state.book)),
        da_certificate: hex_text(certificate),
    }
}

/// Makes the checkpoint of the state that a log stands for.
pub fn make_checkpoint(log: &Vec<Vec<u8>>, certificate: &[u8]) -> (r: Result<
    L1Checkpoint,
    SettlementPlaneError,
>)
    ensures
        match replayed(entry_views(log@)) {
            Ok(state) => r matches Ok(checkpoint) && checkpoint@ == checkpoint_of(
                state,
                certificate@,
            ),
            Err(e) => r == Err::<L1Checkpoint, SettlementPlaneError>(settlement_error(e)),
        },
{
    match reconstruct_state_from_log(log) {
        Ok((accounts, book)) => {
            let root = state_root(&accounts, &book);
            Ok(
                L1Checkpoint {
                    state_root: hex_encode(root.as_slice()),
                    da_certificate: hex_encode(certificate),
                },
            )
        },
        Err(ReplayError::Malformed) => Err(SettlementPlaneError::Bincode),
        Err(ReplayError::UnknownUser(user)) => Err(SettlementPlaneError::UnknownUser(user)),
        Err(ReplayError::Overflow) => Err(SettlementPlaneError::Overflow),
    }
}

/// The certificate of a batch that need not be submitted: an empty batch has an
/// empty one.
pub fn certificate_without_submission(batch: &[u8]) -> (r: Option<Vec<u8>>)
    ensures
        match r {
            Some(certificate) => batch@.len() == 0 && certificate@ == Seq::<u8>::empty(),
            None => batch@.len() > 0,
        },
{
    if batch.len() == 0 {
        Some(Vec::new())
    } else {
        None
    }
}

/// Transactions that were gathered: their bytes one after the other, and how many
/// there are.
#[derive(Debug)]
pub struct Batch {
    pub bytes: Vec<u8>,
    pub count: u64,
}

/// The model of a [`Batch`].
pub struct BatchView {
    pub bytes: Seq<u8>,
    pub count: nat,
}

impl View for Batch {
    type V = BatchView;

    open spec fn view(&self) -> BatchView {
        BatchView { bytes: self.bytes@, count: self.count as nat }
    }
}

/// The batch with nothing in it.
pub open spec fn empty_batch() -> BatchView {
    BatchView { bytes: Seq::empty(), count: 0 }
}

/// A batch with one more transaction.
pub open spec fn extended(batch: BatchView, payload: Seq<u8>) -> BatchView {
    BatchView { bytes: batch.bytes + payload, count: batch.count + 1 }
}

impl Batch {
    /// A batch with nothing in it.
    pub fn new() -> (r: Batch)
        ensures
            r@ == empty_batch(),
    {
        Batch { bytes: Vec::new(), count: 0 }
    }
}

/// The batches of the settlement plane: the one that is being gathered and the one
/// that was submitted and not yet answered.
#[derive(Debug)]
pub struct Settlement {
    pub gathered: Batch,
    pub submitted: Option<Batch>,
}

/// The model of a [`Settlement`].
pub struct SettlementView {
    pub gathered: BatchView,
    pub submitted: Option<BatchView>,
}

impl View for Settlement {
    type V = SettlementView;

    open spec fn view(&self) -> SettlementView {
        SettlementView {
            gathered: self.gathered@,
            submitted: match self.submitted {
                Some(batch) => Some(batch@),
                None => None,
            },
        }
    }
}

/// After a message: it joins the batch that is being gathered.
pub open spec fn after_message(s: SettlementView, payload: Seq<u8>) -> SettlementView {
    SettlementView { gathered: extended(s.gathered, payload), ..s }
}

/// Whether a tick of the timer leads to a submission: there is something to submit
/// and no earlier submission is waiting for its answer.
pub open spec fn submits(s: SettlementView) -> bool {
    s.gathered.bytes.len() > 0 && s.submitted is None
}

/// After a tick of the timer: what was gathered is submitted.
pub open spec fn after_tick(s: SettlementView) -> SettlementView {
    if submits(s) {
        SettlementView { gathered: empty_batch(), submitted: Some(s.gathered) }
    } else {
        s
    }
}

/// After a submission was accepted.
pub open spec fn after_accepted(s: SettlementView) -> SettlementView {
    SettlementView { submitted: None, ..s }
}

/// After a submission was refused: its batch is queued again, in front of what was
/// gathered since.
pub open spec fn after_refused(s: SettlementView) -> SettlementView {
    match s.submitted {
        Some(batch) => SettlementView {
            gathered: BatchView {
                bytes: batch.bytes + s.gathered.bytes,
                count: batch.count + s.gathered.count,
            },
            submitted: None,
        },
        None => s,
    }
}

/// All transactions in the batches.
pub open spec fn outstanding(s: SettlementView) -> nat {
    s.gathered.count + match s.submitted {
        Some(batch) => batch.count,
        None => 0,
    }
}

impl Settlement {
    /// Nothing gathered, nothing submitted.
    pub fn new() -> (r: Settlement)
        ensures
            r@ == (SettlementView { gathered: empty_batch(), submitted: None }),
    {
        Settlement { gathered: Batch::new(), submitted: None }
    }

    /// Takes in a published transaction.
    pub fn on_message(&mut self, payload: &[u8])
        requires
            outstanding(old(self)@) < u64::MAX,
        ensures
            final(self)@ == after_message(old(self)@, payload@),
    {
        self.gathered.bytes.extend_from_slice(payload);
        assert(self.gathered.bytes@ =~= old(self).gathered.bytes@ + payload@);
        self.gathered.count = self.gathered.count + 1;
    }

    /// A tick of the timer: hands out the bytes to submit, if there are any.
    pub fn on_tick(&mut self) -> (r: Option<Vec<u8>>)
        ensures
            final(self)@ == after_tick(old(self)@),
            match r {
                Some(bytes) => submits(old(self)@) && bytes@ == old(self)@.gathered.bytes,
                None => !submits(old(self)@),
            },
    {
        if self.gathered.bytes.len() == 0 || self.submitted.is_some() {
            return None;
        }
        let mut batch = Batch::new();
        std::mem::swap(&mut batch, &mut self.gathered);
        let mut bytes: Vec<u8> = Vec::new();
        bytes.extend_from_slice(batch.bytes.as_slice());
        assert(bytes@ =~= batch.bytes@);
        self.submitted = Some(batch);
        Some(bytes)
    }

    /// The submission was accepted: makes the checkpoint from the execution log.
    pub fn on_accepted(&mut self, certificate: &[u8], log: &Vec<Vec<u8>>) -> (r: Result<
        L1Checkpoint,
        SettlementPlaneError,
    >)
        ensures
            final(self)@ == after_accepted(old(self)@),
            match replayed(entry_views(log@)) {
                Ok(state) => r matches Ok(checkpoint) && checkpoint@ == checkpoint_of(
                    state,
                    certificate@,
                ),
                Err(e) => r == Err::<L1Checkpoint, SettlementPlaneError>(settlement_error(e)),
            },
    {
        self.submitted = None;
        make_checkpoint(log, certificate)
    }

    /// The submission was refused: its batch is queued again.
    pub fn on_refused(&mut self)
        requires
            outstanding(old(self)@) <= u64::MAX,
        ensures
            final(self)@ == after_refused(old(self)@),
    {
        let mut submitted: Option<Batch> = None;
        std::mem::swap(&mut submitted, &mut self.submitted);
        if let Some(batch) = submitted {
            let mut batch = batch;
            batch.bytes.append(&mut self.gathered.bytes);
            batch.count = batch.count + self.gathered.count;
            self.gathered = batch;
        }
    }
}

/// A refused submission leaves everything as it was before the tick: no transaction
/// is lost, and the next tick submits the same batch.
pub proof fn law_refusal_undoes_the_tick(s: SettlementView)
    requires
        s.submitted is None,
    ensures
        after_refused(after_tick(s)) == s,
{
    if submits(s) {
        assert(s.gathered.bytes + Seq::<u8>::empty() =~= s.gathered.bytes);
    }
}

/// The bytes in the batches, in order of arrival.
pub open spec fn queued_bytes(s: SettlementView) -> Seq<u8> {
    match s.submitted {
        Some(batch) => batch.bytes + s.gathered.bytes,
        None => s.gathered.bytes,
    }
}

/// Something that happens to the settlement plane.
pub enum Step {
    Message(Seq<u8>),
    Tick,
    Accepted,
    Refused,
}

pub open spec fn after_step(s: SettlementView, step: Step) -> SettlementView {
    match step {
        Step::Message(payload) => after_message(s, payload),
        Step::Tick => after_tick(s),
        Step::Accepted => after_accepted(s),
        Step::Refused => after_refused(s),
    }
}

/// The settlement plane after some steps, one after the other.
pub open spec fn after_steps(s: SettlementView, steps: Seq<Step>) -> SettlementView
    decreases steps.len(),
{
    if steps.len() == 0 {
        s
    } else {
        after_steps(after_step(s, steps[0]), steps.drop_first())
    }
}

/// Pieces, one behind the other.
pub open spec fn joined(pieces: Seq<Seq<u8>>) -> Seq<u8>
    decreases pieces.len(),
{
    if pieces.len() == 0 {
        Seq::empty()
    } else {
        pieces[0] + joined(pieces.drop_first())
    }
}

/// The payloads of the messages among some steps, in order of arrival.
pub open spec fn payloads(steps: Seq<Step>) -> Seq<Seq<u8>>
    decreases steps.len(),
{
    if steps.len() == 0 {
        Seq::empty()
    } else {
        match steps[0] {
            Step::Message(payload) => seq![payload] + payloads(steps.drop_first()),
            _ => payloads(steps.drop_first()),
        }
    }
}

/// The batches that are accepted in the course of some steps.
pub open spec fn accepted_batches(s: SettlementView, steps: Seq<Step>) -> Seq<Seq<u8>>
    decreases steps.len(),
{
    if steps.len() == 0 {
        Seq::empty()
    } else {
        let rest = accepted_batches(after_step(s, steps[0]), steps.drop_first());
        match (steps[0], s.submitted) {
            (Step::Accepted, Some(batch)) => seq![batch.bytes] + rest,
            _ => rest,
        }
    }
}

/// Every payload is in one accepted batch or still queued, and all stay in order of
/// arrival, whatever is accepted and whatever is refused: the accepted batches and
/// what is queued in the end are, byte for byte, what was queued at first and the
/// payloads.
pub proof fn law_payloads_stay_in_order(s: SettlementView, steps: Seq<Step>)
    ensures
        joined(accepted_batches(s, steps)) + queued_bytes(after_steps(s, steps)) == queued_bytes(s)
            + joined(payloads(steps)),
    decreases steps.len(),
{
    let queued = queued_bytes(s);
    if steps.len() == 0 {
        assert(Seq::<u8>::empty() + queued =~= queued + Seq::<u8>::empty());
    } else {
        let rest = steps.drop_first();
        let next = after_step(s, steps[0]);
        law_payloads_stay_in_order(next, rest);
        let later = joined(accepted_batches(next, rest));
        let last = queued_bytes(after_steps(next, rest));
        let coming = joined(payloads(rest));
        match steps[0] {
            Step::Message(payload) => {
                let all = seq![payload] + payloads(rest);
                assert(all.drop_first() =~= payloads(rest));
                assert(queued_bytes(next) =~= queued + payload);
                assert((queued + payload) + coming =~= queued + (payload + coming));
            },
            Step::Tick => {
                assert(queued_bytes(next) =~= queued);
            },
            Step::Accepted => {
                if let Some(batch) = s.submitted {
                    let all = seq![batch.bytes] + accepted_batches(next, rest);
                    assert(all.drop_first() =~= accepted_batches(next, rest));
                    assert((batch.bytes + later) + last =~= batch.bytes + (later + last));
                    assert(queued + coming =~= batch.bytes + (s.gathered.bytes + coming));
                }
            },
            Step::Refused => {
                assert(queued_bytes(next) =~= queued);
            },
        }
    }
}

/// Started afresh, the settlement plane has all payloads in accepted batches or
/// queued, each once and in order of arrival.
pub proof fn law_every_payload_once(steps: Seq<Step>)
    ensures
        ({
            let s = SettlementView { gathered: empty_batch(), submitted: None };
            joined(accepted_batches(s, steps)) + queued_bytes(after_steps(s, steps)) == joined(
                payloads(steps),
            )
        }),
{
    let s = SettlementView { gathered: empty_batch(), submitted: None };
    law_payloads_stay_in_order(s, steps);
    assert(Seq::<u8>::empty() + joined(payloads(steps)) =~= joined(payloads(steps)));
}

/// The messages that bring some payloads.
pub open spec fn messages_of(payloads: Seq<Seq<u8>>) -> Seq<Step> {
    payloads.map_values(|payload: Seq<u8>| Step::Message(payload))
}

/// After a refusal the next submission is the refused batch, then what was gathered
/// while it was out, then all that arrives up to the tick.
pub proof fn law_refused_batch_goes_first(s: SettlementView, later: Seq<Seq<u8>>)
    requires
        s.submitted matches Some(batch) && batch.bytes.len() > 0,
    ensures
        ({
            let t = after_steps(after_refused(s), messages_of(later));
            &&& submits(t)
            &&& t.gathered.bytes == s.submitted->0.bytes + s.gathered.bytes + joined(later)
        }),
{
    lemma_messages_gathered(after_refused(s), later);
}

proof fn lemma_messages_gathered(s: SettlementView, later: Seq<Seq<u8>>)
    ensures
        ({
            let t = after_steps(s, messages_of(later));
            &&& t.submitted == s.submitted
            &&& t.gathered.bytes == s.gathered.bytes + joined(later)
        }),
    decreases later.len(),
{
    let steps = messages_of(later);
    if later.len() == 0 {
        assert(s.gathered.bytes + Seq::<u8>::empty() =~= s.gathered.bytes);
    } else {
        let rest = later.drop_first();
        assert(steps.drop_first() =~= messages_of(rest));
        assert(steps[0] == Step::Message(later[0]));
        lemma_messages_gathered(after_message(s, later[0]), rest);
        assert((s.gathered.bytes + later[0]) + joined(rest) =~= s.gathered.bytes + (later[0]
            + joined(rest)));
    }
}

/// Between messages and acceptances no transaction appears or disappears.
pub proof fn law_transactions_kept(s: SettlementView, payload: Seq<u8>)
    ensures
        outstanding(after_message(s, payload)) == outstanding(s) + 1,
        outstanding(after_tick(s)) == outstanding(s),
        outstanding(after_refused(s)) == outstanding(s),
{
}

/// A tick submits everything that was gathered, where there is anything and no answer is
/// awaited, and nothing otherwise. The count goes with the bytes.
pub proof fn law_tick_submits_everything(s: SettlementView)
    ensures
        submits(s) <==> s.submitted is None && s.gathered.bytes != Seq::<u8>::empty(),
        submits(s) ==> {
            &&& after_tick(s).submitted == Some(s.gathered)
            &&& after_tick(s).gathered.bytes == Seq::<u8>::empty()
            &&& after_tick(s).gathered.count == 0
        },
        !submits(s) ==> after_tick(s) == s,
{
    if s.gathered.bytes.len() == 0 {
        assert(s.gathered.bytes =~= Seq::<u8>::empty());
    }
}

/// An answer ends the wait for it: an accepted batch is done with, a refused one is not.
pub proof fn law_answers_end_the_wait(s: SettlementView)
    ensures
        after_accepted(s).submitted is None,
        after_accepted(s).gathered == s.gathered,
        after_refused(s).submitted is None,
        s.submitted matches Some(batch) ==> {
            &&& after_refused(s).gathered.bytes == batch.bytes + s.gathered.bytes
            &&& after_refused(s).gathered.count == batch.count + s.gathered.count
        },
        s.submitted is None ==> after_refused(s).gathered == s.gathered,
{
}

} // verus!
