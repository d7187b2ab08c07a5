//! The verifier: an independent audit of checkpoints.
//!
//! It replays the execution log and compares the root hash of the state that it
//! arrives at with the one in the official checkpoint.
use crate::crypto::{hex_encode, hex_text, law_hex_differs};
use crate::framing::{payloads_in, records_in};
use crate::replay::{entry_views, reconstruct_state_from_log, replayed, ReplayError, State};
use crate::settlement::checkpoint_of;
use crate::state::{state_root, state_root_of};
use crate::types::UserID;
use vstd::prelude::*;
use vstd::string::{StrSliceExecFns, StringExecFns};

verus! {

/// Why the verifier cannot judge a checkpoint.
#[derive(Debug, Clone, Copy, PartialEq, Eq)]
pub enum VerifierError {
    /// A log entry is no transaction, or a log file ends within a record.
    Bincode,
    /// An order in the log is from a user who never made a deposit.
    UnknownUser(UserID),
    /// A balance grew beyond what a decimal can hold.
    Overflow,
}

/// A replay failure as the verifier reports it.
pub open spec fn verifier_error(e: ReplayError) -> VerifierError {
    match e {
        ReplayError::Malformed => VerifierError::Bincode,
        ReplayError::UnknownUser(user) => VerifierError::UnknownUser(user),
        ReplayError::Overflow => VerifierError::Overflow,
    }
}

/// The official checkpoint as the verifier finds it. The certificate may be missing.
#[derive(Debug, PartialEq, Eq)]
pub struct L1Checkpoint {
    pub state_root: String,
    pub da_certificate: Option<String>,
}

/// Whether a state root in hexadecimal is that of a state.
pub open spec fn root_matches(state: State, state_root: Seq<char>) -> bool {
    hex_text(state_root_of(state.ledger, state.book)) == state_root
}

/// Replays the log and says whether the official checkpoint has the right root.
pub fn verify_checkpoint(log: &Vec<Vec<u8>>, official: &L1Checkpoint) -> (r: Result<
    bool,
    VerifierError,
>)
    ensures
        match replayed(entry_views(log@)) {
            Ok(state) => r == Ok::<bool, VerifierError>(
                root_matches(state, official.state_root@),
            ),
            Err(e) => r == Err::<bool, VerifierError>(verifier_error(e)),
        },
{
    match reconstruct_state_from_log(log) {
        Ok((accounts, book)) => {
            let root = state_root(&accounts, &book);
            let text = hex_encode(root.as_slice());
            Ok(text == official.state_root)
        },
        Err(ReplayError::Malformed) => Err(VerifierError::Bincode),
        Err(ReplayError::UnknownUser(user)) => Err(VerifierError::UnknownUser(user)),
        Err(ReplayError::Overflow) => Err(VerifierError::Overflow),
    }
}

/// Replays a log file and says whether the official checkpoint has the right root.
pub fn verify_log_file(bytes: &[u8], official: &L1Checkpoint) -> (r: Result<bool, VerifierError>)
    ensures
        match payloads_in(bytes@) {
            Some(log) => match replayed(log) {
                Ok(state) => r == Ok::<bool, VerifierError>(
                    root_matches(state, official.state_root@),
                ),
                Err(e) => r == Err::<bool, VerifierError>(verifier_error(e)),
            },
            None => r == Err::<bool, VerifierError>(VerifierError::Bincode),
        },
{
    match records_in(bytes) {
        Some(log) => verify_checkpoint(&log, official),
        None => Err(VerifierError::Bincode),
    }
}

/// A checkpoint that the settlement plane makes from a log passes the verifier on
/// the same log, whatever the certificate.
pub proof fn law_honest_checkpoint_passes(log: Seq<Seq<u8>>, certificate: Seq<u8>)
    requires
        replayed(log) is Ok,
    ensures
        root_matches(replayed(log)->Ok_0, checkpoint_of(replayed(log)->Ok_0, certificate).state_root),
{
}

/// A checkpoint passes the verifier only if the state that it was made of has the
/// root hash of the state that the verifier arrives at.
pub proof fn law_only_equal_roots_pass(made: State, replayed: State, certificate: Seq<u8>)
    ensures
        root_matches(replayed, checkpoint_of(made, certificate).state_root) <==> state_root_of(
            made.ledger,
            made.book,
        ) == state_root_of(replayed.ledger, replayed.book),
{
    law_hex_differs(
        state_root_of(made.ledger, made.book),
        state_root_of(replayed.ledger, replayed.book),
    );
}

/// Whether a pattern stands at a position of some text.
pub open spec fn stands_at(text: Seq<char>, pattern: Seq<char>, at: int) -> bool {
    0 <= at && at + pattern.len() <= text.len() && text.subrange(at, at + pattern.len()) == pattern
}

/// Whether a position is the first one at which a pattern stands.
pub open spec fn first_stands_at(text: Seq<char>, pattern: Seq<char>, at: int) -> bool {
    stands_at(text, pattern, at) && forall|i: int|
        0 <= i < at ==> !#[trigger] stands_at(text, pattern, i)
}

/// Some text with another in place of the first occurrence of a pattern.
pub open spec fn replaced_once(
    text: Seq<char>,
    pattern: Seq<char>,
    with: Seq<char>,
) -> Seq<char> {
    if exists|at: int| first_stands_at(text, pattern, at) {
        let at = choose|at: int| first_stands_at(text, pattern, at);
        text.take(at) + with + text.skip(at + pattern.len())
    } else {
        text
    }
}

/// The address from which a blob is fetched: that to which blobs are put, with
/// `/get/` and the certificate in place of the first `/put`. What follows it stays.
pub fn da_get_url(put_url: &str, certificate: &str) -> (r: String)
    ensures
        r@ == replaced_once(put_url@, "/put"@, "/get/"@ + certificate@),
{
    let text = crate::text::chars_of(put_url);
    proof {
        reveal_strlit("/put");
    }
    let ghost pattern = "/put"@;
    let mut i: usize = 0;
    while i < text.len()
        invariant
            i <= text@.len(),
            text@ == put_url@,
            pattern == "/put"@,
            pattern.len() == 4,
            pattern[0] == '/' && pattern[1] == 'p' && pattern[2] == 'u' && pattern[3] == 't',
            forall|j: int| 0 <= j < i ==> !#[trigger] stands_at(text@, pattern, j),
        decreases text@.len() - i,
    {
        if text.len() - i >= 4 && text[i] == '/' && text[i + 1] == 'p' && text[i + 2] == 'u' && text[i
            + 3] == 't' {
            proof {
                assert(text@.subrange(i as int, i + 4) =~= pattern);
                assert(first_stands_at(text@, pattern, i as int));
                let at = choose|at: int| first_stands_at(text@, pattern, at);
                if at < i {
                    assert(stands_at(text@, pattern, at));
                }
                if at > i {
                    assert(stands_at(text@, pattern, i as int));
                }
            }
            let mut url = String::from_str(put_url.substring_char(0, i));
            url.append("/get/");
            url.append(certificate);
            url.append(put_url.substring_char(i + 4, text.len()));
            assert(url@ =~= replaced_once(put_url@, pattern, "/get/"@ + certificate@));
            return url;
        }
        assert(!stands_at(text@, pattern, i as int)) by {
            if stands_at(text@, pattern, i as int) {
                let s = text@.subrange(i as int, i + 4);
                assert(s[0] == text@[i as int] && s[1] == text@[i + 1]);
                assert(s[2] == text@[i + 2] && s[3] == text@[i + 3]);
            }
        }
        i += 1;
    }
    assert(!(exists|at: int| first_stands_at(text@, pattern, at))) by {
        if exists|at: int| first_stands_at(text@, pattern, at) {
            let at = choose|at: int| first_stands_at(text@, pattern, at);
            assert(stands_at(text@, pattern, at));
        }
    }
    String::from_str(put_url)
}

/// Only the hexadecimal notation of a state's root hash passes for it: what passes can be
/// read back as that root.
pub proof fn law_passing_root_is_the_root(state: State, state_root: Seq<char>)
    ensures
        root_matches(state, state_root) ==> crate::crypto::hex_read(state_root) == Some(
            state_root_of(state.ledger, state.book),
        ),
        root_matches(state, hex_text(state_root_of(state.ledger, state.book))),
{
    crate::crypto::law_hex_back(state_root_of(state.ledger, state.book));
}

/// The verifier tells states apart: a checkpoint of a state with as many accounts, bids
/// and asks passes only if every account, every balance and every resting order is the
/// same, unless SHA-256 fails.
pub proof fn law_verifier_tells_states_apart(made: State, replayed: State, certificate: Seq<u8>)
    requires
        crate::state_laws::sound_ledger(made.ledger),
        crate::state_laws::sound_ledger(replayed.ledger),
        crate::book::good_book(made.book),
        crate::book::good_book(replayed.book),
        made.ledger.dom().len() == replayed.ledger.dom().len(),
        crate::book::queue(made.book.bids).len() == crate::book::queue(replayed.book.bids).len(),
        crate::book::queue(made.book.asks).len() == crate::book::queue(replayed.book.asks).len(),
    ensures
        root_matches(replayed, checkpoint_of(made, certificate).state_root) ==> {
            ||| crate::state_laws::sha256_fails()
            ||| {
                &&& made.ledger == replayed.ledger
                &&& crate::state_laws::same_orders(
                    crate::book::queue(made.book.bids),
                    crate::book::queue(replayed.book.bids),
                )
                &&& crate::state_laws::same_orders(
                    crate::book::queue(made.book.asks),
                    crate::book::queue(replayed.book.asks),
                )
            }
        },
{
    law_only_equal_roots_pass(made, replayed, certificate);
    if root_matches(replayed, checkpoint_of(made, certificate).state_root) {
        crate::state_laws::law_state_root_commits(
            made.ledger,
            made.book,
            replayed.ledger,
            replayed.book,
        );
    }
}

/// A pattern is replaced where it first stands and nowhere else; text without it stays.
pub proof fn law_replaced_once(
    before: Seq<char>,
    pattern: Seq<char>,
    after: Seq<char>,
    with: Seq<char>,
)
    ensures
        (forall|i: int|
            0 <= i < before.len() ==> (#[trigger] (before + pattern + after).subrange(
                i,
                i + pattern.len(),
            )) != pattern || i + pattern.len() > (before + pattern + after).len())
            ==> replaced_once(before + pattern + after, pattern, with) == before + with + after,
        (forall|i: int|
            0 <= i <= before.len() - pattern.len() ==> (#[trigger] before.subrange(
                i,
                i + pattern.len(),
            )) != pattern) ==> replaced_once(before, pattern, with) == before,
{
    let text = before + pattern + after;
    let n = before.len() as int;
    let w = pattern.len() as int;
    if forall|i: int|
        0 <= i < n ==> (#[trigger] text.subrange(i, i + w)) != pattern || i + w > text.len() {
        assert(text.subrange(n, n + w) =~= pattern);
        assert(stands_at(text, pattern, n));
        assert forall|i: int| 0 <= i < n implies !#[trigger] stands_at(text, pattern, i) by {
            assert(text.subrange(i, i + w) != pattern || i + w > text.len());
        }
        assert(first_stands_at(text, pattern, n));
        let at = choose|at: int| first_stands_at(text, pattern, at);
        if at < n {
            assert(!stands_at(text, pattern, at));
        }
        if at > n {
            assert(!stands_at(text, pattern, n));
        }
        assert(text.take(n) =~= before);
        assert(text.skip(n + w) =~= after);
    }
    if forall|i: int|
        0 <= i <= n - w ==> (#[trigger] before.subrange(i, i + w)) != pattern {
        if exists|at: int| first_stands_at(before, pattern, at) {
            let at = choose|at: int| first_stands_at(before, pattern, at);
            assert(before.subrange(at, at + w) == pattern);
        }
    }
}

/// The settlement plane and the verifier report the same cause for a log that cannot be
/// replayed, and three different causes as different errors.
pub proof fn law_causes_are_reported(e: ReplayError, other: ReplayError)
    ensures
        crate::settlement::settlement_error(e) is Bincode <==> verifier_error(e) is Bincode,
        crate::settlement::settlement_error(e) is Overflow <==> verifier_error(e) is Overflow,
        verifier_error(e) is Bincode <==> e is Malformed,
        verifier_error(e) is Overflow <==> e is Overflow,
        e matches ReplayError::UnknownUser(user) ==> {
            &&& verifier_error(e) == VerifierError::UnknownUser(user)
            &&& crate::settlement::settlement_error(e)
                == crate::settlement::SettlementPlaneError::UnknownUser(user)
        },
        verifier_error(e) == verifier_error(other) ==> e == other,
{
}

} // verus!
