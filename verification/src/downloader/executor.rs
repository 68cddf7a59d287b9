//! Carrying out a plan: the rotation of download URLs, failover between
//! peers, the check of what was received, and the dispatch of actions with a
//! bound on how many run at a time.

use crate::digest::{digest_of, Hasher};
use crate::downloader::planer::{planned, Action, PlannedAction};
use crate::utils::multierr::MultiError;
use crate::utils::text::views;
use vstd::prelude::*;

verus! {

/// The sum of the sizes of the downloads among the actions.
pub open spec fn total_size_of(actions: Seq<PlannedAction>) -> nat
    decreases actions.len(),
{
    if actions.len() == 0 {
        0
    } else {
        total_size_of(actions.drop_last()) + match actions.last() {
            PlannedAction::Download { size, .. } => size,
            PlannedAction::MakeDir { .. } => 0,
        }
    }
}

/// The total grows with every action.
pub proof fn lemma_total_size_monotone(actions: Seq<PlannedAction>, count: int)
    requires
        0 <= count <= actions.len(),
    ensures
        total_size_of(actions.take(count)) <= total_size_of(actions),
    decreases actions.len(),
{
    if count < actions.len() {
        assert(actions.drop_last().take(count) =~= actions.take(count));
        lemma_total_size_monotone(actions.drop_last(), count);
    } else {
        assert(actions.take(count) =~= actions);
    }
}

/// The number of bytes that the downloads of a plan are expected to bring,
/// or `None` where that number does not fit the machine's word.
pub fn checked_total_size(actions: &Vec<Action>) -> (total: Option<usize>)
    ensures
        match total {
            Some(sum) => sum == total_size_of(planned(actions@)),
            None => total_size_of(planned(actions@)) > usize::MAX,
        },
{
    let mut total: usize = 0;
    let mut i: usize = 0;
    assert(planned(actions@).take(0) =~= Seq::<PlannedAction>::empty());
    while i < actions.len()
        invariant
            i <= actions.len(),
            total == total_size_of(planned(actions@).take(i as int)),
        decreases actions.len() - i,
    {
        let ghost all = planned(actions@);
        assert(all.take(i + 1).drop_last() =~= all.take(i as int));
        assert(all.take(i + 1).last() == actions@[i as int]@);
        match &actions[i] {
            Action::Download { size, .. } => {
                if *size > usize::MAX - total {
                    proof {
                        lemma_total_size_monotone(all, i + 1);
                    }
                    return None;
                }
                total = total + *size;
            },
            Action::MakeDir { .. } => {},
        }
        i = i + 1;
    }
    assert(planned(actions@).take(i as int) =~= planned(actions@));
    Some(total)
}

/// The number of bytes that the downloads of a plan are expected to bring.
pub fn total_size(actions: &Vec<Action>) -> (total: usize)
    requires
        total_size_of(planned(actions@)) <= usize::MAX,
    ensures
        total == total_size_of(planned(actions@)),
{
    let mut total: usize = 0;
    let mut i: usize = 0;
    assert(planned(actions@).take(0) =~= Seq::<PlannedAction>::empty());
    while i < actions.len()
        invariant
            i <= actions.len(),
            total == total_size_of(planned(actions@).take(i as int)),
            total_size_of(planned(actions@)) <= usize::MAX,
        decreases actions.len() - i,
    {
        let ghost all = planned(actions@);
        assert(all.take(i + 1).drop_last() =~= all.take(i as int));
        assert(all.take(i + 1).last() == actions@[i as int]@);
        proof {
            lemma_total_size_monotone(all, i + 1);
        }
        match &actions[i] {
            Action::Download { size, .. } => {
                total = total + *size;
            },
            Action::MakeDir { .. } => {},
        }
        i = i + 1;
    }
    assert(planned(actions@).take(i as int) =~= planned(actions@));
    total
}

/// The URL under which `peer` serves the file with digest `md5`.
pub open spec fn download_url(peer: Seq<char>, md5: Seq<char>) -> Seq<char> {
    peer + "/download?md5="@ + md5
}

/// The peer that attempt number `attempt` of a download goes to.
pub open spec fn rotated(peer_id: nat, attempt: nat, count: nat) -> int {
    ((peer_id + attempt) as int) % (count as int)
}

/// The URLs that a download tries, in order: one per peer, starting at
/// `peer_id` and going round.
pub open spec fn rotation(peers: Seq<Seq<char>>, peer_id: nat, md5: Seq<char>) -> Seq<Seq<char>> {
    Seq::new(
        peers.len(),
        |i: int| download_url(peers[rotated(peer_id, i as nat, peers.len())], md5),
    )
}

/// Every peer, once: two different attempts go to two different peers.
pub proof fn law_rotation_visits_each_peer_once(peer_id: nat, count: nat, first: nat, second: nat)
    requires
        first < second < count,
    ensures
        0 <= rotated(peer_id, first, count) < count,
        0 <= rotated(peer_id, second, count) < count,
        rotated(peer_id, first, count) != rotated(peer_id, second, count),
{
    let n = count as int;
    let a = (peer_id + first) as int;
    let b = (peer_id + second) as int;
    vstd::arithmetic::div_mod::lemma_fundamental_div_mod(a, n);
    vstd::arithmetic::div_mod::lemma_fundamental_div_mod(b, n);
    vstd::arithmetic::div_mod::lemma_mod_bound(a, n);
    vstd::arithmetic::div_mod::lemma_mod_bound(b, n);
    if a % n == b % n {
        let qa = a / n;
        let qb = b / n;
        assert(b - a == n * qb - n * qa);
        assert(n * qb - n * qa == n * (qb - qa)) by (nonlinear_arith);
        assert(0 < b - a < n);
        assert(n * (qb - qa) <= 0 || n * (qb - qa) >= n) by (nonlinear_arith)
            requires
                n > 0,
        ;
    }
}

/// The URLs of one download, handed out one at a time.
pub struct DownloadURLs<'a> {
    md5: &'a str,
    peers: &'a Vec<String>,
    peer_id: usize,
    cur: usize,
}

impl<'a> DownloadURLs<'a> {
    /// The URLs that are still to come.
    pub closed spec fn remaining(self) -> Seq<Seq<char>> {
        rotation(views(self.peers@), self.peer_id as nat, self.md5@).skip(self.cur as int)
    }

    #[verifier::type_invariant]
    spec fn inv(self) -> bool {
        self.cur <= self.peers@.len()
    }

    /// The rotation for the file with digest `md5`, starting at `peer_id`.
    pub fn new(md5: &'a str, peers: &'a Vec<String>, peer_id: usize) -> (urls: Self)
        ensures
            urls.remaining() == rotation(views(peers@), peer_id as nat, md5@),
    {
        let urls = DownloadURLs { md5, peers, peer_id, cur: 0 };
        assert(urls.remaining() =~= rotation(views(peers@), peer_id as nat, md5@));
        urls
    }

    /// The next URL to try, or `None` when every peer has had its turn.
    pub fn next(&mut self) -> (url: Option<String>)
        ensures
            old(self).remaining().len() == 0 ==> url is None && final(self).remaining()
                == old(self).remaining(),
            old(self).remaining().len() > 0 ==> (url matches Some(text) && text@
                == old(self).remaining()[0] && final(self).remaining()
                == old(self).remaining().drop_first()),
    {
        proof {
            use_type_invariant(&*self);
        }
        let n = self.peers.len();
        if self.cur >= n {
            None
        } else {
            let ghost all = rotation(views(self.peers@), self.peer_id as nat, self.md5@);
            let sum: u128 = self.peer_id as u128 + self.cur as u128;
            let wide: u128 = sum % (n as u128);
            let offset: usize = wide as usize;
            assert(offset == rotated(self.peer_id as nat, self.cur as nat, n as nat));
            let mut text = self.peers[offset].clone();
            text.append("/download?md5=");
            text.append(self.md5);
            assert(text@ == all[self.cur as int]);
            assert(all.skip(self.cur as int).drop_first() =~= all.skip(self.cur as int + 1));
            self.cur = self.cur + 1;
            Some(text)
        }
    }
}

/// Why what was received is not accepted.
#[derive(PartialEq, Eq, Structural, Clone, Copy, Debug)]
pub enum DownloadError {
    /// The digest of the received bytes is not the expected one.
    DigestMismatch,
}

impl DownloadError {
    /// The words for the error.
    pub open spec fn text(self) -> Seq<char> {
        "digest mismatch"@
    }

    /// The words for the error.
    pub fn message(&self) -> (text: String)
        ensures
            text@ == self.text(),
    {
        String::from_str("digest mismatch")
    }
}

/// At how many buffered bytes the buffer is handed on to be written.
pub const BUFFER_SIZE: usize = 4194304;

/// The mathematical value of a [`ChunkSink`].
pub struct Transfer {
    /// Every byte received so far, in the order received.
    pub received: Seq<u8>,
    /// The bytes handed on to be written so far.
    pub written: Seq<u8>,
    /// The bytes that wait in the buffer.
    pub pending: Seq<u8>,
}

impl Transfer {
    /// Nothing received yet.
    pub open spec fn start() -> Transfer {
        Transfer { received: Seq::empty(), written: Seq::empty(), pending: Seq::empty() }
    }

    /// What has been handed on and what waits is, together, what was
    /// received.
    pub open spec fn wf(self) -> bool {
        self.written + self.pending == self.received
    }

    /// Whether taking `chunk` fills the buffer.
    pub open spec fn fills(self, chunk: Seq<u8>) -> bool {
        self.pending.len() + chunk.len() >= BUFFER_SIZE
    }

    /// The bytes that are handed on to be written when `chunk` is taken:
    /// the whole buffer with the chunk behind it once that fills the buffer,
    /// nothing before.
    pub open spec fn flushed(self, chunk: Seq<u8>) -> Option<Seq<u8>> {
        if self.fills(chunk) {
            Some(self.pending + chunk)
        } else {
            None
        }
    }

    /// The transfer after `chunk` has been taken.
    pub open spec fn after_push(self, chunk: Seq<u8>) -> Transfer {
        if self.fills(chunk) {
            Transfer {
                received: self.received + chunk,
                written: self.written + (self.pending + chunk),
                pending: Seq::empty(),
            }
        } else {
            Transfer {
                received: self.received + chunk,
                written: self.written,
                pending: self.pending + chunk,
            }
        }
    }
}

/// The evidence that a body was received whose digest is the expected one.
/// Only [`ChunkSink::finish`] makes it.
pub struct Accepted {
    md5: String,
    received: Ghost<Seq<u8>>,
}

impl Accepted {
    #[verifier::type_invariant]
    spec fn inv(self) -> bool {
        self.md5@ == digest_of(self.received@)
    }

    /// The bytes that were received.
    pub closed spec fn bytes(self) -> Seq<u8> {
        self.received@
    }

    /// The digest of the bytes that were received.
    pub closed spec fn digest(self) -> Seq<char> {
        self.md5@
    }

    /// The digest of the bytes that were received.
    pub fn md5(&self) -> (md5: &String)
        ensures
            md5@ == self.digest(),
            self.digest() == digest_of(self.bytes()),
    {
        proof {
            use_type_invariant(self);
        }
        &self.md5
    }
}

/// What a download attempt has received: a running digest over every byte,
/// and a buffer that is handed on to be written whenever it has grown to
/// [`BUFFER_SIZE`].
pub struct ChunkSink {
    hasher: Hasher,
    buffer: Vec<u8>,
    written: Ghost<Seq<u8>>,
}

impl View for ChunkSink {
    type V = Transfer;

    closed spec fn view(&self) -> Transfer {
        Transfer { received: self.hasher@, written: self.written@, pending: self.buffer@ }
    }
}

/// Appends `chunk` to `buffer`.
fn append_bytes(buffer: &mut Vec<u8>, chunk: &[u8])
    ensures
        final(buffer)@ == old(buffer)@ + chunk@,
{
    let mut i: usize = 0;
    while i < chunk.len()
        invariant
            i <= chunk.len(),
            buffer@ == old(buffer)@ + chunk@.take(i as int),
        decreases chunk.len() - i,
    {
        buffer.push(chunk[i]);
        assert(buffer@ =~= old(buffer)@ + chunk@.take(i + 1));
        i = i + 1;
    }
    assert(chunk@.take(i as int) =~= chunk@);
}

impl ChunkSink {
    #[verifier::type_invariant]
    spec fn inv(self) -> bool {
        self@.wf()
    }

    /// A sink that has received nothing.
    pub fn new() -> (sink: Self)
        ensures
            sink@ == Transfer::start(),
    {
        let sink = ChunkSink { hasher: Hasher::new(), buffer: Vec::new(), written: Ghost(Seq::empty()) };
        assert(sink.hasher@ =~= sink.written@ + sink.buffer@);
        sink
    }

    /// Takes the next chunk of the body: it goes into the digest and behind
    /// what waits in the buffer. Where the buffer has thereby grown to
    /// [`BUFFER_SIZE`], its whole content is returned to be written next,
    /// and the buffer starts empty again.
    pub fn push(self, chunk: &[u8]) -> (next: (Self, Option<Vec<u8>>))
        ensures
            self@.wf(),
            next.0@ == self@.after_push(chunk@),
            match next.1 {
                Some(bytes) => self@.flushed(chunk@) == Some(bytes@),
                None => self@.flushed(chunk@) is None,
            },
    {
        proof {
            use_type_invariant(&self);
        }
        let ghost written = self.written@;
        let mut hasher = self.hasher;
        let mut buffer = self.buffer;
        hasher.consume(chunk);
        append_bytes(&mut buffer, chunk);
        assert(hasher@ =~= written + buffer@);
        if buffer.len() >= BUFFER_SIZE {
            let sink = ChunkSink { hasher, buffer: Vec::new(), written: Ghost(written + buffer@) };
            assert(sink.hasher@ =~= sink.written@ + sink.buffer@);
            (sink, Some(buffer))
        } else {
            (ChunkSink { hasher, buffer, written: Ghost(written) }, None)
        }
    }

    /// Ends the body: returns what still waits to be written, and accepts
    /// what was received exactly if its digest is `expected`.
    pub fn finish(self, expected: &str) -> (end: (Vec<u8>, Result<Accepted, DownloadError>))
        ensures
            self@.wf(),
            end.0@ == self@.pending,
            match end.1 {
                Ok(accepted) => digest_of(self@.received) == expected@ && accepted.bytes()
                    == self@.received && accepted.digest() == expected@,
                Err(error) => digest_of(self@.received) != expected@ && error
                    == DownloadError::DigestMismatch,
            },
    {
        proof {
            use_type_invariant(&self);
        }
        let ghost received = self.hasher@;
        let digest = self.hasher.finish();
        let expected_text = String::from_str(expected);
        if digest == expected_text {
            (self.buffer, Ok(Accepted { md5: digest, received: Ghost(received) }))
        } else {
            (self.buffer, Err(DownloadError::DigestMismatch))
        }
    }
}

/// Nothing is lost and nothing is added on the way to the file: taking a
/// chunk hands on, in order, exactly bytes that were received, and what has
/// been handed on together with what waits stays what was received.
pub proof fn law_transfer_keeps_every_byte(transfer: Transfer, chunk: Seq<u8>)
    requires
        transfer.wf(),
    ensures
        transfer.after_push(chunk).wf(),
        transfer.after_push(chunk).received == transfer.received + chunk,
        transfer.after_push(chunk).written == transfer.written + match transfer.flushed(chunk) {
            Some(bytes) => bytes,
            None => Seq::empty(),
        },
{
    let after = transfer.after_push(chunk);
    if transfer.fills(chunk) {
        assert(after.written + after.pending =~= (transfer.written + transfer.pending) + chunk);
    } else {
        assert(after.written + after.pending =~= (transfer.written + transfer.pending) + chunk);
        assert(transfer.written + Seq::<u8>::empty() =~= transfer.written);
    }
}

/// What to do next for one download.
#[derive(Debug)]
pub enum Attempt {
    /// Fetch from this URL and report how it went.
    Fetch { url: String },
    /// The file has been fetched and has the expected digest.
    Done,
    /// Every peer has failed; these are the failures, one per peer, in the
    /// order in which the peers were tried.
    Failed { errors: MultiError<String> },
}

/// The mathematical value of an [`Attempt`].
pub enum AttemptStep {
    Fetch { url: Seq<char> },
    Done,
    Failed { errors: Seq<Seq<char>> },
}

impl View for Attempt {
    type V = AttemptStep;

    open spec fn view(&self) -> AttemptStep {
        match self {
            Attempt::Fetch { url } => AttemptStep::Fetch { url: url@ },
            Attempt::Done => AttemptStep::Done,
            Attempt::Failed { errors } => AttemptStep::Failed { errors: views(errors@) },
        }
    }
}

/// The mathematical value of a [`Failover`].
pub struct FailoverState {
    /// The digest that the file is to have.
    pub md5: Seq<char>,
    /// The URLs to try, in order.
    pub urls: Seq<Seq<char>>,
    /// The failures so far, one per URL tried.
    pub errors: Seq<Seq<char>>,
    /// The bytes of the attempt that succeeded, once one has.
    pub delivered: Option<Seq<u8>>,
}

impl FailoverState {
    /// What holds of every state that a download reaches: no more failures
    /// than URLs, and what was delivered has the expected digest.
    pub open spec fn wf(self) -> bool {
        &&& self.errors.len() <= self.urls.len()
        &&& self.delivered matches Some(bytes) ==> digest_of(bytes) == self.md5
    }

    /// Whether an attempt is under way.
    pub open spec fn fetching(self) -> bool {
        self.delivered is None && self.errors.len() < self.urls.len()
    }

    /// What is to be done in this state: nothing more after a success; else
    /// the next URL that has not been tried; else, with every URL tried and
    /// failed, the failure of the download.
    pub open spec fn pending(self) -> AttemptStep {
        if self.delivered is Some {
            AttemptStep::Done
        } else if self.errors.len() < self.urls.len() {
            AttemptStep::Fetch { url: self.urls[self.errors.len() as int] }
        } else {
            AttemptStep::Failed { errors: self.errors }
        }
    }

    /// The state after the attempt under way has delivered `bytes` with
    /// digest `digest`: a success where that is the expected digest, a
    /// failure of the attempt where it is not.
    pub open spec fn after_delivery(self, bytes: Seq<u8>, digest: Seq<char>) -> FailoverState {
        if !self.fetching() {
            self
        } else if digest == self.md5 {
            FailoverState { delivered: Some(bytes), ..self }
        } else {
            FailoverState {
                errors: self.errors.push(DownloadError::DigestMismatch.text()),
                ..self
            }
        }
    }

    /// The state after the attempt under way has failed with `error`.
    pub open spec fn after_failure(self, error: Seq<char>) -> FailoverState {
        if self.fetching() {
            FailoverState { errors: self.errors.push(error), ..self }
        } else {
            self
        }
    }
}

/// A copy of a list of strings.
fn copy_strings(list: &Vec<String>) -> (copy: Vec<String>)
    ensures
        views(copy@) == views(list@),
{
    let mut copy: Vec<String> = Vec::new();
    let mut i: usize = 0;
    while i < list.len()
        invariant
            i <= list.len(),
            views(copy@) == views(list@).take(i as int),
        decreases list.len() - i,
    {
        let ghost known = views(copy@);
        let item = list[i].clone();
        copy.push(item);
        assert(views(copy@) =~= known.push(item@));
        assert(views(list@).take(i + 1) =~= known.push(item@));
        i = i + 1;
    }
    assert(views(list@).take(i as int) =~= views(list@));
    copy
}

/// One download with failover: each peer is tried once, in rotation from the
/// action's starting peer, until one delivers the file.
pub struct Failover {
    md5: String,
    urls: Vec<String>,
    errors: Vec<String>,
    delivered: Option<Ghost<Seq<u8>>>,
}

impl View for Failover {
    type V = FailoverState;

    closed spec fn view(&self) -> FailoverState {
        FailoverState {
            md5: self.md5@,
            urls: views(self.urls@),
            errors: views(self.errors@),
            delivered: match self.delivered {
                Some(bytes) => Some(bytes@),
                None => None,
            },
        }
    }
}

impl Failover {
    #[verifier::type_invariant]
    spec fn inv(self) -> bool {
        self@.wf()
    }

    /// Starts the download of the file with digest `md5` from `peers`,
    /// beginning at peer `peer_id`.
    pub fn begin(peers: &Vec<String>, peer_id: usize, md5: &str) -> (failover: Self)
        ensures
            failover@ == (FailoverState {
                md5: md5@,
                urls: rotation(views(peers@), peer_id as nat, md5@),
                errors: Seq::empty(),
                delivered: None,
            }),
            failover@.wf(),
    {
        let ghost all = rotation(views(peers@), peer_id as nat, md5@);
        let mut source = DownloadURLs::new(md5, peers, peer_id);
        let mut urls: Vec<String> = Vec::new();
        loop
            invariant
                all == rotation(views(peers@), peer_id as nat, md5@),
                urls@.len() <= all.len(),
                views(urls@) == all.take(urls@.len() as int),
                source.remaining() == all.skip(urls@.len() as int),
            ensures
                views(urls@) == all,
            decreases all.len() - urls@.len(),
        {
            let ghost known = views(urls@);
            match source.next() {
                Some(url) => {
                    urls.push(url);
                    assert(views(urls@) =~= known.push(url@));
                    assert(views(urls@) =~= all.take(urls@.len() as int));
                    assert(all.skip(urls@.len() as int - 1).drop_first() =~= all.skip(
                        urls@.len() as int,
                    ));
                },
                None => {
                    assert(all.take(urls@.len() as int) =~= all);
                    break;
                },
            }
        }
        let failover = Failover {
            md5: String::from_str(md5),
            urls,
            errors: Vec::new(),
            delivered: None,
        };
        assert(views(failover.errors@) =~= Seq::<Seq<char>>::empty());
        failover
    }

    /// What is to be done now.
    pub fn step(&self) -> (attempt: Attempt)
        ensures
            attempt@ == self@.pending(),
            self@.wf(),
    {
        proof {
            use_type_invariant(self);
        }
        if self.delivered.is_some() {
            Attempt::Done
        } else if self.errors.len() < self.urls.len() {
            Attempt::Fetch { url: self.urls[self.errors.len()].clone() }
        } else {
            Attempt::Failed { errors: MultiError::new(copy_strings(&self.errors)) }
        }
    }

    /// Records that the attempt under way delivered a body, with the
    /// evidence of its digest. Where that is not the digest that the file is
    /// to have, the attempt counts as failed. Without an attempt under way
    /// nothing changes.
    pub fn succeeded(self, accepted: Accepted) -> (next: Self)
        ensures
            next@ == self@.after_delivery(accepted.bytes(), accepted.digest()),
            next@.wf(),
    {
        proof {
            use_type_invariant(&self);
        }
        let fetching = self.delivered.is_none() && self.errors.len() < self.urls.len();
        if !fetching {
            self
        } else if *accepted.md5() == self.md5 {
            Failover {
                md5: self.md5,
                urls: self.urls,
                errors: self.errors,
                delivered: Some(Ghost(accepted.bytes())),
            }
        } else {
            self.failed(DownloadError::DigestMismatch.message())
        }
    }

    /// Records that the attempt under way failed with `error`. Without an
    /// attempt under way nothing changes.
    pub fn failed(self, error: String) -> (next: Self)
        ensures
            next@ == self@.after_failure(error@),
            next@.wf(),
    {
        proof {
            use_type_invariant(&self);
        }
        if self.delivered.is_none() && self.errors.len() < self.urls.len() {
            let ghost known = views(self.errors@);
            let mut errors = self.errors;
            errors.push(error);
            assert(views(errors@) =~= known.push(error@));
            Failover { md5: self.md5, urls: self.urls, errors, delivered: None }
        } else {
            self
        }
    }
}

/// Integrity: a download is done only once bytes were delivered whose digest
/// is the expected one, and every step keeps it so.
pub proof fn law_done_means_expected_digest(
    state: FailoverState,
    bytes: Seq<u8>,
    digest: Seq<char>,
    error: Seq<char>,
)
    requires
        state.wf(),
        digest == digest_of(bytes),
    ensures
        state.pending() is Done ==> (state.delivered matches Some(delivered) && digest_of(
            delivered,
        ) == state.md5),
        state.after_delivery(bytes, digest).wf(),
        state.after_failure(error).wf(),
        state.after_delivery(bytes, digest).pending() is Done ==> state.pending() is Done
            || digest_of(bytes) == state.md5,
        state.after_failure(error).pending() is Done ==> state.pending() is Done,
{
}

/// Failover is exhaustive: a download is reported as failed only when no
/// attempt succeeded and every one of its URLs has failed, and a URL is
/// fetched only while fewer URLs have failed than there are.
pub proof fn law_failure_only_after_every_peer(state: FailoverState)
    requires
        state.wf(),
    ensures
        state.pending() is Failed <==> state.delivered is None && state.errors.len()
            == state.urls.len(),
        state.pending() is Fetch <==> state.fetching(),
        state.pending() is Done <==> state.delivered is Some,
{
}

/// What the executor is to do next.
#[derive(Debug)]
pub enum Dispatch {
    /// Start the action with this index and remember its task as the newest.
    Spawn { index: usize },
    /// Wait for the oldest task in flight, the one of the action with this
    /// index, and report how it ended.
    Await { index: usize },
    /// Nothing is left to do; `failure` holds the failures of the tasks that
    /// failed, in the order in which they were awaited, and is `None` where
    /// every task succeeded.
    Finish { failure: Option<MultiError<String>> },
}

/// The mathematical value of a [`Dispatch`].
pub enum DispatchStep {
    Spawn { index: nat },
    Await { index: nat },
    Finish { failure: Option<Seq<Seq<char>>> },
}

impl View for Dispatch {
    type V = DispatchStep;

    open spec fn view(&self) -> DispatchStep {
        match self {
            Dispatch::Spawn { index } => DispatchStep::Spawn { index: *index as nat },
            Dispatch::Await { index } => DispatchStep::Await { index: *index as nat },
            Dispatch::Finish { failure } => DispatchStep::Finish {
                failure: match failure {
                    Some(errors) => Some(views(errors@)),
                    None => None,
                },
            },
        }
    }
}

/// The mathematical value of a [`Dispatcher`].
pub struct Dispatching {
    /// The number of actions in the plan.
    pub total: nat,
    /// How many tasks may be in flight when another one is started.
    pub concurrency: nat,
    /// The index of the oldest action whose task has not been awaited.
    pub oldest: nat,
    /// The index of the next action to start.
    pub next: nat,
    /// The failures of the tasks awaited so far.
    pub errors: Seq<Seq<char>>,
}

impl Dispatching {
    /// The number of tasks that have been started and not yet awaited. They
    /// are the tasks of the actions `oldest`, ..., `next - 1`, oldest first.
    pub open spec fn in_flight(self) -> int {
        self.next - self.oldest
    }

    /// What holds of every state that dispatching reaches.
    pub open spec fn wf(self) -> bool {
        &&& self.oldest <= self.next <= self.total
        &&& self.in_flight() <= self.concurrency + 1
    }

    /// What is to be done in this state. With more tasks in flight than the
    /// bound allows, the oldest is awaited. Else the next action is started,
    /// unless a task has failed or no action is left; then the tasks in
    /// flight are awaited, oldest first, and the execution ends.
    pub open spec fn pending(self) -> DispatchStep {
        if self.in_flight() > self.concurrency {
            DispatchStep::Await { index: self.oldest }
        } else if self.errors.len() == 0 && self.next < self.total {
            DispatchStep::Spawn { index: self.next }
        } else if self.in_flight() > 0 {
            DispatchStep::Await { index: self.oldest }
        } else {
            DispatchStep::Finish {
                failure: if self.errors.len() == 0 {
                    None
                } else {
                    Some(self.errors)
                },
            }
        }
    }

    /// The state after the action that was to be started has been started.
    pub open spec fn after_spawn(self) -> Dispatching {
        if self.pending() is Spawn {
            Dispatching { next: self.next + 1, ..self }
        } else {
            self
        }
    }

    /// The state after the task that was to be awaited has ended with
    /// `failure`, `None` for a success.
    pub open spec fn after_join(self, failure: Option<Seq<char>>) -> Dispatching {
        if self.pending() is Await {
            Dispatching {
                oldest: self.oldest + 1,
                errors: match failure {
                    Some(error) => self.errors.push(error),
                    None => self.errors,
                },
                ..self
            }
        } else {
            self
        }
    }
}

/// The dispatch of a plan's actions with a bound on the tasks in flight.
pub struct Dispatcher {
    total: usize,
    concurrency: usize,
    oldest: usize,
    next: usize,
    errors: Vec<String>,
}

impl View for Dispatcher {
    type V = Dispatching;

    closed spec fn view(&self) -> Dispatching {
        Dispatching {
            total: self.total as nat,
            concurrency: self.concurrency as nat,
            oldest: self.oldest as nat,
            next: self.next as nat,
            errors: views(self.errors@),
        }
    }
}

impl Dispatcher {
    #[verifier::type_invariant]
    spec fn inv(self) -> bool {
        self@.wf()
    }

    /// The dispatch of `total` actions, none started yet.
    pub fn new(total: usize, concurrency: usize) -> (dispatcher: Self)
        ensures
            dispatcher@ == (Dispatching {
                total: total as nat,
                concurrency: concurrency as nat,
                oldest: 0,
                next: 0,
                errors: Seq::empty(),
            }),
            dispatcher@.wf(),
    {
        let dispatcher = Dispatcher { total, concurrency, oldest: 0, next: 0, errors: Vec::new() };
        assert(views(dispatcher.errors@) =~= Seq::<Seq<char>>::empty());
        dispatcher
    }

    /// What is to be done now.
    pub fn command(&self) -> (dispatch: Dispatch)
        ensures
            dispatch@ == self@.pending(),
            self@.wf(),
    {
        proof {
            use_type_invariant(self);
        }
        let in_flight = self.next - self.oldest;
        if in_flight > self.concurrency {
            Dispatch::Await { index: self.oldest }
        } else if self.errors.len() == 0 && self.next < self.total {
            Dispatch::Spawn { index: self.next }
        } else if in_flight > 0 {
            Dispatch::Await { index: self.oldest }
        } else if self.errors.len() == 0 {
            Dispatch::Finish { failure: None }
        } else {
            Dispatch::Finish { failure: Some(MultiError::new(copy_strings(&self.errors))) }
        }
    }

    /// Records that the action that was to be started has been started.
    /// Where no action was to be started nothing changes.
    pub fn spawned(self) -> (next: Self)
        ensures
            next@ == self@.after_spawn(),
            next@.wf(),
    {
        proof {
            use_type_invariant(&self);
        }
        let in_flight = self.next - self.oldest;
        if in_flight <= self.concurrency && self.errors.len() == 0 && self.next < self.total {
            Dispatcher {
                total: self.total,
                concurrency: self.concurrency,
                oldest: self.oldest,
                next: self.next + 1,
                errors: self.errors,
            }
        } else {
            self
        }
    }

    /// Records that the task that was to be awaited has ended, with
    /// `failure` if it failed. Where no task was to be awaited nothing
    /// changes.
    pub fn joined(self, failure: Option<String>) -> (next: Self)
        ensures
            next@ == self@.after_join(
                match failure {
                    Some(error) => Some(error@),
                    None => None,
                },
            ),
            next@.wf(),
    {
        proof {
            use_type_invariant(&self);
        }
        let in_flight = self.next - self.oldest;
        let spawning = in_flight <= self.concurrency && self.errors.len() == 0 && self.next
            < self.total;
        if in_flight > 0 && !spawning {
            let ghost known = views(self.errors@);
            let mut errors = self.errors;
            match failure {
                Some(error) => {
                    errors.push(error);
                    assert(views(errors@) =~= known.push(error@));
                },
                None => {},
            }
            Dispatcher {
                total: self.total,
                concurrency: self.concurrency,
                oldest: self.oldest + 1,
                next: self.next,
                errors,
            }
        } else {
            self
        }
    }
}

/// Backpressure: dispatching keeps its state well formed, so never more than
/// `concurrency + 1` tasks are in flight, and an action is started only
/// while at most `concurrency` tasks are in flight and no task has failed.
pub proof fn law_dispatch_is_bounded(state: Dispatching, failure: Option<Seq<char>>)
    requires
        state.wf(),
    ensures
        state.after_spawn().wf(),
        state.after_join(failure).wf(),
        state.pending() is Spawn ==> state.in_flight() <= state.concurrency && state.errors.len()
            == 0,
{
}

/// Every task is awaited: the execution ends only when every action that
/// was started has been awaited, and it ends as a failure exactly if a task
/// has failed; without a failure every action has then been started.
pub proof fn law_dispatch_awaits_every_task(state: Dispatching)
    requires
        state.wf(),
    ensures
        state.pending() matches DispatchStep::Finish { failure } ==> state.in_flight() == 0 && (
        failure is Some <==> state.errors.len() > 0) && (failure is None ==> state.next
            == state.total),
{
}

/// Dispatching ends: every step that is carried out brings the end nearer.
pub proof fn law_dispatch_progresses(state: Dispatching, failure: Option<Seq<char>>)
    requires
        state.wf(),
    ensures
        state.pending() is Spawn ==> dispatch_distance(state.after_spawn()) < dispatch_distance(
            state,
        ),
        state.pending() is Await ==> dispatch_distance(state.after_join(failure))
            < dispatch_distance(state),
{
}

/// How many steps are left at most: two for every action not started, one
/// for every task in flight.
pub open spec fn dispatch_distance(state: Dispatching) -> int {
    2 * (state.total - state.next) + state.in_flight()
}

} // verus!
