//! The multiplexed tee engine: per-source stream buffers, line-boundary
//! detection, batched fan-out and the log-retention decision.
//!
//! The engine is event-driven: the surrounding binary performs the readiness
//! wait and the raw reads and writes, and feeds what it read into
//! [`TeeEngine::on_data`] / [`TeeEngine::on_eof`]; the returned actions say
//! what must be written where.

use vstd::prelude::*;
use vstd::pervasive::VecAdditionalExecFns;

verus! {

/// The line terminator byte (`\n`).
pub const NL: u8 = 10;

/// Initial (and minimum) capacity of a stream buffer, in bytes.
pub const INITIAL_BUF_LEN: usize = 32768;

/// Whether `s` holds at least one line terminator.
pub open spec fn has_nl(s: Seq<u8>) -> bool {
    exists|i: int| 0 <= i < s.len() && s[i] == NL
}

/// Index of the last line terminator of `s`, or `-1` when there is none.
pub open spec fn last_nl(s: Seq<u8>) -> int
    decreases s.len(),
{
    if s.len() == 0 {
        -1
    } else if s[s.len() - 1] == NL {
        s.len() - 1
    } else {
        last_nl(s.drop_last())
    }
}

/// Where the last terminator of `s` sits: a valid index pointing at a
/// terminator with none after it, or `-1` when `s` has none.
pub proof fn lemma_last_nl(s: Seq<u8>)
    ensures
        has_nl(s) <==> 0 <= last_nl(s),
        -1 <= last_nl(s) < s.len(),
        0 <= last_nl(s) ==> s[last_nl(s)] == NL,
        forall|j: int| last_nl(s) < j < s.len() ==> s[j] != NL,
    decreases s.len(),
{
    if s.len() == 0 {
        assert(!has_nl(s));
    } else if s[s.len() - 1] == NL {
        assert(has_nl(s));
    } else {
        let d = s.drop_last();
        lemma_last_nl(d);
        assert(forall|j: int| 0 <= j < d.len() ==> d[j] == s[j]);
        if has_nl(s) {
            let i = choose|i: int| 0 <= i < s.len() && s[i] == NL;
            assert(i < s.len() - 1);
            assert(d[i] == NL);
            assert(has_nl(d));
        }
        if has_nl(d) {
            let i = choose|i: int| 0 <= i < d.len() && d[i] == NL;
            assert(s[i] == NL);
            assert(has_nl(s));
        }
        assert forall|j: int| last_nl(s) < j < s.len() implies s[j] != NL by {
            if j < s.len() - 1 {
                assert(d[j] != NL);
            }
        }
    }
}

/// If `i` points at a terminator and none follows it, then `i` is the last one.
pub proof fn lemma_last_nl_is(s: Seq<u8>, i: int)
    requires
        0 <= i < s.len(),
        s[i] == NL,
        forall|j: int| i < j < s.len() ==> s[j] != NL,
    ensures
        last_nl(s) == i,
    decreases s.len(),
{
    if i == s.len() - 1 {
    } else {
        let d = s.drop_last();
        assert(forall|j: int| 0 <= j < d.len() ==> d[j] == s[j]);
        lemma_last_nl_is(d, i);
    }
}

/// The batch that a read completes: everything up to and including the last
/// terminator of the newly read `chunk`, prefixed by the bytes already
/// pending; empty when the chunk holds no terminator.
pub open spec fn flush_of(pending: Seq<u8>, chunk: Seq<u8>) -> Seq<u8> {
    if has_nl(chunk) {
        pending + chunk.take(last_nl(chunk) + 1)
    } else {
        Seq::empty()
    }
}

/// What stays pending after a read: the unterminated tail of the chunk, or
/// everything when the chunk completed no line.
pub open spec fn rest_of(pending: Seq<u8>, chunk: Seq<u8>) -> Seq<u8> {
    if has_nl(chunk) {
        chunk.skip(last_nl(chunk) + 1)
    } else {
        pending + chunk
    }
}

/// Relies on memchr::memrchr: the index of the last occurrence of `needle`
/// in `haystack`, or `None` when it does not occur.
pub assume_specification[ memchr::memrchr ](needle: u8, haystack: &[u8]) -> (r: Option<usize>)
    ensures
        match r {
            Some(i) => i < haystack@.len() && haystack@[i as int] == needle
                && forall|j: int| i < j < haystack@.len() ==> haystack@[j] != needle,
            None => forall|j: int| 0 <= j < haystack@.len() ==> haystack@[j] != needle,
        },
;

/// Relies on Vec::shrink_to: it only gives spare allocation back and leaves
/// the contents untouched.
#[verifier::external_body]
fn shrink_allocation(v: &mut Vec<u8>, min_cap: usize)
    ensures
        final(v)@ == old(v)@,
{
    v.shrink_to(min_cap);
}

/// Capacity after the buffer had to grow: doubled, saturating at the largest
/// representable size.
pub open spec fn grown_cap(c: int) -> int {
    if 2 * c <= usize::MAX {
        2 * c
    } else {
        usize::MAX as int
    }
}

/// Capacity once traffic subsides below the initial capacity: back down to
/// the initial capacity; while more than that is still pending (one long
/// unterminated line), the capacity stays where it grew to, so the next
/// read always has room.
pub open spec fn settled_cap(len: int, cap: int) -> int {
    if len >= INITIAL_BUF_LEN {
        cap
    } else {
        INITIAL_BUF_LEN as int
    }
}

/// What one read asks of the caller.
pub struct AbsorbOutcome {
    /// The completed lines to hand to every sink, as one single write,
    /// if this read completed any.
    pub batch: Option<Vec<u8>>,
    /// The read filled the buffer to capacity: read again immediately
    /// instead of waiting for a new readiness notification.
    pub refill: bool,
}

/// One source's append-only accumulator for bytes after the last flushed
/// line boundary.
pub struct StreamBuffer {
    bytes: Vec<u8>,
    cap: usize,
}

impl StreamBuffer {
    /// Bytes read but not yet flushed.
    pub closed spec fn pending(self) -> Seq<u8> {
        self.bytes@
    }

    /// Logical capacity: how many bytes may accumulate before the buffer
    /// grows.
    pub closed spec fn cap(self) -> int {
        self.cap as int
    }

    /// Pending bytes never hold a terminator (a terminator is always flushed
    /// by the read that brings it in), and they fit the capacity.
    pub closed spec fn wf(self) -> bool {
        &&& !has_nl(self.bytes@)
        &&& INITIAL_BUF_LEN <= self.cap
        &&& self.bytes@.len() <= self.cap
    }

    pub fn new() -> (b: StreamBuffer)
        ensures
            b.wf(),
            b.pending() == Seq::<u8>::empty(),
            b.cap() == INITIAL_BUF_LEN,
    {
        StreamBuffer { bytes: Vec::with_capacity(INITIAL_BUF_LEN), cap: INITIAL_BUF_LEN }
    }

    /// How many bytes the next read may deliver at most.
    pub fn spare(&self) -> (n: usize)
        requires
            self.wf(),
        ensures
            n == self.cap() - self.pending().len(),
    {
        self.cap - self.bytes.len()
    }

    /// Take in one read's bytes: append them, split off the batch completed
    /// by the last terminator among them (if any), and settle the capacity.
    pub fn absorb(&mut self, chunk: &Vec<u8>) -> (r: AbsorbOutcome)
        requires
            old(self).wf(),
            chunk@.len() <= old(self).cap() - old(self).pending().len(),
        ensures
            final(self).wf(),
            final(self).pending() == rest_of(old(self).pending(), chunk@),
            r.batch is Some <==> has_nl(chunk@),
            (r.batch matches Some(b) ==> b@ == flush_of(old(self).pending(), chunk@)),
            r.refill <==> old(self).pending().len() + chunk@.len() >= old(self).cap(),
            final(self).cap() == if r.refill {
                grown_cap(old(self).cap())
            } else {
                settled_cap(rest_of(old(self).pending(), chunk@).len() as int, old(self).cap())
            },
    {
        let old_len = self.bytes.len();
        self.bytes.extend_from_slice(chunk.as_slice());
        proof {
            assert(self.bytes@ =~= old(self).bytes@ + chunk@);
        }

        let mut batch: Option<Vec<u8>> = None;
        match memchr::memrchr(NL, chunk.as_slice()) {
            Some(idx) => {
                proof {
                    lemma_last_nl_is(chunk@, idx as int);
                    assert(has_nl(chunk@)) by {
                        assert(chunk@[idx as int] == NL);
                    }
                }
                let cut = old_len + idx + 1;
                let mut head = self.bytes.split_off(cut);
                core::mem::swap(&mut self.bytes, &mut head);
                proof {
                    assert(head@ =~= flush_of(old(self).pending(), chunk@));
                    assert(self.bytes@ =~= rest_of(old(self).pending(), chunk@));
                }
                batch = Some(head);
            }
            None => {
                proof {
                    assert(!has_nl(chunk@)) by {
                        if has_nl(chunk@) {
                            let i = choose|i: int| 0 <= i < chunk@.len() && chunk@[i] == NL;
                            assert(chunk@[i] == NL);
                        }
                    }
                    assert(self.bytes@ == rest_of(old(self).pending(), chunk@));
                    assert(!has_nl(self.bytes@)) by {
                        if has_nl(self.bytes@) {
                            let i = choose|i: int|
                                0 <= i < self.bytes@.len() && self.bytes@[i] == NL;
                            if i < old(self).bytes@.len() {
                                assert(old(self).bytes@[i] == NL);
                            } else {
                                assert(chunk@[i - old(self).bytes@.len()] == NL);
                            }
                        }
                    }
                }
            }
        }

        let refill: bool;
        if old_len + chunk.len() >= self.cap {
            self.cap = if self.cap <= usize::MAX / 2 {
                self.cap * 2
            } else {
                usize::MAX
            };
            refill = true;
        } else {
            if self.bytes.len() < INITIAL_BUF_LEN {
                self.cap = INITIAL_BUF_LEN;
            }
            shrink_allocation(&mut self.bytes, INITIAL_BUF_LEN);
            refill = false;
        }
        AbsorbOutcome { batch, refill }
    }

    /// Surrender the pending bytes (the final, possibly unterminated line).
    pub fn take_pending(self) -> (v: Vec<u8>)
        ensures
            v@ == self.pending(),
    {
        self.bytes
    }
}

/// What the caller must do after feeding one read's bytes in.
pub struct DataActions {
    /// Announce the log file's location: set exactly on the first batch
    /// flush of the whole run, before the batch is written.
    pub announce: bool,
    /// The completed lines, to be written to the source's mirror sink and to
    /// the log sink, one single write per sink. A mirror write that fails
    /// because the peer closed the pipe is ignored; every other sink failure
    /// is fatal.
    pub batch: Option<Vec<u8>>,
    /// The read filled the source's buffer: read the same source again
    /// immediately instead of waiting for readiness.
    pub refill: bool,
}

/// What the caller must do once every source reached end-of-stream.
pub struct FinishActions {
    /// Per source, the residual (possibly unterminated) bytes: each is
    /// written to that source's mirror sink.
    pub residues: Vec<Vec<u8>>,
    /// Whether the log file holds anything: if so, the residues are also
    /// written to it and it stays; otherwise it is deleted.
    pub keep_log: bool,
}

/// The run state of one tee: one buffer per source, the count of sources
/// that have not reached end-of-stream, and whether anything was ever
/// flushed to the log.
pub struct TeeEngine {
    bufs: Vec<StreamBuffer>,
    active: usize,
    written_any: bool,
    logged: Ghost<Seq<u8>>,
}

impl TeeEngine {
    pub closed spec fn wf(self) -> bool {
        &&& forall|i: int| 0 <= i < self.bufs@.len() ==> self.bufs@[i].wf()
        &&& self.active <= self.bufs@.len()
    }

    /// How many sources the engine was built with.
    pub closed spec fn sources(self) -> int {
        self.bufs@.len() as int
    }

    /// How many sources have not yet reached end-of-stream.
    pub closed spec fn active_sources(self) -> int {
        self.active as int
    }

    /// Bytes of source `i` read but not yet flushed.
    pub closed spec fn pending_of(self, i: int) -> Seq<u8> {
        self.bufs@[i].pending()
    }

    /// Logical buffer capacity of source `i`.
    pub closed spec fn cap_of(self, i: int) -> int {
        self.bufs@[i].cap()
    }

    /// Whether any batch was ever flushed in this run.
    pub closed spec fn wrote_any(self) -> bool {
        self.written_any
    }

    /// Everything the log sink has received from batch flushes so far, in
    /// the order the engine handed it out.
    pub closed spec fn logged(self) -> Seq<u8> {
        self.logged@
    }

    pub fn new(n_sources: usize) -> (e: TeeEngine)
        ensures
            e.wf(),
            e.sources() == n_sources,
            e.active_sources() == n_sources,
            !e.wrote_any(),
            e.logged() == Seq::<u8>::empty(),
            forall|i: int| 0 <= i < n_sources ==> e.pending_of(i) == Seq::<u8>::empty(),
            forall|i: int| 0 <= i < n_sources ==> e.cap_of(i) == INITIAL_BUF_LEN,
    {
        let mut bufs: Vec<StreamBuffer> = Vec::new();
        let mut i: usize = 0;
        while i < n_sources
            invariant
                i <= n_sources,
                bufs@.len() == i,
                forall|j: int| 0 <= j < i ==> bufs@[j].wf(),
                forall|j: int| 0 <= j < i ==> bufs@[j].pending() == Seq::<u8>::empty(),
                forall|j: int| 0 <= j < i ==> bufs@[j].cap() == INITIAL_BUF_LEN,
            decreases n_sources - i,
        {
            bufs.push(StreamBuffer::new());
            i = i + 1;
        }
        TeeEngine { bufs, active: n_sources, written_any: false, logged: Ghost(Seq::empty()) }
    }

    /// How many bytes the next read of source `src` may deliver at most.
    pub fn read_hint(&self, src: usize) -> (n: usize)
        requires
            self.wf(),
            src < self.sources(),
        ensures
            n == self.cap_of(src as int) - self.pending_of(src as int).len(),
    {
        self.bufs[src].spare()
    }

    /// A readiness-triggered read of source `src` delivered `chunk`
    /// (non-empty reads only: an empty read is end-of-stream, `on_eof`).
    pub fn on_data(&mut self, src: usize, chunk: &Vec<u8>) -> (r: DataActions)
        requires
            old(self).wf(),
            src < old(self).sources(),
            chunk@.len() <= old(self).cap_of(src as int) - old(self).pending_of(src as int).len(),
        ensures
            final(self).wf(),
            final(self).sources() == old(self).sources(),
            final(self).active_sources() == old(self).active_sources(),
            final(self).pending_of(src as int)
                == rest_of(old(self).pending_of(src as int), chunk@),
            forall|j: int|
                0 <= j < old(self).sources() && j != src ==> final(self).pending_of(j)
                    == old(self).pending_of(j),
            forall|j: int|
                0 <= j < old(self).sources() && j != src ==> final(self).cap_of(j)
                    == old(self).cap_of(j),
            r.batch is Some <==> has_nl(chunk@),
            (r.batch matches Some(b) ==> b@ == flush_of(old(self).pending_of(src as int), chunk@)),
            r.announce <==> has_nl(chunk@) && !old(self).wrote_any(),
            final(self).wrote_any() == (old(self).wrote_any() || has_nl(chunk@)),
            final(self).logged() == old(self).logged() + flush_of(
                old(self).pending_of(src as int),
                chunk@,
            ),
            r.refill <==> old(self).pending_of(src as int).len() + chunk@.len()
                >= old(self).cap_of(src as int),
            final(self).cap_of(src as int) == if r.refill {
                grown_cap(old(self).cap_of(src as int))
            } else {
                settled_cap(
                    rest_of(old(self).pending_of(src as int), chunk@).len() as int,
                    old(self).cap_of(src as int),
                )
            },
    {
        let ghost p0 = self.bufs@[src as int].pending();
        let mut buf = StreamBuffer::new();
        self.bufs.set_and_swap(src, &mut buf);
        let out = buf.absorb(chunk);
        self.bufs.set_and_swap(src, &mut buf);
        self.logged = Ghost(self.logged@ + flush_of(p0, chunk@));
        let announce = out.batch.is_some() && !self.written_any;
        if out.batch.is_some() {
            self.written_any = true;
        }
        DataActions { announce, batch: out.batch, refill: out.refill }
    }

    /// A read of source `src` returned zero bytes: the source is exhausted.
    /// Its unterminated remainder stays pending for the final flush.
    pub fn on_eof(&mut self, src: usize)
        requires
            old(self).wf(),
            src < old(self).sources(),
            old(self).active_sources() > 0,
        ensures
            final(self).wf(),
            final(self).sources() == old(self).sources(),
            final(self).active_sources() == old(self).active_sources() - 1,
            final(self).wrote_any() == old(self).wrote_any(),
            final(self).logged() == old(self).logged(),
            forall|j: int|
                0 <= j < old(self).sources() ==> final(self).pending_of(j)
                    == old(self).pending_of(j),
            forall|j: int|
                0 <= j < old(self).sources() ==> final(self).cap_of(j) == old(self).cap_of(j),
    {
        self.active = self.active - 1;
    }

    /// Whether every source has reached end-of-stream.
    pub fn is_done(&self) -> (r: bool)
        ensures
            r <==> self.active_sources() == 0,
    {
        self.active == 0
    }

    /// The final flush: every source's residual bytes, and whether the log
    /// file is to be kept.
    pub fn finish(self) -> (r: FinishActions)
        requires
            self.wf(),
        ensures
            r.residues@.len() == self.sources(),
            forall|i: int| 0 <= i < self.sources() ==> r.residues@[i]@ == self.pending_of(i),
            r.keep_log == self.wrote_any(),
    {
        let TeeEngine { mut bufs, active: _, written_any, logged: _ } = self;
        let ghost gbufs = bufs@;
        let mut residues: Vec<Vec<u8>> = Vec::new();
        let n = bufs.len();
        let mut i: usize = 0;
        while i < n
            invariant
                i <= n,
                n == gbufs.len(),
                bufs@.len() == n,
                forall|j: int| i <= j < n ==> bufs@[j] == gbufs[j],
                residues@.len() == i,
                forall|j: int| 0 <= j < i ==> residues@[j]@ == gbufs[j].pending(),
            decreases n - i,
        {
            let mut b = StreamBuffer::new();
            bufs.set_and_swap(i, &mut b);
            residues.push(b.take_pending());
            i = i + 1;
        }
        FinishActions { residues, keep_log: written_any }
    }
}

/// All bytes a source delivered, in order, over a whole run.
pub open spec fn concat_all(chunks: Seq<Seq<u8>>) -> Seq<u8>
    decreases chunks.len(),
{
    if chunks.len() == 0 {
        Seq::empty()
    } else {
        concat_all(chunks.drop_last()) + chunks.last()
    }
}

/// What stays pending after a source absorbed every chunk of a run, in order.
pub open spec fn run_rest(chunks: Seq<Seq<u8>>) -> Seq<u8>
    decreases chunks.len(),
{
    if chunks.len() == 0 {
        Seq::empty()
    } else {
        rest_of(run_rest(chunks.drop_last()), chunks.last())
    }
}

/// Everything a source's sinks received from batch flushes over a whole run,
/// in order.
pub open spec fn run_flushed(chunks: Seq<Seq<u8>>) -> Seq<u8>
    decreases chunks.len(),
{
    if chunks.len() == 0 {
        Seq::empty()
    } else {
        run_flushed(chunks.drop_last()) + flush_of(run_rest(chunks.drop_last()), chunks.last())
    }
}

/// One read conserves and orders the bytes: the flushed batch followed by
/// the new pending tail is exactly the old pending bytes followed by the
/// chunk; the tail never holds a terminator; a non-empty batch always ends
/// with one — and a batch is non-empty exactly when the chunk completed a
/// line.
pub proof fn lemma_absorb_partition(pending: Seq<u8>, chunk: Seq<u8>)
    requires
        !has_nl(pending),
    ensures
        flush_of(pending, chunk) + rest_of(pending, chunk) == pending + chunk,
        !has_nl(rest_of(pending, chunk)),
        flush_of(pending, chunk).len() > 0 <==> has_nl(chunk),
        flush_of(pending, chunk).len() > 0 ==> flush_of(pending, chunk).last() == NL,
{
    lemma_last_nl(chunk);
    if has_nl(chunk) {
        let l = last_nl(chunk);
        assert(flush_of(pending, chunk) + rest_of(pending, chunk) =~= pending + chunk);
        let sk = chunk.skip(l + 1);
        assert(!has_nl(sk)) by {
            if has_nl(sk) {
                let i = choose|i: int| 0 <= i < sk.len() && sk[i] == NL;
                assert(chunk[i + l + 1] == NL);
            }
        }
        assert(flush_of(pending, chunk).last() == chunk[l]);
    } else {
        assert(flush_of(pending, chunk) + rest_of(pending, chunk) =~= pending + chunk);
        assert(!has_nl(pending + chunk)) by {
            if has_nl(pending + chunk) {
                let i = choose|i: int|
                    0 <= i < (pending + chunk).len() && (pending + chunk)[i] == NL;
                if i < pending.len() {
                    assert(pending[i] == NL);
                } else {
                    assert(chunk[i - pending.len()] == NL);
                }
            }
        }
    }
}

/// Line-order delivery: over any run, whatever the chunk boundaries, the
/// batches flushed to a source's sinks followed by the residual final flush
/// are exactly the bytes the source delivered, in order; every batch flush
/// ends at a line boundary; and the residue holds no terminator — so the
/// sinks receive exactly the terminated lines, in order, and then the
/// unterminated remainder.
pub proof fn lemma_stream_reassembly(chunks: Seq<Seq<u8>>)
    ensures
        run_flushed(chunks) + run_rest(chunks) == concat_all(chunks),
        !has_nl(run_rest(chunks)),
        run_flushed(chunks).len() > 0 ==> run_flushed(chunks).last() == NL,
    decreases chunks.len(),
{
    if chunks.len() == 0 {
        assert(run_flushed(chunks) + run_rest(chunks) =~= concat_all(chunks));
    } else {
        let d = chunks.drop_last();
        let c = chunks.last();
        lemma_stream_reassembly(d);
        lemma_absorb_partition(run_rest(d), c);
        let fl = flush_of(run_rest(d), c);
        let re = rest_of(run_rest(d), c);
        assert((run_flushed(d) + fl) + re =~= run_flushed(d) + (fl + re));
        assert(run_flushed(d) + (run_rest(d) + c) =~= (run_flushed(d) + run_rest(d)) + c);
        assert(run_flushed(chunks) + run_rest(chunks) == concat_all(chunks));
        let f = flush_of(run_rest(d), c);
        if f.len() > 0 {
            assert(run_flushed(chunks).last() == f.last());
        } else {
            assert(run_flushed(chunks) =~= run_flushed(d));
        }
    }
}

/// A run is flushed to the log at some point if and only if some byte of the
/// run is a line terminator. In particular, a source that delivers nothing
/// (or only an unterminated fragment) triggers no batch flush at all.
pub proof fn lemma_flush_iff_terminator(chunks: Seq<Seq<u8>>)
    ensures
        run_flushed(chunks).len() > 0 <==> has_nl(concat_all(chunks)),
    decreases chunks.len(),
{
    lemma_stream_reassembly(chunks);
    if run_flushed(chunks).len() > 0 {
        let rf = run_flushed(chunks);
        let ca = concat_all(chunks);
        assert(ca[rf.len() - 1] == rf.last());
        assert(has_nl(ca)) by {
            assert(ca[rf.len() - 1] == NL);
        }
    }
    if has_nl(concat_all(chunks)) && run_flushed(chunks).len() == 0 {
        let ca = concat_all(chunks);
        let i = choose|i: int| 0 <= i < ca.len() && ca[i] == NL;
        assert(run_rest(chunks)[i] == NL);
    }
}

/// A silent run — every source signals end-of-stream having delivered
/// nothing — flushes nothing and leaves nothing for the final flush; with
/// [`TeeEngine::finish`] reporting `keep_log` false, the log file is
/// deleted and no sink receives a byte.
pub proof fn lemma_silent_run(chunks: Seq<Seq<u8>>)
    requires
        forall|i: int| 0 <= i < chunks.len() ==> chunks[i].len() == 0,
    ensures
        run_flushed(chunks).len() == 0,
        run_rest(chunks).len() == 0,
    decreases chunks.len(),
{
    if chunks.len() > 0 {
        let d = chunks.drop_last();
        assert(forall|i: int| 0 <= i < d.len() ==> d[i].len() == 0);
        lemma_silent_run(d);
        assert(chunks.last().len() == 0);
        assert(!has_nl(chunks.last()));
    }
}

/// Batched fan-out: a single read that completes any number of lines causes
/// exactly one batch — it carries every terminator seen so far, nothing
/// stays behind for a second write, and it ends at the last terminator of
/// the read.
pub proof fn lemma_single_batch_per_read(pending: Seq<u8>, chunk: Seq<u8>)
    requires
        !has_nl(pending),
        has_nl(chunk),
    ensures
        flush_of(pending, chunk) == pending + chunk.take(last_nl(chunk) + 1),
        !has_nl(rest_of(pending, chunk)),
        flush_of(pending, chunk).last() == NL,
{
    lemma_absorb_partition(pending, chunk);
}

/// One data event of a whole run: which source was read, and what it
/// delivered.
pub struct DataEvent {
    pub src: int,
    pub chunk: Seq<u8>,
}

/// The chunks of a run's events, in order.
pub open spec fn chunks_of(events: Seq<DataEvent>) -> Seq<Seq<u8>>
    decreases events.len(),
{
    if events.len() == 0 {
        Seq::empty()
    } else {
        chunks_of(events.drop_last()).push(events.last().chunk)
    }
}

/// The pending bytes of source `i` after a run of data events (the model of
/// `pending_of` under repeated `on_data` calls).
pub open spec fn pending_after(events: Seq<DataEvent>, i: int) -> Seq<u8>
    decreases events.len(),
{
    if events.len() == 0 {
        Seq::empty()
    } else {
        let p = pending_after(events.drop_last(), i);
        if events.last().src == i {
            rest_of(p, events.last().chunk)
        } else {
            p
        }
    }
}

/// Everything the log sink receives from batch flushes over a run of data
/// events, in order (the model of `logged` under repeated `on_data` calls).
pub open spec fn logged_after(events: Seq<DataEvent>) -> Seq<u8>
    decreases events.len(),
{
    if events.len() == 0 {
        Seq::empty()
    } else {
        logged_after(events.drop_last()) + flush_of(
            pending_after(events.drop_last(), events.last().src),
            events.last().chunk,
        )
    }
}

/// Capture restricted to one stream: when every data event of a run names
/// the same source — as when stream selection admits stdout only, so that
/// stderr is never registered with the multiplexer — the log receives
/// exactly that source's terminated lines, in order, and that source's
/// remainder completes them to exactly the bytes it delivered. A stream
/// that produces no event contributes no byte, flushed or residual.
pub proof fn lemma_log_single_source(events: Seq<DataEvent>, i: int)
    requires
        forall|k: int| 0 <= k < events.len() ==> events[k].src == i,
    ensures
        logged_after(events) == run_flushed(chunks_of(events)),
        pending_after(events, i) == run_rest(chunks_of(events)),
        logged_after(events) + pending_after(events, i) == concat_all(chunks_of(events)),
    decreases events.len(),
{
    if events.len() == 0 {
    } else {
        let d = events.drop_last();
        assert(forall|k: int| 0 <= k < d.len() ==> d[k] == events[k]);
        lemma_log_single_source(d, i);
        assert(chunks_of(events).drop_last() =~= chunks_of(d));
        assert(events.last().src == i);
    }
    lemma_stream_reassembly(chunks_of(events));
}

/// A stream that is never read — never registered, or registered and
/// always silent — leaves nothing pending: the final flush writes not a
/// byte of it anywhere.
pub proof fn lemma_absent_source_pending(events: Seq<DataEvent>, j: int)
    requires
        forall|k: int| 0 <= k < events.len() ==> events[k].src != j,
    ensures
        pending_after(events, j) == Seq::<u8>::empty(),
    decreases events.len(),
{
    if events.len() > 0 {
        let d = events.drop_last();
        assert(forall|k: int| 0 <= k < d.len() ==> d[k] == events[k]);
        lemma_absent_source_pending(d, j);
    }
}

} // verus!
