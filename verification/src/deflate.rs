use vstd::prelude::*;

use crate::codec::{decode_from, lemma_run_len_bound, lemma_run_len_exact, run_copy, run_len};
use crate::error::Error;
use crate::header::{header_bytes, Yaz0Header};

verus! {

/// The packet arena used while a group is assembled. Eight packets of at
/// most three bytes each fit in 24 bytes.
#[verifier::external_type_specification]
#[verifier::external_body]
#[verifier::reject_recursive_types(T)]
pub struct ExArrayVec<T, const CAP: usize>(arrayvec::ArrayVec<T, CAP>);

/// The bytes a packet arena holds, oldest first.
pub uninterp spec fn packet_buf(v: arrayvec::ArrayVec<u8, 24>) -> Seq<u8>;

/// Relies on arrayvec::ArrayVec::new: a freshly created vector is empty.
#[verifier::external_body]
fn packet_buf_new() -> (v: arrayvec::ArrayVec<u8, 24>)
    ensures
        packet_buf(v) == Seq::<u8>::empty(),
{
    arrayvec::ArrayVec::new()
}

/// Relies on arrayvec::ArrayVec::push, which appends one element at the
/// end; pushing past the capacity of 24 would panic, so that is excluded.
#[verifier::external_body]
fn packet_buf_push(v: &mut arrayvec::ArrayVec<u8, 24>, b: u8)
    requires
        packet_buf(*old(v)).len() < 24,
    ensures
        packet_buf(*final(v)) == packet_buf(*old(v)).push(b),
{
    v.push(b)
}

/// Relies on arrayvec::ArrayVec::as_slice, which returns all held elements
/// oldest first, and on Vec::extend_from_slice, which appends them.
#[verifier::external_body]
fn extend_from_packet_buf(out: &mut Vec<u8>, v: &arrayvec::ArrayVec<u8, 24>)
    ensures
        final(out)@ == old(out)@ + packet_buf(*v),
{
    out.extend_from_slice(v.as_slice())
}

/// Represents a compression run of length `length` starting at `cursor`.
#[derive(Debug, Clone, Copy, PartialEq, Eq, Structural)]
pub struct Run {
    pub cursor: usize,
    pub length: usize,
}

impl Run {
    /// Returns a run of zero length starting at position 0.
    pub fn zero() -> (r: Run)
        ensures
            r == (Run { cursor: 0usize, length: 0usize }),
    {
        Run { cursor: 0, length: 0 }
    }

    /// Returns `self` unless `other` is a longer run, in which case it
    /// returns `other`. Ties keep `self`, so a scan that folds candidates
    /// in order keeps the earliest run of maximal length.
    pub fn swap_if_better(self, other: Run) -> (r: Run)
        ensures
            r == if other.length > self.length {
                other
            } else {
                self
            },
    {
        if other.length > self.length {
            other
        } else {
            self
        }
    }
}

/// Message sent by the compressor to inform other threads of the compression
/// progress.
#[derive(Debug, Clone, Copy, PartialEq, Eq, Structural)]
pub struct ProgressMsg {
    pub read_head: usize,
}

/// Represents the aggressiveness of lookback used by the compressor.
#[derive(Debug, Clone, Copy, PartialEq, Eq, Structural)]
pub enum CompressionLevel {
    Naive {
        /// Lookback aggressiveness. Set between 1 and 10; 10 corresponds to
        /// the greatest lookback distance.
        quality: usize,
    },
    Lookahead {
        /// Lookback aggressiveness. Set between 1 and 10; 10 corresponds to
        /// the greatest lookback distance.
        quality: usize,
    },
}

impl CompressionLevel {
    pub open spec fn quality(&self) -> usize {
        match *self {
            CompressionLevel::Naive { quality } => quality,
            CompressionLevel::Lookahead { quality } => quality,
        }
    }
}

// ---------------------------------------------------------------------------
// The back-reference search
// ---------------------------------------------------------------------------

/// The run a left-to-right scan over candidate start positions `lo..hi`
/// keeps for a match against the bytes at `cursor`: a later candidate
/// replaces an earlier one only when strictly longer, so the first
/// candidate of maximal match length wins.
pub open spec fn best_run(src: Seq<u8>, lo: int, hi: int, cursor: int) -> Run
    decreases hi - lo,
{
    if hi <= lo {
        Run { cursor: 0usize, length: 0usize }
    } else {
        let prev = best_run(src, lo, hi - 1, cursor);
        let cand = Run {
            cursor: (hi - 1) as usize,
            length: run_len(src, hi - 1, cursor) as usize,
        };
        if cand.length > prev.length {
            cand
        } else {
            prev
        }
    }
}

/// Start of the window that a search at `cursor` with lookback `lb` scans.
pub open spec fn window_start(cursor: int, lb: int) -> int {
    if cursor - lb >= 0 {
        cursor - lb
    } else {
        0
    }
}

/// The run that the naive search returns at `cursor`.
pub open spec fn naive_run(src: Seq<u8>, cursor: int, lb: int) -> Run {
    best_run(src, window_start(cursor, lb), cursor, cursor)
}

/// What the scan keeps is a true candidate of maximal length, and no run
/// can extend past the end of the input.
pub proof fn lemma_best_run_props(src: Seq<u8>, lo: int, hi: int, cursor: int)
    requires
        0 <= lo <= hi <= cursor <= src.len(),
        src.len() <= usize::MAX,
    ensures
        best_run(src, lo, hi, cursor).length > 0 ==> lo <= best_run(src, lo, hi, cursor).cursor
            < hi && best_run(src, lo, hi, cursor).length == run_len(
            src,
            best_run(src, lo, hi, cursor).cursor as int,
            cursor,
        ),
        forall|s: int|
            lo <= s < hi ==> #[trigger] run_len(src, s, cursor) <= best_run(
                src,
                lo,
                hi,
                cursor,
            ).length,
        best_run(src, lo, hi, cursor).length <= src.len() - cursor,
    decreases hi - lo,
{
    if hi <= lo {
    } else {
        lemma_best_run_props(src, lo, hi - 1, cursor);
        lemma_run_len_bound(src, hi - 1, cursor);
        assert(run_len(src, hi - 1, cursor) as usize == run_len(src, hi - 1, cursor));
    }
}

/// Naively looks back in the input stream, trying to find the longest
/// possible substring that matches the data after the current read cursor.
pub fn find_naive_run(src: &[u8], cursor: usize, lookback: usize) -> (r: Run)
    requires
        cursor <= src@.len(),
    ensures
        r == naive_run(src@, cursor as int, lookback as int),
{
    // the location which we start searching at, `lookback` bytes before the
    // current read cursor, clamped to the start of the input.
    let search_start = if cursor > lookback {
        cursor - lookback
    } else {
        0
    };

    // the best runlength we've seen so far, and where the match occurred.
    let mut run = Run::zero();

    let mut search_head = search_start;
    while search_head < cursor
        invariant
            cursor <= src@.len(),
            search_start as int == window_start(cursor as int, lookback as int),
            search_start <= search_head,
            search_head <= cursor,
            run == best_run(src@, search_start as int, search_head as int, cursor as int),
        decreases cursor - search_head,
    {
        // incremental check for every possible substring after the read head.
        let mut runlength: usize = 0;
        while runlength < src.len() - cursor && src[search_head + runlength] == src[cursor
            + runlength]
            invariant
                search_head < cursor <= src@.len(),
                runlength <= src@.len() - cursor,
                forall|i: int|
                    0 <= i < runlength ==> #[trigger] src@[search_head + i] == src@[cursor + i],
            decreases src@.len() - cursor - runlength,
        {
            runlength = runlength + 1;
        }
        proof {
            lemma_run_len_exact(src@, search_head as int, cursor as int, runlength as nat);
        }

        // if this search position was better than we've seen before, update
        // our best run.
        run = run.swap_if_better(Run { cursor: search_head, length: runlength });
        search_head = search_head + 1;
    }

    run
}

/// What the lookahead search returns: the naive run at `cursor`, unless that
/// run is worthwhile (length at least 3) and re-searching one byte further
/// finds a run at least two bytes longer; then the longer run, flagged so
/// that the caller first emits a literal for the byte at `cursor`.
pub open spec fn lookahead_choice(src: Seq<u8>, cursor: int, lb: int) -> (bool, Run) {
    let first = naive_run(src, cursor, lb);
    if first.length >= 3 && naive_run(src, cursor + 1, lb).length >= first.length + 2 {
        (true, naive_run(src, cursor + 1, lb))
    } else {
        (false, first)
    }
}

/// Looks back in the input stream, finding a naive run; if one is found, it
/// tries copying a single byte of that run and then finding a new one. If
/// that one is at least two bytes longer than the initial run, it picks it
/// instead and signals that the single byte must be copied first.
pub fn find_lookahead_run(src: &[u8], cursor: usize, lookback: usize) -> (r: (bool, Run))
    requires
        cursor < src@.len(),
    ensures
        r == lookahead_choice(src@, cursor as int, lookback as int),
{
    // pin the input length to a machine word, so that stepping the cursor
    // forward below cannot overflow
    let n = src.len();
    assert(cursor < n);

    // get the best naive run.
    let run = find_naive_run(src, cursor, lookback);

    // was this run worthwhile at all?
    if run.length >= 3 {
        // if we look forward a single byte and reencode, how does that look?
        let lookahead_run = find_naive_run(src, cursor + 1, lookback);

        // if it's +2 better than the original naive run, pick it.
        if lookahead_run.length >= 2 && lookahead_run.length - 2 >= run.length {
            return (true, lookahead_run);
        }
    }

    (false, run)
}

// ---------------------------------------------------------------------------
// Emitting packets
// ---------------------------------------------------------------------------

/// How far the read head advances when `run` is emitted: the run's length,
/// clipped to the longest length a three-byte packet can carry.
pub open spec fn run_advance(run: Run) -> int {
    if run.length >= 0x12 {
        if run.length >= 273 {
            273
        } else {
            run.length as int
        }
    } else {
        run.length as int
    }
}

/// The bytes of the packet that encodes `run` with the read cursor at
/// `read_head`: two bytes carrying `length - 2` in the top nibble for
/// lengths up to 17, otherwise three bytes whose zero top nibble is the
/// marker of the long shape.
pub open spec fn run_packet(read_head: int, run: Run) -> Seq<u8> {
    let dist = (read_head - run.cursor - 1) as u16;
    if run.length >= 0x12 {
        seq![(dist >> 8) as u8, (dist & 0xff) as u8, (run_advance(run) - 0x12) as u8]
    } else {
        seq![(((run.length - 2) as u8) << 4) | ((dist >> 8) as u8), (dist & 0xff) as u8]
    }
}

/// Read back, the packet bytes yield exactly the distance and advance they
/// were built from: the shape marker, the twelve distance bits, and the
/// length field all invert.
pub proof fn lemma_run_packet_decodes(read_head: int, run: Run)
    requires
        3 <= run.length,
        run.cursor < read_head,
        read_head - run.cursor <= 4096,
    ensures
        run_packet(read_head, run).len() == (if run.length >= 0x12 {
            3int
        } else {
            2int
        }),
        (run_packet(read_head, run)[0] & 0x0f) as int * 256 + run_packet(read_head, run)[1] as int
            == read_head - run.cursor - 1,
        run.length >= 0x12 ==> run_packet(read_head, run)[0] >> 4 == 0 && run_packet(
            read_head,
            run,
        )[2] as int + 0x12 == run_advance(run),
        run.length < 0x12 ==> run_packet(read_head, run)[0] >> 4 != 0 && (run_packet(
            read_head,
            run,
        )[0] >> 4) as int + 2 == run_advance(run),
        3 <= run_advance(run) <= 273,
        run_advance(run) <= run.length,
{
    let d = (read_head - run.cursor - 1) as u16;
    assert(d as int == read_head - run.cursor - 1);
    if run.length >= 0x12 {
        assert(((d >> 8) as u8) >> 4 == 0 && (((d >> 8) as u8) & 0x0f) == (d >> 8) as u8)
            by (bit_vector)
            requires
                d <= 0xfff,
        ;
        assert((((d >> 8) as u8) as u16) * 256 + (((d & 0xff) as u8) as u16) == d) by (bit_vector)
            requires
                d <= 0xfff,
        ;
    } else {
        let l = (run.length - 2) as u8;
        let b1 = (l << 4) | ((d >> 8) as u8);
        assert(b1 >> 4 == l && (b1 & 0x0f) == (d >> 8) as u8) by (bit_vector)
            requires
                1 <= l <= 15,
                d <= 0xfff,
                b1 == (l << 4) | ((d >> 8) as u8),
        ;
        assert((((d >> 8) as u8) as u16) * 256 + (((d & 0xff) as u8) as u16) == d) by (bit_vector)
            requires
                d <= 0xfff,
        ;
    }
}

/// Writes the packet for `run` into the arena, with the cursor at
/// `read_head`, and returns how far the read head advances.
fn write_run(read_head: usize, run: &Run, destination: &mut arrayvec::ArrayVec<u8, 24>) -> (emitted:
    usize)
    requires
        packet_buf(*old(destination)).len() + 3 <= 24,
        3 <= run.length,
        run.cursor < read_head,
        read_head - run.cursor <= 4096,
    ensures
        packet_buf(*final(destination)) == packet_buf(*old(destination)) + run_packet(
            read_head as int,
            *run,
        ),
        emitted == run_advance(*run),
        0 <= read_head - run.cursor - 1 <= 4095,
        3 <= emitted <= 273,
{
    proof {
        lemma_run_packet_decodes(read_head as int, *run);
    }
    // distance from the read head back to the start of the run, offset by
    // one: reading the byte just before the read head is encoded as 0.
    let dist = (read_head - run.cursor - 1) as u16;

    if run.length >= 0x12 {
        // 3-byte packet: a zero top nibble, twelve distance bits, and the
        // clipped length less 0x12.
        packet_buf_push(destination, (dist >> 8) as u8);
        packet_buf_push(destination, (dist & 0xff) as u8);
        // clip to the maximum length the third byte can express
        let actual_runlength = if run.length < 0xff + 0x12 {
            run.length
        } else {
            0xff + 0x12
        };
        packet_buf_push(destination, (actual_runlength - 0x12) as u8);
        proof {
            assert(packet_buf(*destination) =~= packet_buf(*old(destination)) + run_packet(
                read_head as int,
                *run,
            ));
        }
        actual_runlength
    } else {
        // 2-byte packet: the length less 2 in the top nibble, then twelve
        // distance bits.
        packet_buf_push(destination, (((run.length - 2) as u8) << 4) | (dist >> 8) as u8);
        packet_buf_push(destination, (dist & 0xff) as u8);
        proof {
            assert(packet_buf(*destination) =~= packet_buf(*old(destination)) + run_packet(
                read_head as int,
                *run,
            ));
        }
        run.length
    }
}

/// A usable back-reference for the read cursor `rh`: it starts before the
/// cursor, within reach of the twelve distance bits, its bytes repeat the
/// input at the cursor, and it does not run past the end of the input.
pub open spec fn valid_run(src: Seq<u8>, rh: int, r: Run) -> bool {
    &&& r.cursor < rh
    &&& rh - r.cursor <= 4096
    &&& rh + r.length <= src.len()
    &&& forall|i: int| 0 <= i < r.length ==> #[trigger] src[r.cursor + i] == src[rh + i]
}

/// A worthwhile naive-search result is a usable back-reference.
proof fn lemma_naive_run_valid(src: Seq<u8>, cursor: int, lb: int)
    requires
        0 <= cursor <= src.len() <= usize::MAX,
        1 <= lb <= 4096,
    ensures
        naive_run(src, cursor, lb).length > 0 ==> valid_run(src, cursor, naive_run(src, cursor, lb)),
        naive_run(src, cursor, lb).length <= src.len() - cursor,
{
    lemma_best_run_props(src, window_start(cursor, lb), cursor, cursor);
    let r = naive_run(src, cursor, lb);
    if r.length > 0 {
        crate::codec::lemma_run_len_matches(src, r.cursor as int, cursor);
    }
}

// ---------------------------------------------------------------------------
// The progress channel
// ---------------------------------------------------------------------------

/// The sending half of the standard multi-producer channel, used to hand
/// progress messages to an observer on another thread.
#[verifier::external_type_specification]
#[verifier::external_body]
#[verifier::reject_recursive_types(T)]
pub struct ExSender<T>(std::sync::mpsc::Sender<T>);

/// Relies on std::sync::mpsc::Sender::send, called only for its side
/// effect; sending to a receiver that has hung up returns an error, which
/// is dropped so the compressor never fails for want of a listener.
#[verifier::external_body]
fn send_progress(tx: &std::sync::mpsc::Sender<ProgressMsg>, msg: ProgressMsg) {
    let _ = tx.send(msg);
}

/// Where the compressor's progress messages go: an optional channel to an
/// observer, together with the record of every read head handed over so
/// far, which is what the progress contract speaks about.
pub struct ProgressSink {
    tx: Option<std::sync::mpsc::Sender<ProgressMsg>>,
    history: Ghost<Seq<usize>>,
}

impl ProgressSink {
    /// The read heads handed to this sink, oldest first.
    pub closed spec fn sent(&self) -> Seq<usize> {
        self.history@
    }

    /// A sink that forwards every message to `tx`.
    pub fn new(tx: std::sync::mpsc::Sender<ProgressMsg>) -> (s: ProgressSink)
        ensures
            s.sent() == Seq::<usize>::empty(),
    {
        ProgressSink { tx: Some(tx), history: Ghost(Seq::empty()) }
    }

    /// A sink with no observer: every message is dropped.
    pub fn disconnected() -> (s: ProgressSink)
        ensures
            s.sent() == Seq::<usize>::empty(),
    {
        ProgressSink { tx: None, history: Ghost(Seq::empty()) }
    }

    /// Records `read_head` and forwards it to the observer, if one is
    /// connected.
    pub fn send(&mut self, read_head: usize)
        ensures
            final(self).sent() == old(self).sent().push(read_head),
    {
        match &self.tx {
            Some(tx) => send_progress(tx, ProgressMsg { read_head }),
            None => {},
        }
        self.history = Ghost(self.history@.push(read_head));
    }
}

// ---------------------------------------------------------------------------
// The encoder
// ---------------------------------------------------------------------------

/// `cd` matches `codon` on the top `k` codon bits: those of the packets
/// already emitted, which later bit-sets leave untouched.
spec fn codon_agrees(cd: u8, codon: u8, k: int) -> bool {
    forall|j: u8| (j as int) < k ==> #[trigger] (cd & (0x80u8 >> j)) == (codon & (0x80u8 >> j))
}

/// The stream as it stands while a group is assembled: everything emitted
/// before the group, the codon byte, the group's packet bytes so far, and
/// whatever will follow.
spec fn group_stream(enc: Seq<u8>, cd: u8, pk: Seq<u8>, rest: Seq<u8>) -> Seq<u8> {
    enc + seq![cd] + pk + rest
}

/// The encoder's whole-stream invariant: however the stream continues,
/// decoding it from the top equals decoding from the end of `enc` with the
/// first `rh` input bytes already reconstructed.
spec fn stream_inv(src: Seq<u8>, enc: Seq<u8>, rh: int) -> bool {
    forall|rest: Seq<u8>|
        #[trigger] decode_from(
            enc + rest,
            enc.len() as int,
            0u8,
            0,
            src.subrange(0, rh),
            src.len() as nat,
        ) == decode_from(enc + rest, 0, 0u8, 0, Seq::<u8>::empty(), src.len() as nat)
}

/// The encoder's mid-group invariant: `k` packets of the group stand in
/// `pk` and advanced the reconstruction from `rh0` to `rh`. Any codon byte
/// that carries the bits chosen so far, and any continuation, decode
/// through those packets.
spec fn group_inv(
    src: Seq<u8>,
    enc0: Seq<u8>,
    pk: Seq<u8>,
    codon: u8,
    k: int,
    rh0: int,
    rh: int,
) -> bool {
    forall|rest: Seq<u8>, cd: u8|
        codon_agrees(cd, codon, k) ==> #[trigger] decode_from(
            group_stream(enc0, cd, pk, rest),
            enc0.len() as int,
            0u8,
            0,
            src.subrange(0, rh0),
            src.len() as nat,
        ) == decode_from(
            group_stream(enc0, cd, pk, rest),
            enc0.len() as int + 1 + pk.len(),
            cd << (k as u8),
            (8 - k) as nat,
            src.subrange(0, rh),
            src.len() as nat,
        )
}

/// Opening a group: no packets yet, so decoding from the group head just
/// reads whatever codon byte stands there.
proof fn lemma_group_init(src: Seq<u8>, enc0: Seq<u8>, rh0: int)
    requires
        0 <= rh0 < src.len(),
    ensures
        group_inv(src, enc0, Seq::<u8>::empty(), 0u8, 0, rh0, rh0),
{
    let pk0 = Seq::<u8>::empty();
    assert forall|rest: Seq<u8>, cd: u8|
        codon_agrees(cd, 0u8, 0) implies #[trigger] decode_from(
        group_stream(enc0, cd, pk0, rest),
        enc0.len() as int,
        0u8,
        0,
        src.subrange(0, rh0),
        src.len() as nat,
    ) == decode_from(
        group_stream(enc0, cd, pk0, rest),
        enc0.len() as int + 1 + pk0.len(),
        cd << 0u8,
        8,
        src.subrange(0, rh0),
        src.len() as nat,
    ) by {
        let s = group_stream(enc0, cd, pk0, rest);
        assert(enc0 + seq![cd] + pk0 =~= enc0.push(cd));
        assert(s =~= enc0.push(cd) + rest);
        assert(s.len() == enc0.len() + 1 + rest.len());
        assert(s[enc0.len() as int] == cd);
        assert(src.subrange(0, rh0).len() == rh0);
        assert(cd << 0u8 == cd) by (bit_vector);
    }
    assert((0u8 << (0int as u8)) == (0u8 << 0u8));
    assert((8 - 0int) as nat == 8nat);
}

/// One literal packet: the byte at the cursor is appended and its codon
/// bit is set.
proof fn lemma_group_step_literal(
    src: Seq<u8>,
    enc0: Seq<u8>,
    pk_old: Seq<u8>,
    codon_old: u8,
    k: int,
    rh0: int,
    rh_old: int,
)
    requires
        0 <= rh0 <= rh_old < src.len(),
        0 <= k < 8,
        group_inv(src, enc0, pk_old, codon_old, k, rh0, rh_old),
    ensures
        group_inv(
            src,
            enc0,
            pk_old.push(src[rh_old]),
            codon_old | (0x80u8 >> (k as u8)),
            k + 1,
            rh0,
            rh_old + 1,
        ),
{
    let b = src[rh_old];
    let pk_new = pk_old.push(b);
    let k8 = k as u8;
    let codon_new = codon_old | (0x80u8 >> k8);
    assert forall|rest: Seq<u8>, cd: u8|
        codon_agrees(cd, codon_new, k + 1) implies #[trigger] decode_from(
        group_stream(enc0, cd, pk_new, rest),
        enc0.len() as int,
        0u8,
        0,
        src.subrange(0, rh0),
        src.len() as nat,
    ) == decode_from(
        group_stream(enc0, cd, pk_new, rest),
        enc0.len() as int + 1 + pk_new.len(),
        cd << ((k + 1) as u8),
        (8 - (k + 1)) as nat,
        src.subrange(0, rh_old + 1),
        src.len() as nat,
    ) by {
        let s = group_stream(enc0, cd, pk_new, rest);
        let s_ih = group_stream(enc0, cd, pk_old, seq![b] + rest);
        assert(s_ih =~= s);
        // cd agrees with the old codon on the first k bits
        assert forall|j: u8| (j as int) < k implies (cd & (0x80u8 >> j)) == (codon_old & (0x80u8
            >> j)) by {
            assert(cd & (0x80u8 >> j) == codon_new & (0x80u8 >> j));
            assert((j < k8 && k8 < 8) ==> ((codon_old | (0x80u8 >> k8)) & (0x80u8 >> j)) == (
            codon_old & (0x80u8 >> j))) by (bit_vector);
        }
        assert(codon_agrees(cd, codon_old, k));
        assert(decode_from(
            s_ih,
            enc0.len() as int,
            0u8,
            0,
            src.subrange(0, rh0),
            src.len() as nat,
        ) == decode_from(
            s_ih,
            enc0.len() as int + 1 + pk_old.len(),
            cd << k8,
            (8 - k) as nat,
            src.subrange(0, rh_old),
            src.len() as nat,
        ));
        let pos_a = enc0.len() as int + 1 + pk_old.len();
        // this packet's codon bit is set, in codon_new and so in cd
        assert(cd & (0x80u8 >> k8) == codon_new & (0x80u8 >> k8));
        assert((k8 < 8) ==> ((codon_old | (0x80u8 >> k8)) & (0x80u8 >> k8)) != 0) by (bit_vector);
        assert(((cd << k8) & 0x80 != 0) == (cd & (0x80u8 >> k8) != 0)) by (bit_vector)
            requires
                k8 < 8,
        ;
        assert(s[pos_a] == b);
        assert(src.subrange(0, rh_old).push(b) =~= src.subrange(0, rh_old + 1));
        assert((cd << k8) << 1 == cd << (k8 + 1)) by (bit_vector)
            requires
                k8 < 8,
        ;
        assert(decode_from(
            s,
            pos_a,
            cd << k8,
            (8 - k) as nat,
            src.subrange(0, rh_old),
            src.len() as nat,
        ) == decode_from(
            s,
            pos_a + 1,
            cd << (k8 + 1),
            (8 - k - 1) as nat,
            src.subrange(0, rh_old + 1),
            src.len() as nat,
        ));
    }
}

/// One back-reference packet: its codon bit stays clear, and decoding it
/// replays `run_advance(best)` bytes that the input already holds.
proof fn lemma_group_step_backref(
    src: Seq<u8>,
    enc0: Seq<u8>,
    pk_old: Seq<u8>,
    codon: u8,
    k: int,
    rh0: int,
    rh_old: int,
    best: Run,
)
    requires
        0 <= rh0 <= rh_old < src.len(),
        0 <= k < 8,
        codon & (0x80u8 >> (k as u8)) == 0,
        3 <= best.length,
        valid_run(src, rh_old, best),
        group_inv(src, enc0, pk_old, codon, k, rh0, rh_old),
    ensures
        group_inv(
            src,
            enc0,
            pk_old + run_packet(rh_old, best),
            codon,
            k + 1,
            rh0,
            rh_old + run_advance(best),
        ),
{
    let pkt = run_packet(rh_old, best);
    let pk_new = pk_old + pkt;
    let k8 = k as u8;
    let adv = run_advance(best);
    lemma_run_packet_decodes(rh_old, best);
    crate::codec::lemma_run_copy_matches(src, rh_old, best.cursor as int, adv as nat);
    assert forall|rest: Seq<u8>, cd: u8|
        codon_agrees(cd, codon, k + 1) implies #[trigger] decode_from(
        group_stream(enc0, cd, pk_new, rest),
        enc0.len() as int,
        0u8,
        0,
        src.subrange(0, rh0),
        src.len() as nat,
    ) == decode_from(
        group_stream(enc0, cd, pk_new, rest),
        enc0.len() as int + 1 + pk_new.len(),
        cd << ((k + 1) as u8),
        (8 - (k + 1)) as nat,
        src.subrange(0, rh_old + adv),
        src.len() as nat,
    ) by {
        let s = group_stream(enc0, cd, pk_new, rest);
        let s_ih = group_stream(enc0, cd, pk_old, pkt + rest);
        assert(s_ih =~= s);
        assert(codon_agrees(cd, codon, k));
        assert(decode_from(
            s_ih,
            enc0.len() as int,
            0u8,
            0,
            src.subrange(0, rh0),
            src.len() as nat,
        ) == decode_from(
            s_ih,
            enc0.len() as int + 1 + pk_old.len(),
            cd << k8,
            (8 - k) as nat,
            src.subrange(0, rh_old),
            src.len() as nat,
        ));
        let pos_a = enc0.len() as int + 1 + pk_old.len();
        // the codon bit for this packet is clear, in codon and so in cd
        assert(cd & (0x80u8 >> k8) == codon & (0x80u8 >> k8));
        assert(((cd << k8) & 0x80 != 0) == (cd & (0x80u8 >> k8) != 0)) by (bit_vector)
            requires
                k8 < 8,
        ;
        // the packet's bytes stand at pos_a
        assert(s[pos_a] == pkt[0] && s[pos_a + 1] == pkt[1]);
        assert(pkt.len() == 3 ==> s[pos_a + 2] == pkt[2]);
        // the decoder reads back the distance and advance
        let out_mid = src.subrange(0, rh_old);
        assert(out_mid.len() == rh_old);
        assert(out_mid.len() - ((pkt[0] & 0x0f) as int * 256 + pkt[1] as int + 1) == best.cursor);
        assert(run_copy(out_mid, best.cursor as int, adv as nat) == src.subrange(0, rh_old + adv));
        assert((cd << k8) << 1 == cd << (k8 + 1)) by (bit_vector)
            requires
                k8 < 8,
        ;
        assert(decode_from(
            s,
            pos_a,
            cd << k8,
            (8 - k) as nat,
            out_mid,
            src.len() as nat,
        ) == decode_from(
            s,
            pos_a + pkt.len() as int,
            cd << (k8 + 1),
            (8 - k - 1) as nat,
            src.subrange(0, rh_old + adv),
            src.len() as nat,
        ));
    }
}

/// Closing a group: the codon byte is now fixed, so the mid-group
/// invariant with the final codon extends the whole-stream invariant past
/// the group. The group is left either full (eight packets, a fresh codon
/// boundary follows) or with the input exhausted.
proof fn lemma_group_finish(
    src: Seq<u8>,
    enc0: Seq<u8>,
    pk: Seq<u8>,
    codon: u8,
    k: int,
    rh0: int,
    rh1: int,
)
    requires
        0 <= rh0 <= rh1 <= src.len(),
        rh0 < src.len(),
        0 <= k <= 8,
        k == 8 || rh1 == src.len(),
        stream_inv(src, enc0, rh0),
        group_inv(src, enc0, pk, codon, k, rh0, rh1),
    ensures
        stream_inv(src, enc0.push(codon) + pk, rh1),
{
    let enc1 = enc0.push(codon) + pk;
    assert forall|rest: Seq<u8>| #[trigger] decode_from(
        enc1 + rest,
        enc1.len() as int,
        0u8,
        0,
        src.subrange(0, rh1),
        src.len() as nat,
    ) == decode_from(enc1 + rest, 0, 0u8, 0, Seq::<u8>::empty(), src.len() as nat) by {
        let s = enc1 + rest;
        let rest0 = seq![codon] + pk + rest;
        assert(s =~= enc0 + rest0);
        assert(s =~= group_stream(enc0, codon, pk, rest));
        assert(decode_from(
            enc0 + rest0,
            enc0.len() as int,
            0u8,
            0,
            src.subrange(0, rh0),
            src.len() as nat,
        ) == decode_from(enc0 + rest0, 0, 0u8, 0, Seq::<u8>::empty(), src.len() as nat));
        assert(codon_agrees(codon, codon, k));
        assert(decode_from(
            group_stream(enc0, codon, pk, rest),
            enc0.len() as int,
            0u8,
            0,
            src.subrange(0, rh0),
            src.len() as nat,
        ) == decode_from(
            group_stream(enc0, codon, pk, rest),
            enc0.len() as int + 1 + pk.len(),
            codon << (k as u8),
            (8 - k) as nat,
            src.subrange(0, rh1),
            src.len() as nat,
        ));
        assert(enc1.len() == enc0.len() as int + 1 + pk.len());
        if k == 8 {
            // a full group: the decoder stands at a fresh codon boundary
            assert(codon << 8u8 == 0) by (bit_vector);
            assert(codon << (k as u8) == 0u8);
        } else {
            // the input is exhausted: both sides decode to the full input
            assert(src.subrange(0, rh1).len() == src.len() as nat);
        }
    }
}

/// The finished stream decodes to the whole input.
proof fn lemma_stream_done(src: Seq<u8>, enc: Seq<u8>)
    requires
        stream_inv(src, enc, src.len() as int),
    ensures
        crate::codec::decode(enc, src.len() as nat) == Some(src),
{
    assert(enc + Seq::<u8>::empty() =~= enc);
    assert(src.subrange(0, src.len() as int) =~= src);
    assert(decode_from(
        enc + Seq::<u8>::empty(),
        enc.len() as int,
        0u8,
        0,
        src.subrange(0, src.len() as int),
        src.len() as nat,
    ) == decode_from(enc + Seq::<u8>::empty(), 0, 0u8, 0, Seq::<u8>::empty(), src.len() as nat));
    assert(decode_from(enc, enc.len() as int, 0u8, 0, src, src.len() as nat) == Some(src));
}

/// Compresses the data in `src` at `level`, using either naive or lookahead
/// search, handing progress updates to `progress`. Returns the compressed
/// packet stream (headerless).
///
/// Decoding the returned stream yields `src` again, and the read heads
/// appended to `progress` are nondecreasing and never exceed the input
/// length.
#[verifier::rlimit(100)]
#[verifier::spinoff_prover]
pub fn compress_lookaround(src: &[u8], level: CompressionLevel, progress: &mut ProgressSink) -> (encoded: Vec<u8>)
    requires
        1 <= level.quality() <= 10,
    ensures
        crate::codec::decode(encoded@, src@.len() as nat) == Some(src@),
        final(progress).sent().len() >= old(progress).sent().len(),
        forall|i: int|
            0 <= i < old(progress).sent().len()
                ==> #[trigger] final(progress).sent()[i] == old(progress).sent()[i],
        forall|i: int, j: int|
            #![trigger final(progress).sent()[i], final(progress).sent()[j]]
            old(progress).sent().len() <= i <= j < final(progress).sent().len()
                ==> final(progress).sent()[i] <= final(progress).sent()[j],
        forall|i: int|
            old(progress).sent().len() <= i < final(progress).sent().len()
                ==> #[trigger] final(progress).sent()[i] <= src@.len(),
{
    let quality = match level {
        CompressionLevel::Naive { quality } => quality,
        CompressionLevel::Lookahead { quality } => quality,
    };
    // the effective window: MAX_LOOKBACK divided by quality tenths, with the
    // divisor clamped to 1 so that every quality keeps a usable window
    let divisor = quality / 10;
    let lookback: usize = 4096 / (if divisor >= 1 {
        divisor
    } else {
        1
    });
    assert(1 <= lookback <= 4096) by (nonlinear_arith)
        requires
            1 <= quality <= 10,
            divisor == quality / 10,
            lookback == 4096usize / (if divisor >= 1 {
                divisor
            } else {
                1
            }),
    ;

    let n = src.len();

    // used to cache lookahead runs to put in the next packet, since a head
    // literal has to be written first
    let mut lookahead_cache: Option<Run> = None;
    let mut read_head: usize = 0;
    let mut encoded: Vec<u8> = Vec::new();

    proof {
        assert(src@.subrange(0, 0) =~= Seq::<u8>::empty());
        assert(stream_inv(src@, encoded@, 0));
    }

    // -- encode a packet stream
    while read_head < n
        invariant
            n == src@.len(),
            1 <= lookback <= 4096,
            read_head <= n,
            lookahead_cache matches Some(r) ==> r.length >= 3 && valid_run(
                src@,
                read_head as int,
                r,
            ),
            stream_inv(src@, encoded@, read_head as int),
            progress.sent().len() >= old(progress).sent().len(),
            forall|i: int|
                0 <= i < old(progress).sent().len()
                    ==> #[trigger] progress.sent()[i] == old(progress).sent()[i],
            forall|i: int, j: int|
                #![trigger progress.sent()[i], progress.sent()[j]]
                old(progress).sent().len() <= i <= j < progress.sent().len() ==> progress.sent()[i]
                    <= progress.sent()[j],
            forall|i: int|
                old(progress).sent().len() <= i < progress.sent().len() ==> #[trigger] progress.sent()[i]
                    <= read_head,
        decreases n - read_head,
    {
        let ghost enc0 = encoded@;
        let ghost rh0 = read_head as int;

        // the chunk codon
        let mut codon: u8 = 0;

        // the arena for preparing packets: 8 codes of at most 3 bytes each
        let mut packets = packet_buf_new();

        let mut packet_n: usize = 0;

        proof {
            assert forall|k: u8| packet_n as int <= k as int && k < 8 implies (codon & (0x80u8
                >> k)) == 0 by {
                assert(0u8 & (0x80u8 >> k) == 0) by (bit_vector);
            }
            lemma_group_init(src@, enc0, rh0);
        }

        // -- encode the packets
        while packet_n < 8 && read_head < n
            invariant
                n == src@.len(),
                1 <= lookback <= 4096,
                packet_n <= 8,
                0 <= rh0 <= read_head <= n,
                rh0 < n,
                read_head > rh0 || packet_n == 0,
                enc0 == encoded@,
                packet_buf(packets).len() <= 3 * packet_n,
                lookahead_cache matches Some(r) ==> r.length >= 3 && valid_run(
                    src@,
                    read_head as int,
                    r,
                ),
                forall|k: u8|
                    packet_n as int <= k as int && k < 8 ==> #[trigger] (codon & (0x80u8 >> k))
                        == 0,
                group_inv(src@, enc0, packet_buf(packets), codon, packet_n as int, rh0, read_head as int),
            decreases 8 - packet_n,
        {
            let ghost pk_old = packet_buf(packets);
            let ghost codon_old = codon;
            let ghost k = packet_n as int;
            let ghost k8 = packet_n as u8;
            let ghost rh_old = read_head as int;

            // -- search back for existing data. if we already have data in
            // the lookahead cache, use that instead.
            let (hit_lookahead, best) = match lookahead_cache {
                Some(cache) => {
                    lookahead_cache = None;
                    (false, cache)
                },
                None => {
                    match level {
                        CompressionLevel::Lookahead { .. } => {
                            let r = find_lookahead_run(src, read_head, lookback);
                            proof {
                                lemma_naive_run_valid(src@, read_head as int, lookback as int);
                                lemma_naive_run_valid(src@, read_head as int + 1, lookback as int);
                            }
                            r
                        },
                        CompressionLevel::Naive { .. } => {
                            let r = find_naive_run(src, read_head, lookback);
                            proof {
                                lemma_naive_run_valid(src@, read_head as int, lookback as int);
                            }
                            (false, r)
                        },
                    }
                },
            };

            // if we hit a lookahead sequence, hold the run back: the head
            // byte has to be written first.
            if hit_lookahead {
                lookahead_cache = Some(best);
            }
            if best.length >= 3 && !hit_lookahead {
                // -- emit a back-reference packet
                proof {
                    lemma_run_packet_decodes(rh_old, best);
                }
                let emitted = write_run(read_head, &best, &mut packets);
                proof {
                    lemma_group_step_backref(src@, enc0, pk_old, codon, k, rh0, rh_old, best);
                }
                read_head = read_head + emitted;
                packet_n = packet_n + 1;
            } else {
                // -- emit a literal packet: push the byte, mark the codon
                let b = src[read_head];
                packet_buf_push(&mut packets, b);
                codon = codon | (0x80u8 >> (packet_n as u8));
                proof {
                    assert forall|kk: u8|
                        packet_n as int + 1 <= kk as int && kk < 8 implies ((codon_old | (0x80u8
                        >> k8)) & (0x80u8 >> kk)) == 0 by {
                        assert(codon_old & (0x80u8 >> kk) == 0);
                        assert((codon_old & (0x80u8 >> kk) == 0 && k8 != kk && k8 < 8 && kk < 8)
                            ==> ((codon_old | (0x80u8 >> k8)) & (0x80u8 >> kk)) == 0)
                            by (bit_vector);
                    }
                    assert(codon == codon_old | (0x80u8 >> k8));
                    lemma_group_step_literal(src@, enc0, pk_old, codon_old, k, rh0, rh_old);
                }
                read_head = read_head + 1;
                packet_n = packet_n + 1;
            }
        }

        // -- write (codon :: packets) into the compressed stream
        let ghost pk_final = packet_buf(packets);
        let ghost codon_final = codon;
        let ghost k_final = packet_n as int;
        encoded.push(codon);
        extend_from_packet_buf(&mut encoded, &packets);
        proof {
            assert(encoded@ == enc0.push(codon_final) + pk_final);
            lemma_group_finish(src@, enc0, pk_final, codon_final, k_final, rh0, read_head as int);
        }

        if read_head % 10 == 0 || read_head == n - 1 {
            // ignore errors if the rx is disconnected
            progress.send(read_head);
        }
    }

    proof {
        lemma_stream_done(src@, encoded@);
    }

    encoded
}

/// Compresses `data` with `level`, sending progress updates over
/// `progress_tx`. Returns the compressed payload, which decodes back to
/// `data`.
pub fn compress_with_progress(
    data: &[u8],
    level: CompressionLevel,
    progress_tx: std::sync::mpsc::Sender<ProgressMsg>,
) -> (r: Vec<u8>)
    requires
        1 <= level.quality() <= 10,
    ensures
        crate::codec::decode(r@, data@.len() as nat) == Some(data@),
{
    let mut progress = ProgressSink::new(progress_tx);
    compress_lookaround(data, level, &mut progress)
}

/// Compresses `data` with `level`, with no progress observer. Returns the
/// compressed payload, which decodes back to `data`.
pub fn compress(data: &[u8], level: CompressionLevel) -> (r: Vec<u8>)
    requires
        1 <= level.quality() <= 10,
    ensures
        crate::codec::decode(r@, data@.len() as nat) == Some(data@),
{
    let mut progress = ProgressSink::disconnected();
    compress_lookaround(data, level, &mut progress)
}

/// Owns an output buffer and writes whole Yaz0 files (header plus packet
/// stream) into it.
pub struct Yaz0Writer {
    pub sink: Vec<u8>,
}

impl Yaz0Writer {
    /// Wraps `sink`; everything written is appended to it.
    pub fn new(sink: Vec<u8>) -> (w: Yaz0Writer)
        ensures
            w.sink@ == sink@,
    {
        Yaz0Writer { sink }
    }

    /// Hands the output buffer back.
    pub fn into_inner(self) -> (r: Vec<u8>)
        ensures
            r@ == self.sink@,
    {
        self.sink
    }

    /// Compress and write the passed `data`, at compression level `level`:
    /// first the 16-byte header declaring `data`'s length, then a packet
    /// stream that decodes back to `data`.
    pub fn compress_and_write(&mut self, data: &[u8], level: CompressionLevel) -> (r: Result<
        (),
        Error,
    >)
        requires
            data@.len() <= 0xffff_ffff,
            1 <= level.quality() <= 10,
        ensures
            r is Ok,
            final(self).sink@.len() >= old(self).sink@.len() + 16,
            final(self).sink@.subrange(0, old(self).sink@.len() as int) == old(self).sink@,
            final(self).sink@.subrange(
                old(self).sink@.len() as int,
                old(self).sink@.len() as int + 16,
            ) == header_bytes(data@.len() as u32),
            crate::codec::decode(
                final(self).sink@.skip(old(self).sink@.len() as int + 16),
                data@.len() as nat,
            ) == Some(data@),
    {
        let mut progress = ProgressSink::disconnected();
        self.write_archive(data, level, &mut progress)
    }

    /// Compress and write the passed `data`, at compression level `level`.
    /// Progress updates are streamed out of `progress_tx`.
    pub fn compress_and_write_with_progress(
        &mut self,
        data: &[u8],
        level: CompressionLevel,
        progress_tx: std::sync::mpsc::Sender<ProgressMsg>,
    ) -> (r: Result<(), Error>)
        requires
            data@.len() <= 0xffff_ffff,
            1 <= level.quality() <= 10,
        ensures
            r is Ok,
            final(self).sink@.len() >= old(self).sink@.len() + 16,
            final(self).sink@.subrange(0, old(self).sink@.len() as int) == old(self).sink@,
            final(self).sink@.subrange(
                old(self).sink@.len() as int,
                old(self).sink@.len() as int + 16,
            ) == header_bytes(data@.len() as u32),
            crate::codec::decode(
                final(self).sink@.skip(old(self).sink@.len() as int + 16),
                data@.len() as nat,
            ) == Some(data@),
    {
        let mut progress = ProgressSink::new(progress_tx);
        self.write_archive(data, level, &mut progress)
    }

    /// Writes header and compressed payload, reporting progress to `progress`.
    fn write_archive(
        &mut self,
        data: &[u8],
        level: CompressionLevel,
        progress: &mut ProgressSink,
    ) -> (r: Result<(), Error>)
        requires
            data@.len() <= 0xffff_ffff,
            1 <= level.quality() <= 10,
        ensures
            r is Ok,
            final(self).sink@.len() >= old(self).sink@.len() + 16,
            final(self).sink@.subrange(0, old(self).sink@.len() as int) == old(self).sink@,
            final(self).sink@.subrange(
                old(self).sink@.len() as int,
                old(self).sink@.len() as int + 16,
            ) == header_bytes(data@.len() as u32),
            crate::codec::decode(
                final(self).sink@.skip(old(self).sink@.len() as int + 16),
                data@.len() as nat,
            ) == Some(data@),
    {
        let ghost sink0 = self.sink@;

        // -- construct and write the header
        let header = Yaz0Header::new(data.len());
        header.write(&mut self.sink);

        // -- compress and write the data
        let mut compressed = compress_lookaround(data, level, progress);
        let ghost enc = compressed@;
        self.sink.append(&mut compressed);

        proof {
            let s = self.sink@;
            let base = sink0.len() as int;
            assert(s == sink0 + header_bytes(data@.len() as u32) + enc);
            assert(s.subrange(0, base) =~= sink0);
            assert(s.subrange(base, base + 16) =~= header_bytes(data@.len() as u32));
            assert(s.skip(base + 16) =~= enc);
        }
        Ok(())
    }
}

} // verus!
