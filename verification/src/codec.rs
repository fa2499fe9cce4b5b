use vstd::prelude::*;

verus! {

// ---------------------------------------------------------------------------
// Matching runs in the input
// ---------------------------------------------------------------------------

/// Length of the common run of bytes read forward from positions `a` and `b`
/// of `src`, stopping at the first mismatch or when `b` runs off the end.
/// When `a < b` the run may extend past `b` (self-overlap), which is exactly
/// what a back-reference copied byte-by-byte reproduces.
pub open spec fn run_len(src: Seq<u8>, a: int, b: int) -> nat
    decreases src.len() - b,
{
    if b < src.len() && 0 <= a && src[a] == src[b] {
        (1 + run_len(src, a + 1, b + 1)) as nat
    } else {
        0
    }
}

pub proof fn lemma_run_len_bound(src: Seq<u8>, a: int, b: int)
    requires
        0 <= b <= src.len(),
    ensures
        run_len(src, a, b) <= src.len() - b,
    decreases src.len() - b,
{
    if b < src.len() && 0 <= a && src[a] == src[b] {
        lemma_run_len_bound(src, a + 1, b + 1);
    }
}

/// Every position inside the run matches.
pub proof fn lemma_run_len_matches(src: Seq<u8>, a: int, b: int)
    requires
        0 <= b <= src.len(),
    ensures
        forall|i: int| 0 <= i < run_len(src, a, b) ==> #[trigger] src[a + i] == src[b + i],
    decreases src.len() - b,
{
    if b < src.len() && 0 <= a && src[a] == src[b] {
        lemma_run_len_matches(src, a + 1, b + 1);
        assert forall|i: int| 0 <= i < run_len(src, a, b) implies #[trigger] src[a + i] == src[b
            + i] by {
            if i > 0 {
                assert(src[(a + 1) + (i - 1)] == src[(b + 1) + (i - 1)]);
            }
        }
    }
}

/// A block of `k` matching bytes followed by a mismatch (or the end of the
/// input) pins `run_len` down to exactly `k`.
pub proof fn lemma_run_len_exact(src: Seq<u8>, a: int, b: int, k: nat)
    requires
        0 <= a,
        0 <= b,
        b + k <= src.len(),
        forall|i: int| 0 <= i < k ==> #[trigger] src[a + i] == src[b + i],
        b + k == src.len() || src[a + k] != src[b + k],
    ensures
        run_len(src, a, b) == k,
    decreases k,
{
    if k == 0 {
    } else {
        assert(src[a + 0] == src[b + 0]);
        assert forall|i: int| 0 <= i < k - 1 implies #[trigger] src[(a + 1) + i] == src[(b + 1)
            + i] by {
            assert(src[a + (i + 1)] == src[b + (i + 1)]);
        }
        assert((a + 1) + (k - 1) == a + k && (b + 1) + (k - 1) == b + k);
        lemma_run_len_exact(src, a + 1, b + 1, (k - 1) as nat);
    }
}

// ---------------------------------------------------------------------------
// The byte-by-byte back-reference copy
// ---------------------------------------------------------------------------

/// Appends `n` bytes to `out`, each read from `base + i` of the sequence as
/// it stands when the byte is copied. Because each byte is appended before
/// the next is read, a copy that overlaps its own output re-reads freshly
/// written bytes, which is the run-length-encode effect of the format.
pub open spec fn run_copy(out: Seq<u8>, base: int, n: nat) -> Seq<u8>
    decreases n,
{
    if n == 0 {
        out
    } else {
        run_copy(out.push(out[base]), base + 1, (n - 1) as nat)
    }
}

pub proof fn lemma_run_copy_len(out: Seq<u8>, base: int, n: nat)
    ensures
        run_copy(out, base, n).len() == out.len() + n,
    decreases n,
{
    if n > 0 {
        lemma_run_copy_len(out.push(out[base]), base + 1, (n - 1) as nat);
    }
}

/// When `out` is a prefix of `src` and the copied range matches the bytes
/// at the cursor, the copy extends the prefix.
pub proof fn lemma_run_copy_matches(src: Seq<u8>, rh: int, base: int, n: nat)
    requires
        0 <= base < rh <= src.len(),
        rh + n <= src.len(),
        forall|i: int| 0 <= i < n ==> #[trigger] src[base + i] == src[rh + i],
    ensures
        run_copy(src.subrange(0, rh), base, n) == src.subrange(0, rh + n),
    decreases n,
{
    if n == 0 {
    } else {
        let out = src.subrange(0, rh);
        assert(src[base + 0] == src[rh + 0]);
        assert(out.push(out[base]) =~= src.subrange(0, rh + 1));
        assert forall|i: int| 0 <= i < n - 1 implies #[trigger] src[(base + 1) + i] == src[(rh + 1)
            + i] by {
            assert(src[base + (i + 1)] == src[rh + (i + 1)]);
        }
        lemma_run_copy_matches(src, rh + 1, base + 1, (n - 1) as nat);
    }
}

// ---------------------------------------------------------------------------
// The packet-stream decoder, as a mathematical function
// ---------------------------------------------------------------------------

/// One state of the decoder: `pos` is the next byte of `stream` to read,
/// `code` the remaining bits of the current codon byte (most significant bit
/// first), `ops` how many of those bits are still valid, and `out` the bytes
/// emitted so far. Decoding stops exactly when `out` holds `limit` bytes;
/// `None` means the stream was truncated, a back-reference pointed before
/// the start of the output, or a back-reference overshot `limit`.
pub open spec fn decode_from(
    stream: Seq<u8>,
    pos: int,
    code: u8,
    ops: nat,
    out: Seq<u8>,
    limit: nat,
) -> Option<Seq<u8>>
    decreases limit - out.len(), (if ops == 0 { 1int } else { 0int }),
    via decode_from_decreases
{
    if out.len() >= limit {
        Some(out)
    } else if ops == 0 {
        if 0 <= pos < stream.len() {
            decode_from(stream, pos + 1, stream[pos], 8, out, limit)
        } else {
            None
        }
    } else if code & 0x80 != 0 {
        // literal packet: one raw byte
        if 0 <= pos < stream.len() {
            decode_from(stream, pos + 1, code << 1, (ops - 1) as nat, out.push(stream[pos]), limit)
        } else {
            None
        }
    } else if !(0 <= pos && pos + 2 <= stream.len()) {
        None
    } else {
        // back-reference packet: two bytes, or three when the first nibble is 0
        let b1 = stream[pos];
        let b2 = stream[pos + 1];
        let dist = (b1 & 0x0f) as int * 256 + b2 as int;
        let base = out.len() - (dist + 1);
        if b1 >> 4 == 0 {
            if pos + 3 <= stream.len() {
                let count = stream[pos + 2] as int + 0x12;
                if base < 0 || out.len() + count > limit {
                    None
                } else {
                    decode_from(
                        stream,
                        pos + 3,
                        code << 1,
                        (ops - 1) as nat,
                        run_copy(out, base, count as nat),
                        limit,
                    )
                }
            } else {
                None
            }
        } else {
            let count = (b1 >> 4) as int + 2;
            if base < 0 || out.len() + count > limit {
                None
            } else {
                decode_from(
                    stream,
                    pos + 2,
                    code << 1,
                    (ops - 1) as nat,
                    run_copy(out, base, count as nat),
                    limit,
                )
            }
        }
    }
}

#[via_fn]
proof fn decode_from_decreases(
    stream: Seq<u8>,
    pos: int,
    code: u8,
    ops: nat,
    out: Seq<u8>,
    limit: nat,
) {
    if out.len() < limit && ops != 0 && code & 0x80 == 0 && 0 <= pos && pos + 2 <= stream.len() {
        let b1 = stream[pos];
        let b2 = stream[pos + 1];
        let dist = (b1 & 0x0f) as int * 256 + b2 as int;
        let base = out.len() - (dist + 1);
        if b1 >> 4 == 0 {
            if pos + 3 <= stream.len() {
                let count = stream[pos + 2] as int + 0x12;
                if !(base < 0 || out.len() + count > limit) {
                    lemma_run_copy_len(out, base, count as nat);
                }
            }
        } else {
            let count = (b1 >> 4) as int + 2;
            if !(base < 0 || out.len() + count > limit) {
                lemma_run_copy_len(out, base, count as nat);
            }
        }
    }
}

/// Decoding a whole stream from scratch.
pub open spec fn decode(stream: Seq<u8>, limit: nat) -> Option<Seq<u8>> {
    decode_from(stream, 0, 0, 0, Seq::<u8>::empty(), limit)
}

} // verus!
