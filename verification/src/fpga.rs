//! FPGA delegation: HLLSet operations executed by a simulated board through
//! a command/response protocol.
//!
//! [`SimFpgaDriver`] executes every [`Command`] eagerly against resident
//! planes (bit-exact HLLSets) and queues the [`Response`]; [`FpgaSim`] is
//! the HLLSet-level wrapper: every operation submits commands and drains
//! responses, the same code path a physical board would see. Plane upload
//! and download are simulator bootstrap steps; all processing goes through
//! the protocol.

use vstd::prelude::*;
use crate::bytes_order::views;
use crate::hashing::{murmur3_hash_seeded, murmur3_seeded_spec, bit_of_hash, seeded_bit, TOTAL_CELLS};
use crate::hllset::HLLSet;
use crate::encoding::{ascii_chars, decimal_bytes, push_decimal};
use crate::hashing::string_from_chars;
use crate::text::chars_of;
use crate::kstorage::{KStorage, TokenLutStorage};
use crate::hashing::token_bit;

verus! {

broadcast use vstd::seq_lib::group_seq_properties;

/// Number of TF lanes of an accumulator (one per cell).
pub const TF_LANES: usize = 32768;

/// A lattice operation on two planes.
#[derive(Clone, Copy, Debug, PartialEq, Eq, Structural)]
pub enum AlgebraOp {
    Or,
    And,
    AndNot,
    Xor,
}

/// The board configuration.
#[derive(Clone, Debug)]
pub struct BoardSpec {
    pub name: String,
}

/// A protocol command.
#[derive(Clone, Debug)]
pub enum Command {
    /// Hash the tokens under every seed (seed 0 when none) into a new plane.
    Ingest { tokens: Vec<Vec<u8>>, seeds: Vec<u64> },
    /// The 3-gram structural fingerprint plane of a token sequence.
    Gram { tokens: Vec<Vec<u8>> },
    /// `a op b` into a new plane.
    Algebra { op: AlgebraOp, a: u64, b: u64 },
    /// The departed / retained / new decomposition of `prev` to `curr`.
    Drn { prev: u64, curr: u64 },
    /// The number of set cells of a plane.
    Popcount { plane: u64 },
    /// The number of set cells of a plane per trailing-zero lane.
    Hist { plane: u64 },
    /// Add `delta` to the TF lane of every set cell of a plane.
    TfAdd { plane: u64, delta: i64 },
    /// Lane-wise maximum of two TF accumulators into `a`.
    TfMerge { a: u64, b: u64 },
    /// The LUT tokens behind `(register, trailing-zero)` positions.
    Lookup { positions: Vec<(u32, u32)> },
    /// A program for the Forth core.
    Forth { program: Vec<u8> },
    /// Configure the board.
    Configure { spec: BoardSpec },
    /// Status counters.
    Status,
}

/// A protocol response.
#[derive(Clone, Debug)]
pub enum Response {
    Plane { id: u64 },
    Drn { departed: u64, retained: u64, new: u64 },
    Popcount { value: u32 },
    Hist { counts: Vec<u32> },
    Candidates { tokens: Vec<Vec<u8>> },
    Ack,
    Status { counters: Vec<(String, u64)> },
}

/// A protocol error.
#[derive(Clone, Debug)]
pub enum FpgaError {
    UnknownPlane(u64),
    Protocol(String),
    Unsupported(String),
}

/// `a op b` on cell sets.
pub open spec fn algebra_spec(op: AlgebraOp, a: Set<u32>, b: Set<u32>) -> Set<u32> {
    match op {
        AlgebraOp::Or => a.union(b),
        AlgebraOp::And => a.intersect(b),
        AlgebraOp::AndNot => a.difference(b),
        AlgebraOp::Xor => a.difference(b).union(b.difference(a)),
    }
}

/// The cells of tokens hashed under every seed.
pub open spec fn ingest_cells(tokens: Seq<Seq<u8>>, seeds: Seq<u64>) -> Set<u32> {
    Set::new(
        |b: u32|
            exists|i: int, j: int|
                0 <= i < tokens.len() && 0 <= j < seeds.len() && #[trigger] seeded_bit(tokens[i], seeds[j]) == b,
    )
}

/// The tokens `[start, end)` joined by a zero byte.
pub open spec fn gram_join(tokens: Seq<Seq<u8>>, start: int, end: int) -> Seq<u8>
    decreases end - start,
{
    if end <= start {
        Seq::empty()
    } else if end == start + 1 {
        tokens[start]
    } else {
        gram_join(tokens, start, end - 1) + seq![0u8] + tokens[end - 1]
    }
}

/// The end of the window starting at `s`: `min(s + 3, n)`.
pub open spec fn gram_end(n: nat, s: int) -> int {
    if s + 3 < n { s + 3 } else { n as int }
}

/// The seed-0 cell of the window starting at `s`.
pub open spec fn gram_cell(tokens: Seq<Seq<u8>>, s: int) -> u32 {
    bit_of_hash(murmur3_seeded_spec(gram_join(tokens, s, gram_end(tokens.len(), s)), 0))
}

/// The 3-gram plane: the cell of every window.
pub open spec fn gram_cells(tokens: Seq<Seq<u8>>) -> Set<u32> {
    Set::new(|b: u32| exists|s: int| 0 <= s < tokens.len() && #[trigger] gram_cell(tokens, s) == b)
}

/// The 3-gram plane holds the seed-0 cell of every window of three
/// consecutive tokens joined by zero bytes, `t[s] 0 t[s+1] 0 t[s+2]`; near the
/// end the windows shorten to `t[n-2] 0 t[n-1]` and `t[n-1]`. These are the
/// only cells of the plane.
pub proof fn lemma_gram_windows(tokens: Seq<Seq<u8>>, s: int)
    requires
        0 <= s < tokens.len(),
    ensures
        s + 3 <= tokens.len() ==> gram_cell(tokens, s) == seeded_bit(
            tokens[s] + seq![0u8] + tokens[s + 1] + seq![0u8] + tokens[s + 2],
            0,
        ),
        s + 2 == tokens.len() ==> gram_cell(tokens, s) == seeded_bit(tokens[s] + seq![0u8] + tokens[s + 1], 0),
        s + 1 == tokens.len() ==> gram_cell(tokens, s) == seeded_bit(tokens[s], 0),
        gram_cells(tokens).contains(gram_cell(tokens, s)),
        forall|b: u32| #[trigger] gram_cells(tokens).contains(b) ==> exists|k: int| 0 <= k < tokens.len() && gram_cell(tokens, k) == b,
{
    let n = tokens.len();
    if s + 3 <= n {
        assert(gram_end(n, s) == s + 3);
        assert(gram_join(tokens, s, s + 1) == tokens[s]);
        assert(gram_join(tokens, s, s + 2) == tokens[s] + seq![0u8] + tokens[s + 1]);
        assert(gram_join(tokens, s, s + 3) == tokens[s] + seq![0u8] + tokens[s + 1] + seq![0u8] + tokens[s + 2]);
    } else if s + 2 == n {
        assert(gram_end(n, s) == s + 2);
        assert(gram_join(tokens, s, s + 1) == tokens[s]);
        assert(gram_join(tokens, s, s + 2) == tokens[s] + seq![0u8] + tokens[s + 1]);
    } else {
        assert(gram_end(n, s) == s + 1);
        assert(gram_join(tokens, s, s + 1) == tokens[s]);
    }
}

/// Whether a cell lies in trailing-zero lane `k`.
pub open spec fn in_lane(k: int) -> spec_fn(u32) -> bool {
    |b: u32| b % 32 == k
}

/// The set cells of a plane in trailing-zero lane `k`.
pub open spec fn lane_count(p: Set<u32>, k: u32) -> nat {
    p.filter(in_lane(k as int)).len()
}

/// The cells of `s` in trailing-zero lane `k`, counted.
pub open spec fn lane_prefix(s: Seq<u32>, k: int) -> nat {
    s.filter(in_lane(k)).len()
}

/// The state of the simulated board.
pub struct DriverView {
    /// Resident planes; plane id `k + 1` is `planes[k]`.
    pub planes: Seq<Set<u32>>,
    /// TF accumulators by plane id (distinct ids, creation order).
    pub tf: Seq<(u64, Seq<i64>)>,
    /// LUT groups by cell.
    pub lut: Seq<Seq<Seq<u8>>>,
    /// Queued responses.
    pub responses: Seq<Response>,
    /// Commands submitted.
    pub submitted: u64,
    /// Whether the board was configured.
    pub configured: bool,
}

/// The id the next allocated plane gets.
pub open spec fn next_id(s: DriverView) -> u64 {
    (s.planes.len() + 1) as u64
}

/// Whether plane `id` is resident.
pub open spec fn has_plane(s: DriverView, id: u64) -> bool {
    1 <= id <= s.planes.len()
}

/// The cells of resident plane `id`.
pub open spec fn plane_of(s: DriverView, id: u64) -> Set<u32> {
    s.planes[id - 1]
}

/// The position of the accumulator of `id` in `tf`, or `-1`.
pub open spec fn tf_pos(tf: Seq<(u64, Seq<i64>)>, id: u64) -> int
    decreases tf.len(),
{
    if tf.len() == 0 {
        -1
    } else if tf.last().0 == id {
        tf.len() - 1
    } else {
        tf_pos(tf.drop_last(), id)
    }
}

/// The TF lanes of `id` (all zero when it has none yet).
pub open spec fn lanes_of(tf: Seq<(u64, Seq<i64>)>, id: u64) -> Seq<i64> {
    if tf_pos(tf, id) >= 0 {
        tf[tf_pos(tf, id)].1
    } else {
        Seq::new(TF_LANES as nat, |i: int| 0i64)
    }
}

/// The same state with one more command submitted.
pub open spec fn counted(s: DriverView) -> DriverView {
    DriverView { submitted: (s.submitted + 1) as u64, ..s }
}

/// The same state with a new plane appended.
pub open spec fn with_plane(s: DriverView, p: Set<u32>) -> DriverView {
    DriverView { planes: s.planes.push(p), ..s }
}

/// The accumulators with the lanes of `id` replaced (or `id` added).
pub open spec fn tf_with(tf: Seq<(u64, Seq<i64>)>, id: u64, lanes: Seq<i64>) -> Seq<(u64, Seq<i64>)> {
    if tf_pos(tf, id) >= 0 {
        tf.update(tf_pos(tf, id), (id, lanes))
    } else {
        tf.push((id, lanes))
    }
}

/// `delta` added to the lanes of the cells of `p`.
pub open spec fn add_lanes(l: Seq<i64>, p: Set<u32>, delta: i64) -> Seq<i64> {
    Seq::new(l.len(), |i: int| if p.contains(i as u32) { (l[i] + delta) as i64 } else { l[i] })
}

/// Lane-wise maximum.
pub open spec fn max_lanes(a: Seq<i64>, b: Seq<i64>) -> Seq<i64> {
    Seq::new(a.len(), |i: int| if a[i] >= b[i] { a[i] } else { b[i] })
}

/// Whether adding `delta` to the lanes of `plane` stays within `i64`.
pub open spec fn tf_add_fits(s: DriverView, plane: u64, delta: i64) -> bool {
    forall|i: int|
        0 <= i < TF_LANES && plane_of(s, plane).contains(i as u32) ==> i64::MIN <= #[trigger] lanes_of(s.tf, plane)[i] + delta
            <= i64::MAX
}

/// The LUT tokens behind the positions, in order; positions outside the
/// lattice hold nothing.
pub open spec fn lookup_spec(lut: Seq<Seq<Seq<u8>>>, positions: Seq<(u32, u32)>) -> Seq<Seq<u8>>
    decreases positions.len(),
{
    if positions.len() == 0 {
        Seq::empty()
    } else {
        let (reg, tz) = positions.last();
        lookup_spec(lut, positions.drop_last()) + if reg < 1024 && tz < 32 {
            lut[reg * 32 + tz]
        } else {
            Seq::empty()
        }
    }
}

/// Number of non-empty LUT groups.
pub open spec fn nonempty_groups(lut: Seq<Seq<Seq<u8>>>) -> nat
    decreases lut.len(),
{
    if lut.len() == 0 {
        0
    } else {
        nonempty_groups(lut.drop_last()) + if lut.last().len() > 0 { 1nat } else { 0nat }
    }
}

/// The status counters of a state, by name.
pub open spec fn status_counters(s: DriverView, c: Seq<(String, u64)>) -> bool {
    &&& c.len() == 5
    &&& c[0].0@ == "submitted"@ && c[0].1 == s.submitted
    &&& c[1].0@ == "resident_planes"@ && c[1].1 == s.planes.len()
    &&& c[2].0@ == "tf_accumulators"@ && c[2].1 == s.tf.len()
    &&& c[3].0@ == "lut_entries"@ && c[3].1 == nonempty_groups(s.lut)
    &&& c[4].0@ == "configured"@ && c[4].1 == if s.configured { 1u64 } else { 0u64 }
}

/// The error for the first of `a`, `b` that is not resident.
pub open spec fn missing_plane(s: DriverView, a: u64, b: u64) -> FpgaError {
    if has_plane(s, a) { FpgaError::UnknownPlane(b) } else { FpgaError::UnknownPlane(a) }
}

/// What executing `cmd` on state `s` gives: the response `r` and state `t`.
pub open spec fn exec_spec(s: DriverView, t: DriverView, cmd: Command, r: Result<Response, FpgaError>) -> bool {
    match cmd {
        Command::Ingest { tokens, seeds } => {
            &&& r == Ok::<Response, FpgaError>(Response::Plane { id: next_id(s) })
            &&& t == with_plane(s, ingest_cells(views(tokens@), if seeds@.len() == 0 { seq![0u64] } else { seeds@ }))
        },
        Command::Gram { tokens } => {
            &&& r == Ok::<Response, FpgaError>(Response::Plane { id: next_id(s) })
            &&& t == with_plane(s, gram_cells(views(tokens@)))
        },
        Command::Algebra { op, a, b } => if has_plane(s, a) && has_plane(s, b) {
            &&& r == Ok::<Response, FpgaError>(Response::Plane { id: next_id(s) })
            &&& t == with_plane(s, algebra_spec(op, plane_of(s, a), plane_of(s, b)))
        } else {
            r == Err::<Response, FpgaError>(missing_plane(s, a, b)) && t == s
        },
        Command::Drn { prev, curr } => if has_plane(s, prev) && has_plane(s, curr) {
            let p = plane_of(s, prev);
            let c = plane_of(s, curr);
            &&& r == Ok::<Response, FpgaError>(Response::Drn { departed: next_id(s), retained: (next_id(s) + 1) as u64, new: (next_id(s) + 2) as u64 })
            &&& t == with_plane(with_plane(with_plane(s, p.difference(c)), p.intersect(c)), c.difference(p))
        } else {
            r == Err::<Response, FpgaError>(missing_plane(s, prev, curr)) && t == s
        },
        Command::Popcount { plane } => if has_plane(s, plane) {
            r == Ok::<Response, FpgaError>(Response::Popcount { value: plane_of(s, plane).len() as u32 }) && t == s
        } else {
            r == Err::<Response, FpgaError>(FpgaError::UnknownPlane(plane)) && t == s
        },
        Command::Hist { plane } => if has_plane(s, plane) {
            &&& r matches Ok(Response::Hist { counts }) && counts@.len() == 32 && forall|k: int|
                0 <= k < 32 ==> #[trigger] counts@[k] == lane_count(plane_of(s, plane), k as u32)
            &&& t == s
        } else {
            r == Err::<Response, FpgaError>(FpgaError::UnknownPlane(plane)) && t == s
        },
        Command::TfAdd { plane, delta } => if has_plane(s, plane) {
            &&& r == Ok::<Response, FpgaError>(Response::Ack)
            &&& t == DriverView { tf: tf_with(s.tf, plane, add_lanes(lanes_of(s.tf, plane), plane_of(s, plane), delta)), ..s }
        } else {
            r == Err::<Response, FpgaError>(FpgaError::UnknownPlane(plane)) && t == s
        },
        Command::TfMerge { a, b } => {
            let tf1 = tf_with(s.tf, b, lanes_of(s.tf, b));
            &&& r == Ok::<Response, FpgaError>(Response::Ack)
            &&& t == DriverView { tf: tf_with(tf1, a, max_lanes(lanes_of(tf1, a), lanes_of(tf1, b))), ..s }
        },
        Command::Lookup { positions } => {
            &&& r matches Ok(Response::Candidates { tokens }) && views(tokens@) == lookup_spec(s.lut, positions@)
            &&& t == s
        },
        Command::Forth { .. } => r matches Err(FpgaError::Unsupported(m)) && m@ == "Forth core"@ && t == s,
        Command::Configure { .. } => r == Ok::<Response, FpgaError>(Response::Ack) && t == DriverView { configured: true, ..s },
        Command::Status => {
            &&& r matches Ok(Response::Status { counters }) && status_counters(s, counters@)
            &&& t == s
        },
    }
}

/// Whether `cmd` can run on state `s` without overflowing an id or a lane.
pub open spec fn exec_fits(s: DriverView, cmd: Command) -> bool {
    &&& s.planes.len() + 3 <= u64::MAX
    &&& cmd matches Command::TfAdd { plane, delta } ==> (has_plane(s, plane) ==> tf_add_fits(s, plane, delta))
}

/// The cells of tokens `< ti` under every seed, and of token `ti` under the
/// seeds `< sj`.
pub open spec fn ingest_upto(tokens: Seq<Seq<u8>>, seeds: Seq<u64>, ti: int, sj: int) -> Set<u32> {
    Set::new(
        |b: u32|
            exists|i: int, j: int|
                0 <= i < tokens.len() && 0 <= j < seeds.len() && (i < ti || (i == ti && j < sj))
                    && #[trigger] seeded_bit(tokens[i], seeds[j]) == b,
    )
}

proof fn lemma_ingest_upto_step(tokens: Seq<Seq<u8>>, seeds: Seq<u64>, ti: int, sj: int)
    requires
        0 <= ti < tokens.len(),
        0 <= sj < seeds.len(),
    ensures
        ingest_upto(tokens, seeds, ti, sj + 1) == ingest_upto(tokens, seeds, ti, sj).insert(
            seeded_bit(tokens[ti], seeds[sj]),
        ),
{
    let l = ingest_upto(tokens, seeds, ti, sj + 1);
    let r = ingest_upto(tokens, seeds, ti, sj).insert(seeded_bit(tokens[ti], seeds[sj]));
    assert forall|b: u32| l.contains(b) <==> r.contains(b) by {
        if l.contains(b) {
            let (i, j) = choose|i: int, j: int|
                0 <= i < tokens.len() && 0 <= j < seeds.len() && (i < ti || (i == ti && j < sj + 1))
                    && #[trigger] seeded_bit(tokens[i], seeds[j]) == b;
            if !(i == ti && j == sj) {
                assert(ingest_upto(tokens, seeds, ti, sj).contains(b));
            }
        }
        if r.contains(b) && b != seeded_bit(tokens[ti], seeds[sj]) {
            let (i, j) = choose|i: int, j: int|
                0 <= i < tokens.len() && 0 <= j < seeds.len() && (i < ti || (i == ti && j < sj))
                    && #[trigger] seeded_bit(tokens[i], seeds[j]) == b;
            assert(l.contains(b));
        }
        if b == seeded_bit(tokens[ti], seeds[sj]) {
            assert(l.contains(b));
        }
    }
    assert(l =~= r);
}

proof fn lemma_ingest_upto_row(tokens: Seq<Seq<u8>>, seeds: Seq<u64>, ti: int)
    ensures
        ingest_upto(tokens, seeds, ti, seeds.len() as int) == ingest_upto(tokens, seeds, ti + 1, 0),
{
    assert(ingest_upto(tokens, seeds, ti, seeds.len() as int) =~= ingest_upto(tokens, seeds, ti + 1, 0));
}

proof fn lemma_ingest_upto_all(tokens: Seq<Seq<u8>>, seeds: Seq<u64>)
    ensures
        ingest_upto(tokens, seeds, tokens.len() as int, 0) == ingest_cells(tokens, seeds),
{
    assert(ingest_upto(tokens, seeds, tokens.len() as int, 0) =~= ingest_cells(tokens, seeds));
}

/// Append the bytes of `src` to `out`.
fn append_bytes(out: &mut Vec<u8>, src: &[u8])
    ensures
        final(out)@ == old(out)@ + src@,
{
    let ghost o0 = out@;
    let mut k: usize = 0;
    while k < src.len()
        invariant
            k <= src@.len(),
            out@ == o0 + src@.take(k as int),
        decreases src@.len() - k,
    {
        out.push(src[k]);
        proof {
            assert(src@.take(k + 1) =~= src@.take(k as int).push(src@[k as int]));
        }
        k = k + 1;
    }
    proof {
        assert(src@.take(k as int) =~= src@);
    }
}

/// A strictly ascending sequence has no duplicates.
proof fn lemma_ascending_no_dup(s: Seq<u32>)
    requires
        forall|i: int, j: int| 0 <= i < j < s.len() ==> #[trigger] s[i] < #[trigger] s[j],
    ensures
        s.no_duplicates(),
{
    assert forall|i: int, j: int| 0 <= i < s.len() && 0 <= j < s.len() && i != j implies s[i] != s[j] by {
        if i < j {
            assert(s[i] < s[j]);
        } else {
            assert(s[j] < s[i]);
        }
    }
}

/// Distinct accumulator ids.
pub open spec fn tf_distinct(tf: Seq<(u64, Seq<i64>)>) -> bool {
    forall|i: int, j: int| 0 <= i < j < tf.len() ==> (#[trigger] tf[i]).0 != (#[trigger] tf[j]).0
}

/// Where `tf_pos` points.
proof fn lemma_tf_pos(tf: Seq<(u64, Seq<i64>)>, id: u64)
    ensures
        -1 <= tf_pos(tf, id) < tf.len(),
        tf_pos(tf, id) >= 0 ==> tf[tf_pos(tf, id)].0 == id,
        tf_pos(tf, id) < 0 ==> forall|i: int| 0 <= i < tf.len() ==> (#[trigger] tf[i]).0 != id,
    decreases tf.len(),
{
    if tf.len() > 0 {
        lemma_tf_pos(tf.drop_last(), id);
        if tf.last().0 != id && tf_pos(tf, id) < 0 {
            assert forall|i: int| 0 <= i < tf.len() implies (#[trigger] tf[i]).0 != id by {
                if i < tf.len() - 1 {
                    assert(tf.drop_last()[i] == tf[i]);
                }
            }
        }
    }
}

/// With distinct ids, `tf_pos` finds the entry of `id`.
proof fn lemma_tf_pos_at(tf: Seq<(u64, Seq<i64>)>, id: u64, k: int)
    requires
        tf_distinct(tf),
        0 <= k < tf.len(),
        tf[k].0 == id,
    ensures
        tf_pos(tf, id) == k,
    decreases tf.len(),
{
    if k < tf.len() - 1 {
        assert(tf.last().0 != id) by {
            assert(tf[k].0 != tf[tf.len() - 1].0);
        }
        assert(tf_distinct(tf.drop_last()));
        assert(tf.drop_last()[k] == tf[k]);
        lemma_tf_pos_at(tf.drop_last(), id, k);
    }
}

/// Replacing the lanes of `id` twice keeps the second.
proof fn lemma_tf_with_twice(tf: Seq<(u64, Seq<i64>)>, id: u64, x: Seq<i64>, y: Seq<i64>)
    requires
        tf_distinct(tf),
    ensures
        tf_with(tf_with(tf, id, x), id, y) == tf_with(tf, id, y),
        tf_distinct(tf_with(tf, id, x)),
        tf_pos(tf_with(tf, id, x), id) >= 0,
        lanes_of(tf_with(tf, id, x), id) == x,
{
    lemma_tf_pos(tf, id);
    let t1 = tf_with(tf, id, x);
    let k = if tf_pos(tf, id) >= 0 { tf_pos(tf, id) } else { tf.len() as int };
    assert(t1[k].0 == id);
    assert(tf_distinct(t1)) by {
        assert forall|i: int, j: int| 0 <= i < j < t1.len() implies (#[trigger] t1[i]).0 != (#[trigger] t1[j]).0 by {
            if i != k && j != k {
                assert(t1[i] == tf[i]);
                assert(t1[j] == tf[j]);
            } else if i == k {
                assert(t1[j] == tf[j]);
                if tf_pos(tf, id) >= 0 {
                    assert(tf[k].0 == id);
                }
            } else {
                assert(t1[i] == tf[i]);
                if tf_pos(tf, id) >= 0 {
                    assert(tf[k].0 == id);
                }
            }
        }
    }
    lemma_tf_pos_at(t1, id, k);
    assert(tf_with(t1, id, y) =~= tf_with(tf, id, y));
}

/// A zeroed TF accumulator.
fn zero_lanes() -> (r: Vec<i64>)
    ensures
        r@ == Seq::new(TF_LANES as nat, |i: int| 0i64),
{
    let mut v: Vec<i64> = Vec::new();
    let mut i: usize = 0;
    while i < TF_LANES
        invariant
            i <= TF_LANES,
            v@.len() == i,
            forall|k: int| 0 <= k < i ==> #[trigger] v@[k] == 0,
        decreases TF_LANES - i,
    {
        v.push(0);
        i = i + 1;
    }
    proof {
        assert(v@ =~= Seq::new(TF_LANES as nat, |i: int| 0i64));
    }
    v
}

/// A copy of a TF accumulator.
fn copy_lanes(l: &Vec<i64>) -> (r: Vec<i64>)
    ensures
        r@ == l@,
{
    let mut v: Vec<i64> = Vec::new();
    let mut i: usize = 0;
    while i < l.len()
        invariant
            i <= l@.len(),
            v@ == l@.take(i as int),
        decreases l@.len() - i,
    {
        v.push(l[i]);
        proof {
            assert(l@.take(i + 1) =~= l@.take(i as int).push(l@[i as int]));
        }
        i = i + 1;
    }
    proof {
        assert(l@.take(i as int) =~= l@);
    }
    v
}

/// The simulated board driver.
#[derive(Debug)]
pub struct SimFpgaDriver {
    name: String,
    planes: Vec<HLLSet>,
    tf: Vec<(u64, Vec<i64>)>,
    lut: Vec<Vec<Vec<u8>>>,
    responses: Vec<Response>,
    submitted: u64,
    spec: Option<BoardSpec>,
}

impl View for SimFpgaDriver {
    type V = DriverView;

    closed spec fn view(&self) -> DriverView {
        DriverView {
            planes: self.planes@.map_values(|h: HLLSet| h@),
            tf: self.tf@.map_values(|e: (u64, Vec<i64>)| (e.0, e.1@)),
            lut: self.lut@.map_values(|g: Vec<Vec<u8>>| views(g@)),
            responses: self.responses@,
            submitted: self.submitted,
            configured: self.spec is Some,
        }
    }
}

impl SimFpgaDriver {
    /// Internal consistency.
    pub closed spec fn wf(&self) -> bool {
        &&& forall|k: int| 0 <= k < self.planes@.len() ==> (#[trigger] self.planes@[k]).wf()
        &&& self.lut@.len() == TOTAL_CELLS
        &&& forall|k: int| 0 <= k < self.tf@.len() ==> (#[trigger] self.tf@[k]).1@.len() == TF_LANES
        &&& forall|i: int, j: int| 0 <= i < j < self.tf@.len() ==> (#[trigger] self.tf@[i]).0 != (#[trigger] self.tf@[j]).0
    }

    /// The driver's name.
    pub closed spec fn name_spec(&self) -> Seq<char> {
        self.name@
    }

    /// A driver with no resident planes.
    pub fn new(name: String) -> (r: SimFpgaDriver)
        ensures
            r.wf(),
            r.name_spec() == name@,
            r@.planes == Seq::<Set<u32>>::empty(),
            r@.tf == Seq::<(u64, Seq<i64>)>::empty(),
            r@.lut == Seq::new(TOTAL_CELLS as nat, |i: int| Seq::<Seq<u8>>::empty()),
            r@.responses == Seq::<Response>::empty(),
            r@.submitted == 0,
            !r@.configured,
    {
        let mut lut: Vec<Vec<Vec<u8>>> = Vec::new();
        let mut i: usize = 0;
        while i < TOTAL_CELLS
            invariant
                i <= TOTAL_CELLS,
                lut@.len() == i,
                forall|k: int| 0 <= k < i ==> (#[trigger] lut@[k])@.len() == 0,
            decreases TOTAL_CELLS - i,
        {
            lut.push(Vec::new());
            i = i + 1;
        }
        let r = SimFpgaDriver {
            name,
            planes: Vec::new(),
            tf: Vec::new(),
            lut,
            responses: Vec::new(),
            submitted: 0,
            spec: None,
        };
        proof {
            assert(r@.planes =~= Seq::<Set<u32>>::empty());
            assert(r@.tf =~= Seq::<(u64, Seq<i64>)>::empty());
            assert forall|k: int| 0 <= k < TOTAL_CELLS implies #[trigger] r@.lut[k] == Seq::<Seq<u8>>::empty() by {
                assert(r.lut@[k]@.len() == 0);
                assert(views(r.lut@[k]@) =~= Seq::<Seq<u8>>::empty());
            }
            assert(r@.lut =~= Seq::new(TOTAL_CELLS as nat, |i: int| Seq::<Seq<u8>>::empty()));
        }
        r
    }

    fn alloc_plane(&mut self, plane: HLLSet) -> (id: u64)
        requires
            old(self).wf(),
            plane.wf(),
            old(self)@.planes.len() + 1 <= u64::MAX,
        ensures
            final(self).wf(),
            id == next_id(old(self)@),
            final(self)@ == with_plane(old(self)@, plane@),
            final(self).name_spec() == old(self).name_spec(),
    {
        self.planes.push(plane);
        let id = self.planes.len() as u64;
        proof {
            assert(self@.planes =~= old(self)@.planes.push(plane@));
        }
        id
    }

    /// Simulator bootstrap: make a host HLLSet resident; gives its plane id.
    pub fn upload(&mut self, hllset: &HLLSet) -> (id: u64)
        requires
            old(self).wf(),
            hllset.wf(),
            old(self)@.planes.len() + 1 <= u64::MAX,
        ensures
            final(self).wf(),
            id == next_id(old(self)@),
            final(self)@ == with_plane(old(self)@, hllset@),
            final(self).name_spec() == old(self).name_spec(),
    {
        self.alloc_plane(hllset.duplicate())
    }

    /// Simulator bootstrap: read a resident plane back as a host HLLSet.
    pub fn download(&self, id: u64) -> (r: Result<HLLSet, FpgaError>)
        requires
            self.wf(),
        ensures
            match r {
                Ok(h) => has_plane(self@, id) && h.wf() && h@ == plane_of(self@, id),
                Err(e) => !has_plane(self@, id) && e == FpgaError::UnknownPlane(id),
            },
    {
        if 1 <= id && id <= self.planes.len() as u64 {
            Ok(self.planes[self.slot(id)].duplicate())
        } else {
            Err(FpgaError::UnknownPlane(id))
        }
    }

    /// Load a token LUT into the board's LUT memory: the non-empty
    /// collision group of every cell replaces that cell's entry.
    pub fn load_lut(&mut self, lut: &TokenLutStorage)
        requires
            old(self).wf(),
            lut.wf(),
        ensures
            final(self).wf(),
            final(self)@.planes == old(self)@.planes,
            final(self)@.tf == old(self)@.tf,
            final(self)@.responses == old(self)@.responses,
            final(self)@.submitted == old(self)@.submitted,
            final(self)@.configured == old(self)@.configured,
            final(self).name_spec() == old(self).name_spec(),
            final(self)@.lut.len() == TOTAL_CELLS,
            forall|b: int|
                0 <= b < TOTAL_CELLS ==> #[trigger] final(self)@.lut[b] == if lut.token_seq().filter(
                    |t: Seq<u8>| token_bit(t) == b as u32,
                ).len() > 0 {
                    lut.token_seq().filter(|t: Seq<u8>| token_bit(t) == b as u32)
                } else {
                    old(self)@.lut[b]
                },
    {
        let mut b: usize = 0;
        while b < TOTAL_CELLS
            invariant
                old(self).wf(),
                lut.wf(),
                b <= TOTAL_CELLS,
                self.wf(),
                self@.planes == old(self)@.planes,
                self@.tf == old(self)@.tf,
                self@.responses == old(self)@.responses,
                self@.submitted == old(self)@.submitted,
                self@.configured == old(self)@.configured,
                self.name_spec() == old(self).name_spec(),
                forall|c: int|
                    0 <= c < TOTAL_CELLS ==> #[trigger] self@.lut[c] == if c < b && lut.token_seq().filter(
                        |t: Seq<u8>| token_bit(t) == c as u32,
                    ).len() > 0 {
                        lut.token_seq().filter(|t: Seq<u8>| token_bit(t) == c as u32)
                    } else {
                        old(self)@.lut[c]
                    },
            decreases TOTAL_CELLS - b,
        {
            let g = lut.group(b as u32);
            let ghost v0 = self@.lut;
            if g.len() > 0 {
                let ghost l0 = self.lut@;
                let ghost gv = views(g@);
                self.lut.set(b, g);
                proof {
                    assert(self.lut@ == l0.update(b as int, g));
                    assert(self@.lut =~= v0.update(b as int, gv));
                }
            }
            proof {
                assert(views(g@).len() == g@.len());
            }
            b = b + 1;
        }
    }

    proof fn lemma_plane_view(&self, id: u64)
        requires
            has_plane(self@, id),
        ensures
            plane_of(self@, id) == self.planes@[id - 1]@,
            self.planes@.len() == self@.planes.len(),
    {
        assert(self@.planes[id - 1] == self.planes@[id - 1]@);
    }

    fn has(&self, id: u64) -> (r: bool)
        ensures
            r == has_plane(self@, id),
    {
        1 <= id && id <= self.planes.len() as u64
    }

    /// The position of resident plane `id` in the plane store.
    fn slot(&self, id: u64) -> (r: usize)
        requires
            has_plane(self@, id),
        ensures
            r == id - 1,
            r < self.planes@.len(),
            plane_of(self@, id) == self.planes@[r as int]@,
    {
        proof {
            self.lemma_plane_view(id);
        }
        let len = self.planes.len();
        assert(id - 1 < len);
        (id - 1) as usize
    }

    fn exec_ingest(&mut self, tokens: &Vec<Vec<u8>>, seeds: &Vec<u64>) -> (id: u64)
        requires
            old(self).wf(),
            old(self)@.planes.len() + 1 <= u64::MAX,
        ensures
            final(self).wf(),
            final(self).name_spec() == old(self).name_spec(),
            id == next_id(old(self)@),
            final(self)@ == with_plane(
                old(self)@,
                ingest_cells(views(tokens@), if seeds@.len() == 0 { seq![0u64] } else { seeds@ }),
            ),
    {
        let mut sd: Vec<u64> = Vec::new();
        if seeds.len() == 0 {
            sd.push(0);
        } else {
            let mut j: usize = 0;
            while j < seeds.len()
                invariant
                    j <= seeds@.len(),
                    sd@ == seeds@.take(j as int),
                decreases seeds@.len() - j,
            {
                sd.push(seeds[j]);
                proof {
                    assert(seeds@.take(j + 1) =~= seeds@.take(j as int).push(seeds@[j as int]));
                }
                j = j + 1;
            }
            proof {
                assert(seeds@.take(j as int) =~= seeds@);
            }
        }
        proof {
            if seeds@.len() == 0 {
                assert(sd@ =~= seq![0u64]);
            }
        }
        let ghost tv = views(tokens@);
        let mut plane = HLLSet::new();
        let mut i: usize = 0;
        proof {
            assert(plane@ =~= ingest_upto(tv, sd@, 0, 0));
        }
        while i < tokens.len()
            invariant
                tv == views(tokens@),
                i <= tokens@.len(),
                plane.wf(),
                plane@ == ingest_upto(tv, sd@, i as int, 0),
            decreases tokens@.len() - i,
        {
            let mut j: usize = 0;
            while j < sd.len()
                invariant
                    tv == views(tokens@),
                    i < tokens@.len(),
                    j <= sd@.len(),
                    plane.wf(),
                    plane@ == ingest_upto(tv, sd@, i as int, j as int),
                decreases sd@.len() - j,
            {
                let h = murmur3_hash_seeded(tokens[i].as_slice(), sd[j]);
                plane.add_hash(h);
                proof {
                    lemma_ingest_upto_step(tv, sd@, i as int, j as int);
                    assert(tokens@[i as int]@ == tv[i as int]);
                }
                j = j + 1;
            }
            proof {
                lemma_ingest_upto_row(tv, sd@, i as int);
            }
            i = i + 1;
        }
        proof {
            lemma_ingest_upto_all(tv, sd@);
        }
        self.alloc_plane(plane)
    }

    fn exec_gram(&mut self, tokens: &Vec<Vec<u8>>) -> (id: u64)
        requires
            old(self).wf(),
            old(self)@.planes.len() + 1 <= u64::MAX,
        ensures
            final(self).wf(),
            final(self).name_spec() == old(self).name_spec(),
            id == next_id(old(self)@),
            final(self)@ == with_plane(old(self)@, gram_cells(views(tokens@))),
    {
        let ghost tv = views(tokens@);
        let n = tokens.len();
        let mut plane = HLLSet::new();
        let mut start: usize = 0;
        proof {
            assert(plane@ =~= Set::new(|b: u32| exists|s: int| 0 <= s < 0 && #[trigger] gram_cell(tv, s) == b));
        }
        while start < n
            invariant
                tv == views(tokens@),
                n == tokens@.len(),
                start <= n,
                plane.wf(),
                plane@ == Set::new(|b: u32| exists|s: int| 0 <= s < start && #[trigger] gram_cell(tv, s) == b),
            decreases n - start,
        {
            let end = if n - start > 3 { start + 3 } else { n };
            let mut gram: Vec<u8> = Vec::new();
            let mut i: usize = start;
            proof {
                assert(gram@ =~= gram_join(tv, start as int, start as int));
            }
            while i < end
                invariant
                    tv == views(tokens@),
                    start <= i <= end,
                    end <= n,
                    n == tokens@.len(),
                    gram@ == gram_join(tv, start as int, i as int),
                decreases end - i,
            {
                let ghost g0 = gram@;
                if i > start {
                    gram.push(0u8);
                }
                append_bytes(&mut gram, tokens[i].as_slice());
                proof {
                    assert(tokens@[i as int]@ == tv[i as int]);
                    if i > start {
                        assert(gram@ =~= g0 + seq![0u8] + tv[i as int]);
                    } else {
                        assert(gram@ =~= tv[i as int]);
                    }
                }
                i = i + 1;
            }
            let h = murmur3_hash_seeded(gram.as_slice(), 0);
            let ghost p0 = plane@;
            plane.add_hash(h);
            proof {
                assert(end == gram_end(n as nat, start as int));
                assert(bit_of_hash(h) == gram_cell(tv, start as int));
                assert(plane@ =~= Set::new(|b: u32| exists|s: int| 0 <= s < start + 1 && #[trigger] gram_cell(tv, s) == b)) by {
                    assert forall|b: u32| plane@.contains(b) implies exists|s: int| 0 <= s < start + 1 && #[trigger] gram_cell(tv, s) == b by {
                        if b != gram_cell(tv, start as int) {
                            assert(p0.contains(b));
                        }
                    }
                    assert forall|b: u32| (exists|s: int| 0 <= s < start + 1 && #[trigger] gram_cell(tv, s) == b) implies plane@.contains(b) by {
                        let s = choose|s: int| 0 <= s < start + 1 && #[trigger] gram_cell(tv, s) == b;
                        if s < start {
                            assert(p0.contains(b));
                        }
                    }
                }
            }
            start = start + 1;
        }
        proof {
            assert(plane@ =~= gram_cells(tv));
        }
        self.alloc_plane(plane)
    }

    fn exec_algebra(&mut self, op: AlgebraOp, a: u64, b: u64) -> (r: Result<Response, FpgaError>)
        requires
            old(self).wf(),
            old(self)@.planes.len() + 1 <= u64::MAX,
        ensures
            final(self).wf(),
            final(self).name_spec() == old(self).name_spec(),
            exec_spec(old(self)@, final(self)@, Command::Algebra { op, a, b }, r),
    {
        if !self.has(a) {
            return Err(FpgaError::UnknownPlane(a));
        }
        if !self.has(b) {
            return Err(FpgaError::UnknownPlane(b));
        }
        let pa = &self.planes[self.slot(a)];
        let pb = &self.planes[self.slot(b)];
        let result = match op {
            AlgebraOp::Or => pa.union(pb),
            AlgebraOp::And => pa.intersection(pb),
            AlgebraOp::AndNot => pa.difference(pb),
            AlgebraOp::Xor => pa.symmetric_difference(pb),
        };
        proof {
            assert(result@ == algebra_spec(op, plane_of(self@, a), plane_of(self@, b)));
        }
        let ghost s0 = self@;
        let id = self.alloc_plane(result);
        proof {
            assert(self@ == with_plane(s0, algebra_spec(op, plane_of(s0, a), plane_of(s0, b))));
        }
        Ok(Response::Plane { id })
    }

    fn exec_drn(&mut self, prev: u64, curr: u64) -> (r: Result<Response, FpgaError>)
        requires
            old(self).wf(),
            old(self)@.planes.len() + 3 <= u64::MAX,
        ensures
            final(self).wf(),
            final(self).name_spec() == old(self).name_spec(),
            exec_spec(old(self)@, final(self)@, Command::Drn { prev, curr }, r),
    {
        if !self.has(prev) {
            return Err(FpgaError::UnknownPlane(prev));
        }
        if !self.has(curr) {
            return Err(FpgaError::UnknownPlane(curr));
        }
        let pp = self.planes[self.slot(prev)].duplicate();
        let pc = self.planes[self.slot(curr)].duplicate();
        let departed = self.alloc_plane(pp.difference(&pc));
        let retained = self.alloc_plane(pp.intersection(&pc));
        let new = self.alloc_plane(pc.difference(&pp));
        Ok(Response::Drn { departed, retained, new })
    }

    fn exec_popcount(&self, plane: u64) -> (r: Result<Response, FpgaError>)
        requires
            self.wf(),
        ensures
            exec_spec(self@, self@, Command::Popcount { plane }, r),
    {
        if !self.has(plane) {
            return Err(FpgaError::UnknownPlane(plane));
        }
        let p = &self.planes[self.slot(plane)];
        proof {
            p.lemma_wf();
        }
        let v = p.popcount();
        Ok(Response::Popcount { value: v as u32 })
    }

    fn exec_hist(&self, plane: u64) -> (r: Result<Response, FpgaError>)
        requires
            self.wf(),
        ensures
            exec_spec(self@, self@, Command::Hist { plane }, r),
    {
        if !self.has(plane) {
            return Err(FpgaError::UnknownPlane(plane));
        }
        let p = &self.planes[self.slot(plane)];
        let pos = p.positions();
        proof {
            p.lemma_wf();
        }
        let mut counts: Vec<u32> = Vec::new();
        let mut k: usize = 0;
        while k < 32
            invariant
                k <= 32,
                counts@.len() == k,
                forall|m: int| 0 <= m < k ==> #[trigger] counts@[m] == 0,
            decreases 32 - k,
        {
            counts.push(0);
            k = k + 1;
        }
        let mut i: usize = 0;
        while i < pos.len()
            invariant
                pos@.len() <= TOTAL_CELLS,
                i <= pos@.len(),
                counts@.len() == 32,
                forall|m: int| 0 <= m < 32 ==> #[trigger] counts@[m] == lane_prefix(pos@.take(i as int), m),
            decreases pos@.len() - i,
        {
            let lane = (pos[i] % 32) as usize;
            proof {
                assert(pos@.take(i + 1) =~= pos@.take(i as int).push(pos@[i as int]));
                assert forall|m: int| 0 <= m < 32 implies #[trigger] lane_prefix(pos@.take(i + 1), m)
                    == lane_prefix(pos@.take(i as int), m) + if m == lane { 1int } else { 0int } by {
                    pos@.take(i as int).lemma_filter_push(pos@[i as int], in_lane(m));
                }
                assert(lane_prefix(pos@.take(i as int), lane as int) <= i);
            }
            let c = counts[lane];
            counts.set(lane, c + 1);
            i = i + 1;
        }
        proof {
            assert(pos@.take(i as int) =~= pos@);
            assert forall|m: int| 0 <= m < 32 implies #[trigger] counts@[m] == lane_count(p@, m as u32) by {
                lemma_ascending_no_dup(pos@);
                crate::kstorage::lemma_filter_count(pos@, p@, in_lane(m));
            }
        }
        Ok(Response::Hist { counts })
    }

    proof fn lemma_tf_view(&self)
        requires
            self.wf(),
        ensures
            tf_distinct(self@.tf),
            self@.tf.len() == self.tf@.len(),
            forall|i: int| 0 <= i < self.tf@.len() ==> #[trigger] self@.tf[i] == (self.tf@[i].0, self.tf@[i].1@),
            forall|i: int| 0 <= i < self.tf@.len() ==> (#[trigger] self@.tf[i]).1.len() == TF_LANES,
    {
        assert forall|i: int, j: int| 0 <= i < j < self@.tf.len() implies (#[trigger] self@.tf[i]).0 != (#[trigger] self@.tf[j]).0 by {
            assert(self@.tf[i].0 == self.tf@[i].0);
            assert(self@.tf[j].0 == self.tf@[j].0);
        }
    }

    /// The position of the accumulator of `id`, created with zero lanes
    /// when absent.
    fn tf_slot(&mut self, id: u64) -> (k: usize)
        requires
            old(self).wf(),
        ensures
            final(self).wf(),
            final(self).name_spec() == old(self).name_spec(),
            final(self).planes == old(self).planes,
            final(self)@ == (DriverView { tf: tf_with(old(self)@.tf, id, lanes_of(old(self)@.tf, id)), ..old(self)@ }),
            k < final(self).tf@.len(),
            k == tf_pos(final(self)@.tf, id),
            final(self).tf@[k as int].0 == id,
            final(self).tf@[k as int].1@ == lanes_of(old(self)@.tf, id),
    {
        proof {
            self.lemma_tf_view();
            lemma_tf_pos(self@.tf, id);
        }
        let mut i: usize = 0;
        while i < self.tf.len()
            invariant
                self.wf(),
                *self == *old(self),
                tf_distinct(self@.tf),
                self@.tf.len() == self.tf@.len(),
                forall|j: int| 0 <= j < self.tf@.len() ==> #[trigger] self@.tf[j] == (self.tf@[j].0, self.tf@[j].1@),
                i <= self.tf@.len(),
                forall|j: int| 0 <= j < i ==> (#[trigger] self.tf@[j]).0 != id,
            decreases self.tf@.len() - i,
        {
            if self.tf[i].0 == id {
                proof {
                    assert(self@.tf[i as int].0 == id);
                    lemma_tf_pos_at(self@.tf, id, i as int);
                    assert(tf_with(self@.tf, id, lanes_of(self@.tf, id)) =~= self@.tf);
                }
                return i;
            }
            i = i + 1;
        }
        proof {
            assert forall|j: int| 0 <= j < self@.tf.len() implies (#[trigger] self@.tf[j]).0 != id by {
                assert(self@.tf[j].0 == self.tf@[j].0);
            }
        }
        let zeros = zero_lanes();
        let ghost v0 = self@.tf;
        self.tf.push((id, zeros));
        proof {
            assert(self@.tf =~= v0.push((id, zeros@)));
            assert(zeros@ =~= lanes_of(v0, id));
            lemma_tf_with_twice(v0, id, zeros@, zeros@);
            lemma_tf_pos(v0, id);
            assert(self@ =~= (DriverView { tf: tf_with(old(self)@.tf, id, lanes_of(old(self)@.tf, id)), ..old(self)@ }));
            assert forall|a: int, b: int| 0 <= a < b < self.tf@.len() implies (#[trigger] self.tf@[a]).0 != (#[trigger] self.tf@[b]).0 by {
                if b < v0.len() {
                    assert(self.tf@[a] == old(self).tf@[a]);
                    assert(self.tf@[b] == old(self).tf@[b]);
                } else {
                    assert(self.tf@[a] == old(self).tf@[a]);
                    assert(v0[a].0 == old(self).tf@[a].0);
                }
            }
        }
        self.tf.len() - 1
    }

    fn exec_tf_add(&mut self, plane: u64, delta: i64) -> (r: Result<Response, FpgaError>)
        requires
            old(self).wf(),
            has_plane(old(self)@, plane) ==> tf_add_fits(old(self)@, plane, delta),
        ensures
            final(self).wf(),
            final(self).name_spec() == old(self).name_spec(),
            exec_spec(old(self)@, final(self)@, Command::TfAdd { plane, delta }, r),
    {
        if !self.has(plane) {
            return Err(FpgaError::UnknownPlane(plane));
        }
        let ghost s0 = self@;
        let sl = self.slot(plane);
        let pos = self.planes[sl].positions();
        proof {
            self.planes@[sl as int].lemma_wf();
        }
        let k = self.tf_slot(plane);
        let ghost tf1 = self@.tf;
        let ghost l0 = lanes_of(s0.tf, plane);
        let (id0, mut lanes) = self.tf.remove(k);
        let ghost pset = plane_of(s0, plane);
        let mut i: usize = 0;
        while i < pos.len()
            invariant
                pos@.to_set() == pset,
                forall|x: int, y: int| 0 <= x < y < pos@.len() ==> #[trigger] pos@[x] < #[trigger] pos@[y],
                forall|x: int| 0 <= x < pos@.len() ==> (#[trigger] pos@[x] as int) < TOTAL_CELLS,
                l0.len() == TF_LANES,
                forall|j: int| 0 <= j < TF_LANES && pset.contains(j as u32) ==> i64::MIN <= #[trigger] l0[j] + delta <= i64::MAX,
                i <= pos@.len(),
                lanes@.len() == TF_LANES,
                forall|j: int| 0 <= j < TF_LANES ==> #[trigger] lanes@[j] == if pos@.take(i as int).contains(j as u32) {
                    (l0[j] + delta) as i64
                } else {
                    l0[j]
                },
            decreases pos@.len() - i,
        {
            let p = pos[i];
            proof {
                assert(pos@.take(i + 1) =~= pos@.take(i as int).push(p));
                assert(!pos@.take(i as int).contains(p)) by {
                    if pos@.take(i as int).contains(p) {
                        let m = choose|m: int| 0 <= m < i && pos@.take(i as int)[m] == p;
                        assert(pos@[m] < pos@[i as int]);
                    }
                }
                assert(pset.contains(p));
                assert((p as int) as u32 == p);
            }
            let v = lanes[p as usize];
            lanes.set(p as usize, v + delta);
            proof {
                assert forall|j: int| 0 <= j < TF_LANES implies #[trigger] lanes@[j] == if pos@.take(i + 1).contains(j as u32) {
                    (l0[j] + delta) as i64
                } else {
                    l0[j]
                } by {
                    if j == p as int {
                    } else {
                        assert(j as u32 != p);
                    }
                }
            }
            i = i + 1;
        }
        proof {
            assert(pos@.take(i as int) =~= pos@);
            assert(lanes@ =~= add_lanes(l0, pset, delta));
        }
        let ghost v1 = self@.tf;
        self.tf.insert(k, (id0, lanes));
        proof {
            assert(self@.tf =~= tf1.update(k as int, (plane, lanes@)));
            lemma_tf_pos(s0.tf, plane);
            lemma_tf_with_twice(s0.tf, plane, l0, add_lanes(l0, pset, delta));
            assert(self@ =~= (DriverView { tf: tf_with(s0.tf, plane, add_lanes(lanes_of(s0.tf, plane), plane_of(s0, plane), delta)), ..s0 }));
            assert forall|a: int, b: int| 0 <= a < b < self.tf@.len() implies (#[trigger] self.tf@[a]).0 != (#[trigger] self.tf@[b]).0 by {
                assert(self@.tf[a].0 == self.tf@[a].0);
                assert(self@.tf[b].0 == self.tf@[b].0);
                assert(tf_distinct(self@.tf));
            }
            assert forall|a: int| 0 <= a < self.tf@.len() implies (#[trigger] self.tf@[a]).1@.len() == TF_LANES by {
                if a != k {
                    assert(self.tf@[a] == old(self).tf@[a] || self.tf@[a].1@ == tf1[a].1);
                }
            }
        }
        Ok(Response::Ack)
    }

    fn exec_tf_merge(&mut self, a: u64, b: u64) -> (r: Result<Response, FpgaError>)
        requires
            old(self).wf(),
        ensures
            final(self).wf(),
            final(self).name_spec() == old(self).name_spec(),
            exec_spec(old(self)@, final(self)@, Command::TfMerge { a, b }, r),
    {
        let ghost s0 = self@;
        let kb = self.tf_slot(b);
        let ghost tf1 = self@.tf;
        let bl = copy_lanes(&self.tf[kb].1);
        proof {
            self.lemma_tf_view();
            lemma_tf_with_twice(s0.tf, b, lanes_of(s0.tf, b), lanes_of(s0.tf, b));
            assert(bl@ == lanes_of(tf1, b));
        }
        let ka = self.tf_slot(a);
        let ghost tf2 = self@.tf;
        proof {
            self.lemma_tf_view();
            lemma_tf_pos(tf1, a);
        }
        let ghost la = lanes_of(tf1, a);
        let (ida, mut al) = self.tf.remove(ka);
        proof {
            assert(al@ == la);
            assert(al@.len() == TF_LANES) by {
                lemma_tf_pos(tf1, a);
                if tf_pos(tf1, a) >= 0 {
                    assert(tf1[tf_pos(tf1, a)].1.len() == TF_LANES);
                }
            }
            assert(bl@.len() == TF_LANES) by {
                lemma_tf_pos(tf1, b);
            }
        }
        let mut i: usize = 0;
        while i < TF_LANES
            invariant
                i <= TF_LANES,
                al@.len() == TF_LANES,
                bl@.len() == TF_LANES,
                la.len() == TF_LANES,
                forall|j: int| 0 <= j < TF_LANES ==> #[trigger] al@[j] == if j < i {
                    if la[j] >= bl@[j] { la[j] } else { bl@[j] }
                } else {
                    la[j]
                },
            decreases TF_LANES - i,
        {
            if bl[i] > al[i] {
                al.set(i, bl[i]);
            }
            i = i + 1;
        }
        proof {
            assert(al@ =~= max_lanes(la, lanes_of(tf1, b)));
        }
        self.tf.insert(ka, (ida, al));
        proof {
            assert(self@.tf =~= tf2.update(ka as int, (a, al@)));
            lemma_tf_with_twice(tf1, a, la, al@);
            assert(self@ =~= (DriverView { tf: tf_with(tf1, a, max_lanes(lanes_of(tf1, a), lanes_of(tf1, b))), ..s0 }));
            assert(tf_distinct(self@.tf));
            assert forall|x: int, y: int| 0 <= x < y < self.tf@.len() implies (#[trigger] self.tf@[x]).0 != (#[trigger] self.tf@[y]).0 by {
                assert(self@.tf[x].0 == self.tf@[x].0);
                assert(self@.tf[y].0 == self.tf@[y].0);
            }
            assert forall|x: int| 0 <= x < self.tf@.len() implies (#[trigger] self.tf@[x]).1@.len() == TF_LANES by {
                if x != ka {
                    assert(self.tf@[x].1@ == tf2[x].1);
                }
            }
        }
        Ok(Response::Ack)
    }

    fn exec_lookup(&self, positions: &Vec<(u32, u32)>) -> (r: Result<Response, FpgaError>)
        requires
            self.wf(),
        ensures
            exec_spec(self@, self@, Command::Lookup { positions: *positions }, r),
    {
        let mut out: Vec<Vec<u8>> = Vec::new();
        let mut i: usize = 0;
        while i < positions.len()
            invariant
                self.wf(),
                i <= positions@.len(),
                views(out@) == lookup_spec(self@.lut, positions@.take(i as int)),
            decreases positions@.len() - i,
        {
            let (reg, tz) = positions[i];
            proof {
                assert(positions@.take(i + 1).drop_last() =~= positions@.take(i as int));
            }
            if reg < 1024 && tz < 32 {
                let cell = (reg * 32 + tz) as usize;
                let ghost base = views(out@);
                let mut j: usize = 0;
                proof {
                    assert(self@.lut[cell as int] == views(self.lut@[cell as int]@));
                }
                while j < self.lut[cell].len()
                    invariant
                        self.wf(),
                        (cell as int) < TOTAL_CELLS,
                        j <= self.lut@[cell as int]@.len(),
                        views(out@) == base + views(self.lut@[cell as int]@).take(j as int),
                    decreases self.lut@[cell as int]@.len() - j,
                {
                    let t = crate::bytes_order::clone_bytes(&self.lut[cell][j]);
                    let ghost o0 = out@;
                    out.push(t);
                    proof {
                        assert(views(out@) =~= views(o0).push(t@));
                        assert(views(self.lut@[cell as int]@).take(j + 1) =~= views(self.lut@[cell as int]@).take(j as int).push(t@));
                    }
                    j = j + 1;
                }
                proof {
                    assert(views(self.lut@[cell as int]@).take(j as int) =~= views(self.lut@[cell as int]@));
                }
            } else {
                proof {
                    assert(views(out@) =~= views(out@) + Seq::<Seq<u8>>::empty());
                }
            }
            i = i + 1;
        }
        proof {
            assert(positions@.take(i as int) =~= positions@);
        }
        Ok(Response::Candidates { tokens: out })
    }

    fn exec_status(&self) -> (r: Result<Response, FpgaError>)
        requires
            self.wf(),
        ensures
            exec_spec(self@, self@, Command::Status, r),
    {
        let mut nonempty: u64 = 0;
        let mut b: usize = 0;
        proof {
            assert(self@.lut.take(0) =~= Seq::<Seq<Seq<u8>>>::empty());
        }
        while b < TOTAL_CELLS
            invariant
                self.wf(),
                b <= TOTAL_CELLS,
                nonempty <= b,
                nonempty == nonempty_groups(self@.lut.take(b as int)),
            decreases TOTAL_CELLS - b,
        {
            proof {
                assert(self@.lut.take(b + 1).drop_last() =~= self@.lut.take(b as int));
                assert(self@.lut[b as int] == views(self.lut@[b as int]@));
            }
            if self.lut[b].len() > 0 {
                nonempty = nonempty + 1;
            }
            b = b + 1;
        }
        proof {
            assert(self@.lut.take(b as int) =~= self@.lut);
        }
        let mut counters: Vec<(String, u64)> = Vec::new();
        counters.push(("submitted".to_owned(), self.submitted));
        counters.push(("resident_planes".to_owned(), self.planes.len() as u64));
        counters.push(("tf_accumulators".to_owned(), self.tf.len() as u64));
        counters.push(("lut_entries".to_owned(), nonempty));
        let configured: u64 = if self.spec.is_some() { 1 } else { 0 };
        counters.push(("configured".to_owned(), configured));
        Ok(Response::Status { counters })
    }

    /// Execute one command against the resident state.
    fn exec(&mut self, cmd: Command) -> (r: Result<Response, FpgaError>)
        requires
            old(self).wf(),
            exec_fits(old(self)@, cmd),
        ensures
            final(self).wf(),
            final(self).name_spec() == old(self).name_spec(),
            exec_spec(old(self)@, final(self)@, cmd, r),
    {
        match cmd {
            Command::Ingest { tokens, seeds } => {
                let id = self.exec_ingest(&tokens, &seeds);
                Ok(Response::Plane { id })
            },
            Command::Gram { tokens } => {
                let id = self.exec_gram(&tokens);
                Ok(Response::Plane { id })
            },
            Command::Algebra { op, a, b } => self.exec_algebra(op, a, b),
            Command::Drn { prev, curr } => self.exec_drn(prev, curr),
            Command::Popcount { plane } => self.exec_popcount(plane),
            Command::Hist { plane } => self.exec_hist(plane),
            Command::TfAdd { plane, delta } => self.exec_tf_add(plane, delta),
            Command::TfMerge { a, b } => self.exec_tf_merge(a, b),
            Command::Lookup { positions } => self.exec_lookup(&positions),
            Command::Forth { .. } => Err(FpgaError::Unsupported("Forth core".to_owned())),
            Command::Configure { spec } => {
                self.spec = Some(spec);
                Ok(Response::Ack)
            },
            Command::Status => self.exec_status(),
        }
    }

    /// Submit a command: it runs at once and its response is queued; an
    /// error is returned instead. The command counts as submitted either way.
    pub fn submit(&mut self, cmd: Command) -> (r: Result<(), FpgaError>)
        requires
            old(self).wf(),
            exec_fits(old(self)@, cmd),
            old(self)@.submitted < u64::MAX,
        ensures
            final(self).wf(),
            final(self).name_spec() == old(self).name_spec(),
            exists|t: DriverView, rr: Result<Response, FpgaError>| {
                &&& #[trigger] exec_spec(counted(old(self)@), t, cmd, rr)
                &&& match rr {
                    Ok(resp) => r is Ok && final(self)@ == (DriverView { responses: t.responses.push(resp), ..t }),
                    Err(e) => r == Err::<(), FpgaError>(e) && final(self)@ == t,
                }
            },
    {
        self.submitted = self.submitted + 1;
        let ghost mid = self@;
        proof {
            assert(mid =~= counted(old(self)@));
            assert(exec_fits(mid, cmd));
        }
        let rr = self.exec(cmd);
        let ghost t = self@;
        match rr {
            Ok(resp) => {
                let ghost rv = resp;
                self.responses.push(resp);
                proof {
                    assert(self@ =~= (DriverView { responses: t.responses.push(rv), ..t }));
                    assert(exec_spec(mid, t, cmd, Ok::<Response, FpgaError>(rv)));
                }
                Ok(())
            },
            Err(e) => {
                proof {
                    assert(exec_spec(mid, t, cmd, Err::<Response, FpgaError>(e)));
                }
                Err(e)
            },
        }
    }

    /// Take every queued response, oldest first.
    pub fn drain(&mut self) -> (r: Result<Vec<Response>, FpgaError>)
        requires
            old(self).wf(),
        ensures
            final(self).wf(),
            final(self).name_spec() == old(self).name_spec(),
            r matches Ok(v) && v@ == old(self)@.responses,
            final(self)@ == (DriverView { responses: Seq::<Response>::empty(), ..old(self)@ }),
    {
        let mut out: Vec<Response> = Vec::new();
        std::mem::swap(&mut out, &mut self.responses);
        proof {
            assert(self@ =~= (DriverView { responses: Seq::<Response>::empty(), ..old(self)@ }));
        }
        Ok(out)
    }

    /// The driver's counters: commands submitted and resident planes.
    pub fn status(&self) -> (r: Result<Vec<(String, u64)>, FpgaError>)
        ensures
            r matches Ok(c) && c@.len() == 2 && c@[0].0@ == "submitted"@ && c@[0].1 == self@.submitted
                && c@[1].0@ == "resident_planes"@ && c@[1].1 == self@.planes.len(),
    {
        let mut c: Vec<(String, u64)> = Vec::new();
        c.push(("submitted".to_owned(), self.submitted));
        c.push(("resident_planes".to_owned(), self.planes.len() as u64));
        Ok(c)
    }

    /// The driver's name.
    pub fn name(&self) -> (r: &str)
        ensures
            r@ == self.name_spec(),
    {
        self.name.as_str()
    }
}


/// The decimal digits of `n`, as characters.
pub open spec fn number_chars(n: nat) -> Seq<char> {
    ascii_chars(decimal_bytes(n))
}

/// A short description of a response: its kind with its numbers, and the
/// length of a list it carries.
pub open spec fn describe_spec(r: Response) -> Seq<char> {
    match r {
        Response::Plane { id } => "Plane "@ + number_chars(id as nat),
        Response::Drn { departed, retained, new } => "Drn "@ + number_chars(departed as nat) + " "@
            + number_chars(retained as nat) + " "@ + number_chars(new as nat),
        Response::Popcount { value } => "Popcount "@ + number_chars(value as nat),
        Response::Hist { counts } => "Hist of "@ + number_chars(counts@.len()) + " lanes"@,
        Response::Candidates { tokens } => "Candidates: "@ + number_chars(tokens@.len()) + " tokens"@,
        Response::Ack => "Ack"@,
        Response::Status { counters } => "Status: "@ + number_chars(counters@.len()) + " counters"@,
    }
}

/// Append the characters of `s`.
fn push_chars(out: &mut Vec<char>, s: &str)
    ensures
        final(out)@ == old(out)@ + s@,
{
    let cs = chars_of(s);
    let ghost o0 = out@;
    let mut i: usize = 0;
    while i < cs.len()
        invariant
            i <= cs@.len(),
            out@ == o0 + cs@.take(i as int),
        decreases cs@.len() - i,
    {
        out.push(cs[i]);
        proof {
            assert(cs@.take(i + 1) =~= cs@.take(i as int).push(cs@[i as int]));
        }
        i = i + 1;
    }
    proof {
        assert(cs@.take(i as int) =~= cs@);
    }
}

/// Append the decimal digits of `n`.
fn push_number(out: &mut Vec<char>, n: u64)
    ensures
        final(out)@ == old(out)@ + number_chars(n as nat),
{
    let mut b: Vec<u8> = Vec::new();
    push_decimal(n, &mut b);
    assert(b@ =~= decimal_bytes(n as nat));
    let ghost o0 = out@;
    let mut i: usize = 0;
    while i < b.len()
        invariant
            i <= b@.len(),
            out@ == o0 + ascii_chars(b@.take(i as int)),
        decreases b@.len() - i,
    {
        out.push(b[i] as char);
        proof {
            assert(ascii_chars(b@.take(i + 1)) =~= ascii_chars(b@.take(i as int)).push(b@[i as int] as char));
        }
        i = i + 1;
    }
    proof {
        assert(b@.take(i as int) =~= b@);
    }
}

impl Response {
    /// A short description of the response (see [`describe_spec`]).
    pub fn describe(&self) -> (s: String)
        ensures
            s@ == describe_spec(*self),
    {
        let mut out: Vec<char> = Vec::new();
        match self {
            Response::Plane { id } => {
                push_chars(&mut out, "Plane ");
                push_number(&mut out, *id);
            },
            Response::Drn { departed, retained, new } => {
                push_chars(&mut out, "Drn ");
                push_number(&mut out, *departed);
                push_chars(&mut out, " ");
                push_number(&mut out, *retained);
                push_chars(&mut out, " ");
                push_number(&mut out, *new);
            },
            Response::Popcount { value } => {
                push_chars(&mut out, "Popcount ");
                push_number(&mut out, *value as u64);
            },
            Response::Hist { counts } => {
                push_chars(&mut out, "Hist of ");
                push_number(&mut out, counts.len() as u64);
                push_chars(&mut out, " lanes");
            },
            Response::Candidates { tokens } => {
                push_chars(&mut out, "Candidates: ");
                push_number(&mut out, tokens.len() as u64);
                push_chars(&mut out, " tokens");
            },
            Response::Ack => {
                push_chars(&mut out, "Ack");
            },
            Response::Status { counters } => {
                push_chars(&mut out, "Status: ");
                push_number(&mut out, counters.len() as u64);
                push_chars(&mut out, " counters");
            },
        }
        assert(out@ =~= describe_spec(*self));
        string_from_chars(&out)
    }
}

/// The message for an unexpected response: what was expected, and what
/// came.
fn unexpected_response(expected: &str, got: &Response) -> (s: String)
    ensures
        s@ == "expected "@ + expected@ + ", got "@ + describe_spec(*got),
{
    let mut out: Vec<char> = Vec::new();
    push_chars(&mut out, "expected ");
    push_chars(&mut out, expected);
    push_chars(&mut out, ", got ");
    let d = got.describe();
    push_chars(&mut out, d.as_str());
    assert(out@ =~= "expected "@ + expected@ + ", got "@ + describe_spec(*got));
    string_from_chars(&out)
}

/// A copy of a seed list.
fn copy_seeds(s: &[u64]) -> (r: Vec<u64>)
    ensures
        r@ == s@,
{
    let mut v: Vec<u64> = Vec::new();
    let mut i: usize = 0;
    while i < s.len()
        invariant
            i <= s@.len(),
            v@ == s@.take(i as int),
        decreases s@.len() - i,
    {
        v.push(s[i]);
        proof {
            assert(s@.take(i + 1) =~= s@.take(i as int).push(s@[i as int]));
        }
        i = i + 1;
    }
    proof {
        assert(s@.take(i as int) =~= s@);
    }
    v
}

/// Room for one more wrapper operation: a few plane ids and a command.
pub open spec fn has_room(s: DriverView) -> bool {
    s.planes.len() + 8 <= u64::MAX && s.submitted + 2 <= u64::MAX
}

/// HLLSet-level delegation: every operation submits protocol commands and
/// drains the responses.
#[derive(Debug)]
pub struct FpgaSim {
    driver: SimFpgaDriver,
}

impl FpgaSim {
    /// Internal consistency.
    pub closed spec fn wf(&self) -> bool {
        self.driver.wf()
    }

    /// The state of the board.
    pub closed spec fn state(&self) -> DriverView {
        self.driver@
    }

    /// The underlying driver.
    pub closed spec fn driver_spec(&self) -> SimFpgaDriver {
        self.driver
    }

    /// A simulator with an empty board.
    pub fn new(name: String) -> (r: FpgaSim)
        ensures
            r.wf(),
            r.state().planes.len() == 0,
            r.state().responses.len() == 0,
            r.state().submitted == 0,
    {
        FpgaSim { driver: SimFpgaDriver::new(name) }
    }

    /// The underlying driver, for direct protocol access.
    pub fn driver(&mut self) -> (r: &mut SimFpgaDriver)
        ensures
            *r == old(self).driver_spec(),
            final(self).driver_spec() == *final(r),
    {
        &mut self.driver
    }

    /// Take the responses; the last one is the answer.
    fn one(&mut self) -> (r: Result<Response, FpgaError>)
        requires
            old(self).wf(),
        ensures
            final(self).wf(),
            final(self).state() == (DriverView { responses: Seq::<Response>::empty(), ..old(self).state() }),
            old(self).state().responses.len() > 0 ==> r == Ok::<Response, FpgaError>(old(self).state().responses.last()),
            old(self).state().responses.len() == 0 ==> r is Err,
    {
        match self.driver.drain() {
            Ok(mut responses) => match responses.pop() {
                Some(resp) => Ok(resp),
                None => Err(FpgaError::Protocol("no response from FPGA".to_owned())),
            },
            Err(e) => Err(e),
        }
    }

    /// The plane a response names, downloaded.
    fn plane_from(&self, response: Response) -> (r: Result<HLLSet, FpgaError>)
        requires
            self.wf(),
        ensures
            response is Plane && has_plane(self.state(), response->id) ==> (r matches Ok(h) && h.wf()
                && h@ == plane_of(self.state(), response->id)),
    {
        match response {
            Response::Plane { id } => self.driver.download(id),
            other => Err(FpgaError::Protocol(unexpected_response("plane response", &other))),
        }
    }

    /// Run one command whose answer is a new plane.
    fn run_plane(&mut self, cmd: Command, Ghost(cells): Ghost<Set<u32>>) -> (r: Result<HLLSet, FpgaError>)
        requires
            old(self).wf(),
            exec_fits(old(self).state(), cmd),
            old(self).state().submitted < u64::MAX,
            forall|t: DriverView, rr: Result<Response, FpgaError>|
                #[trigger] exec_spec(counted(old(self).state()), t, cmd, rr) ==> rr == Ok::<Response, FpgaError>(Response::Plane { id: next_id(old(self).state()) })
                    && t == with_plane(counted(old(self).state()), cells),
        ensures
            final(self).wf(),
            final(self).state().planes == old(self).state().planes.push(cells),
            final(self).state().submitted == old(self).state().submitted + 1,
            r matches Ok(h) && h.wf() && h@ == cells,
    {
        let ghost s0 = self.state();
        let sub = self.driver.submit(cmd);
        let ghost s1 = self.state();
        proof {
            let (t, rr) = choose|t: DriverView, rr: Result<Response, FpgaError>| {
                &&& #[trigger] exec_spec(counted(s0), t, cmd, rr)
                &&& match rr {
                    Ok(resp) => sub is Ok && s1 == (DriverView { responses: t.responses.push(resp), ..t }),
                    Err(e) => sub == Err::<(), FpgaError>(e) && s1 == t,
                }
            };
            assert(rr == Ok::<Response, FpgaError>(Response::Plane { id: next_id(s0) }));
            assert(s1.responses.last() == Response::Plane { id: next_id(s0) });
            assert(has_plane(s1, next_id(s0)));
            assert(plane_of(s1, next_id(s0)) == cells);
        }
        let resp = self.one();
        match resp {
            Ok(resp) => self.plane_from(resp),
            Err(e) => Err(e),
        }
    }

    /// Hash `tokens` under every seed (seed 0 when none) on the board.
    pub fn ingest(&mut self, tokens: &[Vec<u8>], seeds: &[u64]) -> (r: Result<HLLSet, FpgaError>)
        requires
            old(self).wf(),
            has_room(old(self).state()),
        ensures
            final(self).wf(),
            final(self).state().planes == old(self).state().planes.push(
                ingest_cells(views(tokens@), if seeds@.len() == 0 { seq![0u64] } else { seeds@ }),
            ),
            final(self).state().submitted == old(self).state().submitted + 1,
            r matches Ok(h) && h.wf() && h@ == ingest_cells(views(tokens@), if seeds@.len() == 0 { seq![0u64] } else { seeds@ }),
    {
        let t = crate::bytes_order::clone_all(tokens);
        let sd = copy_seeds(seeds);
        let ghost cells = ingest_cells(views(tokens@), if seeds@.len() == 0 { seq![0u64] } else { seeds@ });
        self.run_plane(Command::Ingest { tokens: t, seeds: sd }, Ghost(cells))
    }

    /// The 3-gram structural fingerprint plane of a token sequence.
    pub fn gram(&mut self, tokens: &[Vec<u8>]) -> (r: Result<HLLSet, FpgaError>)
        requires
            old(self).wf(),
            has_room(old(self).state()),
        ensures
            final(self).wf(),
            final(self).state().planes == old(self).state().planes.push(gram_cells(views(tokens@))),
            final(self).state().submitted == old(self).state().submitted + 1,
            r matches Ok(h) && h.wf() && h@ == gram_cells(views(tokens@)),
    {
        let t = crate::bytes_order::clone_all(tokens);
        let ghost cells = gram_cells(views(tokens@));
        self.run_plane(Command::Gram { tokens: t }, Ghost(cells))
    }

    fn algebra(&mut self, op: AlgebraOp, a: &HLLSet, b: &HLLSet) -> (r: Result<HLLSet, FpgaError>)
        requires
            old(self).wf(),
            has_room(old(self).state()),
            a.wf(),
            b.wf(),
        ensures
            final(self).wf(),
            final(self).state().planes == old(self).state().planes.push(a@).push(b@).push(algebra_spec(op, a@, b@)),
            final(self).state().submitted == old(self).state().submitted + 1,
            r matches Ok(h) && h.wf() && h@ == algebra_spec(op, a@, b@),
    {
        let pa = self.driver.upload(a);
        let pb = self.driver.upload(b);
        proof {
            assert(plane_of(self.state(), pa) == a@);
            assert(plane_of(self.state(), pb) == b@);
        }
        self.run_plane(Command::Algebra { op, a: pa, b: pb }, Ghost(algebra_spec(op, a@, b@)))
    }

    /// `a ∪ b` on the board.
    pub fn union(&mut self, a: &HLLSet, b: &HLLSet) -> (r: Result<HLLSet, FpgaError>)
        requires
            old(self).wf(),
            has_room(old(self).state()),
            a.wf(),
            b.wf(),
        ensures
            final(self).wf(),
            final(self).state().planes == old(self).state().planes.push(a@).push(b@).push(a@.union(b@)),
            final(self).state().submitted == old(self).state().submitted + 1,
            r matches Ok(h) && h.wf() && h@ == a@.union(b@),
    {
        self.algebra(AlgebraOp::Or, a, b)
    }

    /// `a ∩ b` on the board.
    pub fn intersection(&mut self, a: &HLLSet, b: &HLLSet) -> (r: Result<HLLSet, FpgaError>)
        requires
            old(self).wf(),
            has_room(old(self).state()),
            a.wf(),
            b.wf(),
        ensures
            final(self).wf(),
            final(self).state().planes == old(self).state().planes.push(a@).push(b@).push(a@.intersect(b@)),
            final(self).state().submitted == old(self).state().submitted + 1,
            r matches Ok(h) && h.wf() && h@ == a@.intersect(b@),
    {
        self.algebra(AlgebraOp::And, a, b)
    }

    /// `a \ b` on the board.
    pub fn difference(&mut self, a: &HLLSet, b: &HLLSet) -> (r: Result<HLLSet, FpgaError>)
        requires
            old(self).wf(),
            has_room(old(self).state()),
            a.wf(),
            b.wf(),
        ensures
            final(self).wf(),
            final(self).state().planes == old(self).state().planes.push(a@).push(b@).push(a@.difference(b@)),
            final(self).state().submitted == old(self).state().submitted + 1,
            r matches Ok(h) && h.wf() && h@ == a@.difference(b@),
    {
        self.algebra(AlgebraOp::AndNot, a, b)
    }

    /// `a Δ b` on the board.
    pub fn symmetric_difference(&mut self, a: &HLLSet, b: &HLLSet) -> (r: Result<HLLSet, FpgaError>)
        requires
            old(self).wf(),
            has_room(old(self).state()),
            a.wf(),
            b.wf(),
        ensures
            final(self).wf(),
            final(self).state().planes == old(self).state().planes.push(a@).push(b@).push(a@.difference(b@).union(b@.difference(a@))),
            final(self).state().submitted == old(self).state().submitted + 1,
            r matches Ok(h) && h.wf() && h@ == a@.difference(b@).union(b@.difference(a@)),
    {
        self.algebra(AlgebraOp::Xor, a, b)
    }

    /// The departed / retained / new decomposition of `prev` to `curr` on
    /// the board.
    pub fn drn(&mut self, prev: &HLLSet, curr: &HLLSet) -> (r: Result<(HLLSet, HLLSet, HLLSet), FpgaError>)
        requires
            old(self).wf(),
            has_room(old(self).state()),
            prev.wf(),
            curr.wf(),
        ensures
            final(self).wf(),
            final(self).state().planes == old(self).state().planes.push(prev@).push(curr@).push(
                prev@.difference(curr@),
            ).push(prev@.intersect(curr@)).push(curr@.difference(prev@)),
            final(self).state().submitted == old(self).state().submitted + 1,
            r matches Ok(t) && t.0.wf() && t.1.wf() && t.2.wf() && t.0@ == prev@.difference(curr@)
                && t.1@ == prev@.intersect(curr@) && t.2@ == curr@.difference(prev@),
    {
        let pp = self.driver.upload(prev);
        let pc = self.driver.upload(curr);
        let ghost s0 = self.state();
        proof {
            assert(plane_of(s0, pp) == prev@);
            assert(plane_of(s0, pc) == curr@);
        }
        let cmd = Command::Drn { prev: pp, curr: pc };
        let sub = self.driver.submit(cmd);
        let ghost s1 = self.state();
        proof {
            let (t, rr) = choose|t: DriverView, rr: Result<Response, FpgaError>| {
                &&& #[trigger] exec_spec(counted(s0), t, cmd, rr)
                &&& match rr {
                    Ok(resp) => sub is Ok && s1 == (DriverView { responses: t.responses.push(resp), ..t }),
                    Err(e) => sub == Err::<(), FpgaError>(e) && s1 == t,
                }
            };
            let n = next_id(s0);
            assert(s1.responses.last() == Response::Drn { departed: n, retained: (n + 1) as u64, new: (n + 2) as u64 });
            assert(plane_of(s1, n) == prev@.difference(curr@));
            assert(plane_of(s1, (n + 1) as u64) == prev@.intersect(curr@));
            assert(plane_of(s1, (n + 2) as u64) == curr@.difference(prev@));
        }
        let resp = self.one();
        match resp {
            Ok(Response::Drn { departed, retained, new }) => {
                let d = match self.driver.download(departed) {
                    Ok(h) => h,
                    Err(e) => return Err(e),
                };
                let k = match self.driver.download(retained) {
                    Ok(h) => h,
                    Err(e) => return Err(e),
                };
                let n = match self.driver.download(new) {
                    Ok(h) => h,
                    Err(e) => return Err(e),
                };
                Ok((d, k, n))
            },
            Ok(other) => Err(FpgaError::Protocol(unexpected_response("drn response", &other))),
            Err(e) => Err(e),
        }
    }

    /// The number of set cells of `h`, counted on the board.
    pub fn popcount(&mut self, h: &HLLSet) -> (r: Result<u32, FpgaError>)
        requires
            old(self).wf(),
            has_room(old(self).state()),
            h.wf(),
        ensures
            final(self).wf(),
            final(self).state().planes == old(self).state().planes.push(h@),
            final(self).state().submitted == old(self).state().submitted + 1,
            r == Ok::<u32, FpgaError>(h@.len() as u32),
    {
        let plane = self.driver.upload(h);
        let ghost s0 = self.state();
        let cmd = Command::Popcount { plane };
        let sub = self.driver.submit(cmd);
        let ghost s1 = self.state();
        proof {
            let (t, rr) = choose|t: DriverView, rr: Result<Response, FpgaError>| {
                &&& #[trigger] exec_spec(counted(s0), t, cmd, rr)
                &&& match rr {
                    Ok(resp) => sub is Ok && s1 == (DriverView { responses: t.responses.push(resp), ..t }),
                    Err(e) => sub == Err::<(), FpgaError>(e) && s1 == t,
                }
            };
            assert(plane_of(s0, plane) == h@);
            assert(s1.responses.last() == Response::Popcount { value: h@.len() as u32 });
        }
        match self.one() {
            Ok(Response::Popcount { value }) => Ok(value),
            Ok(other) => Err(FpgaError::Protocol(unexpected_response("popcount response", &other))),
            Err(e) => Err(e),
        }
    }

    /// The set cells of `h` per trailing-zero lane, counted on the board.
    pub fn hist(&mut self, h: &HLLSet) -> (r: Result<Vec<u32>, FpgaError>)
        requires
            old(self).wf(),
            has_room(old(self).state()),
            h.wf(),
        ensures
            final(self).wf(),
            final(self).state().planes == old(self).state().planes.push(h@),
            final(self).state().submitted == old(self).state().submitted + 1,
            r matches Ok(c) && c@.len() == 32 && forall|k: int| 0 <= k < 32 ==> #[trigger] c@[k] == lane_count(h@, k as u32),
    {
        let plane = self.driver.upload(h);
        let ghost s0 = self.state();
        let cmd = Command::Hist { plane };
        let sub = self.driver.submit(cmd);
        let ghost s1 = self.state();
        proof {
            let (t, rr) = choose|t: DriverView, rr: Result<Response, FpgaError>| {
                &&& #[trigger] exec_spec(counted(s0), t, cmd, rr)
                &&& match rr {
                    Ok(resp) => sub is Ok && s1 == (DriverView { responses: t.responses.push(resp), ..t }),
                    Err(e) => sub == Err::<(), FpgaError>(e) && s1 == t,
                }
            };
            assert(plane_of(s0, plane) == h@);
            assert(rr is Ok);
        }
        match self.one() {
            Ok(Response::Hist { counts }) => Ok(counts),
            Ok(other) => Err(FpgaError::Protocol(unexpected_response("hist response", &other))),
            Err(e) => Err(e),
        }
    }

    /// Add `delta` to the TF lane of every set cell of `h`, on the board.
    pub fn tf_add(&mut self, h: &HLLSet, delta: i64) -> (r: Result<(), FpgaError>)
        requires
            old(self).wf(),
            has_room(old(self).state()),
            h.wf(),
            forall|i: int|
                0 <= i < TF_LANES && h@.contains(i as u32) ==> i64::MIN <= #[trigger] lanes_of(
                    old(self).state().tf,
                    next_id(old(self).state()),
                )[i] + delta <= i64::MAX,
        ensures
            final(self).wf(),
            final(self).state().planes == old(self).state().planes.push(h@),
            final(self).state().submitted == old(self).state().submitted + 1,
            final(self).state().tf == tf_with(
                old(self).state().tf,
                next_id(old(self).state()),
                add_lanes(lanes_of(old(self).state().tf, next_id(old(self).state())), h@, delta),
            ),
            r is Ok,
    {
        let ghost s00 = self.state();
        let plane = self.driver.upload(h);
        let ghost s0 = self.state();
        proof {
            assert(s0.tf == s00.tf);
            assert(plane_of(s0, plane) == h@);
        }
        let cmd = Command::TfAdd { plane, delta };
        let sub = self.driver.submit(cmd);
        let ghost s1 = self.state();
        proof {
            let (t, rr) = choose|t: DriverView, rr: Result<Response, FpgaError>| {
                &&& #[trigger] exec_spec(counted(s0), t, cmd, rr)
                &&& match rr {
                    Ok(resp) => sub is Ok && s1 == (DriverView { responses: t.responses.push(resp), ..t }),
                    Err(e) => sub == Err::<(), FpgaError>(e) && s1 == t,
                }
            };
            assert(s1.responses.last() == Response::Ack);
        }
        match self.one() {
            Ok(Response::Ack) => Ok(()),
            Ok(other) => Err(FpgaError::Protocol(unexpected_response("ack", &other))),
            Err(e) => Err(e),
        }
    }

    /// Status counters from the board.
    pub fn status(&mut self) -> (r: Result<Vec<(String, u64)>, FpgaError>)
        ensures
            r matches Ok(c) && c@.len() == 2 && c@[0].0@ == "submitted"@ && c@[0].1 == old(self).state().submitted
                && c@[1].0@ == "resident_planes"@ && c@[1].1 == old(self).state().planes.len(),
            final(self).state() == old(self).state(),
    {
        self.driver.status()
    }
}


/// Ingesting under seed 0 on the board gives the host's HLLSet of the
/// tokens.
pub proof fn lemma_board_ingest_matches_host(tokens: Seq<Seq<u8>>)
    ensures
        ingest_cells(tokens, seq![0u64]) == crate::hllset::ingest(tokens),
{
    let f = |t: Seq<u8>| token_bit(t);
    assert forall|b: u32| ingest_cells(tokens, seq![0u64]).contains(b) <==> crate::hllset::ingest(tokens).contains(b) by {
        if ingest_cells(tokens, seq![0u64]).contains(b) {
            let (i, j) = choose|i: int, j: int|
                0 <= i < tokens.len() && 0 <= j < 1 && #[trigger] seeded_bit(tokens[i], seq![0u64][j]) == b;
            assert(tokens.map_values(f)[i] == b);
        }
        if crate::hllset::ingest(tokens).contains(b) {
            let i = choose|i: int| 0 <= i < tokens.map_values(f).len() && tokens.map_values(f)[i] == b;
            assert(seeded_bit(tokens[i], seq![0u64][0]) == b);
        }
    }
    assert(ingest_cells(tokens, seq![0u64]) =~= crate::hllset::ingest(tokens));
}

/// Multi-seed ingestion is the union of the single-seed channels:
/// `ingest(t, S1 ++ S2) = ingest(t, S1) ∪ ingest(t, S2)`.
pub proof fn lemma_multi_seed_union(tokens: Seq<Seq<u8>>, s1: Seq<u64>, s2: Seq<u64>)
    ensures
        ingest_cells(tokens, s1 + s2) == ingest_cells(tokens, s1).union(ingest_cells(tokens, s2)),
{
    let s = s1 + s2;
    assert forall|b: u32| ingest_cells(tokens, s).contains(b) <==> ingest_cells(tokens, s1).union(ingest_cells(tokens, s2)).contains(b) by {
        if ingest_cells(tokens, s).contains(b) {
            let (i, j) = choose|i: int, j: int|
                0 <= i < tokens.len() && 0 <= j < s.len() && #[trigger] seeded_bit(tokens[i], s[j]) == b;
            if j < s1.len() {
                assert(seeded_bit(tokens[i], s1[j]) == b);
            } else {
                assert(seeded_bit(tokens[i], s2[j - s1.len()]) == b);
            }
        }
        if ingest_cells(tokens, s1).contains(b) {
            let (i, j) = choose|i: int, j: int|
                0 <= i < tokens.len() && 0 <= j < s1.len() && #[trigger] seeded_bit(tokens[i], s1[j]) == b;
            assert(seeded_bit(tokens[i], s[j]) == b);
        }
        if ingest_cells(tokens, s2).contains(b) {
            let (i, j) = choose|i: int, j: int|
                0 <= i < tokens.len() && 0 <= j < s2.len() && #[trigger] seeded_bit(tokens[i], s2[j]) == b;
            assert(seeded_bit(tokens[i], s[s1.len() + j]) == b);
        }
    }
    assert(ingest_cells(tokens, s) =~= ingest_cells(tokens, s1).union(ingest_cells(tokens, s2)));
}

/// The D/R/N decomposition partitions `prev ∪ curr`: the departed,
/// retained and new cells are disjoint and together make the union.
pub proof fn lemma_drn_partition(prev: Set<u32>, curr: Set<u32>)
    ensures
        prev.difference(curr).union(prev.intersect(curr)).union(curr.difference(prev)) == prev.union(curr),
        prev.difference(curr).disjoint(prev.intersect(curr)),
        prev.difference(curr).disjoint(curr.difference(prev)),
        prev.intersect(curr).disjoint(curr.difference(prev)),
{
    assert(prev.difference(curr).union(prev.intersect(curr)).union(curr.difference(prev)) =~= prev.union(curr));
}

} // verus!
