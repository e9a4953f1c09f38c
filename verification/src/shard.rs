//! Splitting one DiT step across machines, the way Ulysses does it.
//!
//! Every rank carries a contiguous run of the packed sequence through the blocks, which needs no
//! communication at all for the normalizations, the projections and the MLP. Attention is the
//! exception, since a query has to see every key. So each block exchanges twice: once to turn
//! "my tokens, every head" into "every token, my heads", and once to turn the result back.
use crate::device::CudaError;
use crate::text;
use vstd::prelude::*;

verus! {

/// A span of time.
#[derive(Clone, Copy, Debug, PartialEq, Eq, Structural)]
pub struct Duration {
    pub secs: u64,
    pub nanos: u32,
}

/// Nanoseconds of a second.
pub const SECOND: u32 = 1_000_000_000;

impl Duration {
    pub open spec fn valid(self) -> bool {
        self.nanos < SECOND
    }

    /// The nanoseconds in all.
    pub open spec fn whole(self) -> int {
        self.secs * SECOND + self.nanos
    }

    /// Both spans together.
    pub fn plus(self, other: Duration) -> (sum: Duration)
        requires
            self.valid(),
            other.valid(),
            self.whole() + other.whole() < (u64::MAX + 1) * SECOND,
        ensures
            sum.valid(),
            sum.whole() == self.whole() + other.whole(),
    {
        let nanos: u32 = self.nanos + other.nanos;
        if nanos >= SECOND {
            Duration { secs: self.secs + other.secs + 1, nanos: nanos - SECOND }
        } else {
            Duration { secs: self.secs + other.secs, nanos }
        }
    }
}

impl Default for Duration {
    fn default() -> (none: Self)
        ensures
            none.valid(),
            none.whole() == 0,
    {
        Duration { secs: 0, nanos: 0 }
    }
}

/// Where a shared-out step spent its time, so that the split can be judged against the arithmetic
/// it saves rather than against a guess. The caller clears it between steps.
#[derive(Clone, Copy, Debug, PartialEq, Eq, Structural)]
pub struct ShardTiming {
    /// Gathering a block's inputs and scattering its output, and the wait for the device that
    /// follows each, since a peer may not read memory a kernel has not finished writing.
    pub gather: Duration,
    /// Waiting for the peers to reach the same point.
    pub barrier: Duration,
    /// Reading the peers' memory.
    pub read: Duration,
    /// Attention itself, over the whole sequence for this rank's heads.
    pub attend: Duration,
}

impl Default for ShardTiming {
    fn default() -> (timing: Self)
        ensures
            timing.valid(),
            timing.whole() == 0,
    {
        ShardTiming {
            gather: Duration::default(),
            barrier: Duration::default(),
            read: Duration::default(),
            attend: Duration::default(),
        }
    }
}

impl ShardTiming {
    pub open spec fn valid(self) -> bool {
        self.gather.valid() && self.barrier.valid() && self.read.valid() && self.attend.valid()
    }

    /// The nanoseconds of all four.
    pub open spec fn whole(self) -> int {
        self.gather.whole() + self.barrier.whole() + self.read.whole() + self.attend.whole()
    }

    /// The time of all four.
    pub fn total(&self) -> (total: Duration)
        requires
            self.valid(),
            self.whole() < (u64::MAX + 1) * SECOND,
        ensures
            total.valid(),
            total.whole() == self.whole(),
    {
        self.gather.plus(self.barrier).plus(self.read).plus(self.attend)
    }
}

/// A run of rows or of heads.
#[derive(Clone, Copy, Debug, PartialEq, Eq, Structural)]
pub struct Run {
    pub start: usize,
    pub end: usize,
}

impl Run {
    pub open spec fn size(self) -> int {
        if self.start < self.end {
            self.end - self.start
        } else {
            0
        }
    }

    pub open spec fn contains(self, place: int) -> bool {
        self.start <= place < self.end
    }

    pub fn len(&self) -> (count: usize)
        ensures
            count == self.size(),
    {
        if self.start < self.end {
            self.end - self.start
        } else {
            0
        }
    }

    /// The part of `self` that lies in `other`, if any does.
    pub fn within(&self, other: Run) -> (part: Option<Run>)
        ensures
            match part {
                Some(part) => {
                    &&& part.start < part.end
                    &&& forall|place: int|
                        part.contains(place) <==> #[trigger] self.contains(place) && other.contains(place)
                    &&& part.start >= self.start && part.end <= self.end
                    &&& part.start >= other.start && part.end <= other.end
                },
                None => forall|place: int| !(#[trigger] self.contains(place) && other.contains(place)),
            },
            part == overlap(*self, other),
    {
        let first: usize = if self.start < other.start {
            other.start
        } else {
            self.start
        };
        let last: usize = if other.end < self.end {
            other.end
        } else {
            self.end
        };
        if first >= last {
            None
        } else {
            Some(Run { start: first, end: last })
        }
    }
}

/// The part of `one` that lies in `other`, if any does.
pub open spec fn overlap(one: Run, other: Run) -> Option<Run> {
    let first = if one.start < other.start {
        other.start
    } else {
        one.start
    };
    let last = if other.end < one.end {
        other.end
    } else {
        one.end
    };
    if first >= last {
        None
    } else {
        Some(Run { start: first, end: last })
    }
}

/// The rows or heads of the first `count` runs together.
pub open spec fn covered(runs: Seq<Run>, count: int) -> int
    decreases count,
{
    if count <= 0 {
        0
    } else {
        covered(runs, count - 1) + runs[count - 1].size()
    }
}

/// Whether the runs follow each other from zero to `total`, each place in one of them.
pub open spec fn is_partition(runs: Seq<Run>, total: int) -> bool {
    &&& runs.len() > 0
    &&& forall|k: int| 0 <= k < runs.len() ==> (#[trigger] runs[k]).start <= runs[k].end <= total
    &&& runs[0].start == 0
    &&& runs.last().end == total
    &&& forall|k: int| 0 < k < runs.len() ==> (#[trigger] runs[k]).start == runs[k - 1].end
}

/// Every place of a partition is in exactly one of its runs.
pub proof fn a_partition_holds_each_place_once(runs: Seq<Run>, total: int, place: int)
    requires
        is_partition(runs, total),
        0 <= place < total,
    ensures
        exists|k: int| 0 <= k < runs.len() && #[trigger] runs[k].contains(place),
        forall|k: int, l: int|
            0 <= k < runs.len() && 0 <= l < runs.len() && #[trigger] runs[k].contains(place)
                && #[trigger] runs[l].contains(place) ==> k == l,
{
    let k = run_holding(runs, total, place, runs.len() as int);
    assert(runs[k].contains(place));
    assert forall|k: int, l: int|
        0 <= k < runs.len() && 0 <= l < runs.len() && #[trigger] runs[k].contains(place)
            && #[trigger] runs[l].contains(place) implies k == l by {
        if k < l {
            runs_follow(runs, total, k, l);
        } else if l < k {
            runs_follow(runs, total, l, k);
        }
    }
}

proof fn runs_follow(runs: Seq<Run>, total: int, first: int, second: int)
    requires
        is_partition(runs, total),
        0 <= first < second < runs.len(),
    ensures
        runs[first].end <= runs[second].start,
    decreases second - first,
{
    assert(runs[second].start == runs[second - 1].end);
    if first < second - 1 {
        runs_follow(runs, total, first, second - 1);
        assert(runs[second - 1].start <= runs[second - 1].end);
    }
}

proof fn run_holding(runs: Seq<Run>, total: int, place: int, count: int) -> (k: int)
    requires
        is_partition(runs, total),
        0 < count <= runs.len(),
        0 <= place < runs[count - 1].end,
    ensures
        0 <= k < count,
        runs[k].contains(place),
    decreases count,
{
    if place >= runs[count - 1].start {
        count - 1
    } else {
        assert(runs[count - 1].start == runs[count - 2].end);
        run_holding(runs, total, place, count - 1)
    }
}

/// How a step is split: the run of rows and the run of heads of every rank, and which rank this is.
pub struct Shard {
    pub rank: usize,
    pub tokens: Vec<Run>,
    pub heads: Vec<Run>,
}

impl Shard {
    /// There is a run of rows and a run of heads for every rank, and this is one of them.
    pub open spec fn valid(self) -> bool {
        &&& self.rank < self.tokens@.len()
        &&& self.tokens@.len() == self.heads@.len()
        &&& forall|k: int| 0 <= k < self.tokens@.len() ==> (#[trigger] self.tokens@[k]).start <= self.tokens@[k].end
        &&& forall|k: int| 0 <= k < self.heads@.len() ==> (#[trigger] self.heads@[k]).start <= self.heads@[k].end
    }

    pub fn ranks(&self) -> (ranks: usize)
        ensures
            ranks == self.tokens@.len(),
    {
        self.tokens.len()
    }

    pub fn own_tokens(&self) -> (rows: Run)
        requires
            self.valid(),
        ensures
            rows == self.tokens@[self.rank as int],
    {
        self.tokens[self.rank]
    }

    pub fn own_heads(&self) -> (heads: Run)
        requires
            self.valid(),
        ensures
            heads == self.heads@[self.rank as int],
    {
        self.heads[self.rank]
    }

    /// Whether the rows and the heads of all ranks together are as many as the step has.
    pub fn covers(&self, tokens: usize, heads: usize) -> (covers: bool)
        requires
            self.valid(),
        ensures
            covers == (covered(self.tokens@, self.tokens@.len() as int) == tokens && covered(
                self.heads@,
                self.heads@.len() as int,
            ) == heads),
    {
        total_is(&self.tokens, tokens) && total_is(&self.heads, heads)
    }
}

proof fn covered_grows(runs: Seq<Run>, count: int, more: int)
    requires
        0 <= count <= more <= runs.len(),
    ensures
        0 <= covered(runs, count) <= covered(runs, more),
    decreases more,
{
    if count < more {
        covered_grows(runs, count, more - 1);
    } else if count > 0 {
        covered_grows(runs, count - 1, count - 1);
    }
}

/// Whether the runs together are `total` long.
fn total_is(runs: &Vec<Run>, total: usize) -> (same: bool)
    ensures
        same == (covered(runs@, runs@.len() as int) == total),
{
    let mut left: usize = total;
    let count: usize = runs.len();
    for index in 0..count
        invariant
            count == runs@.len(),
            left == total - covered(runs@, index as int),
    {
        let length: usize = runs[index].len();
        proof {
            covered_grows(runs@, index + 1, count as int);
        }
        if length > left {
            return false;
        }
        left = left - length;
    }
    left == 0
}

/// Memory that ranks exchange through.
#[derive(Clone, Copy, Debug, PartialEq, Eq, Structural)]
pub enum Region {
    /// The quantized block input, of every token.
    Normalized,
    /// The scales of the quantized block input, of every token.
    Scales,
    /// q, k and v of every token, for this rank's heads.
    Inputs,
    /// The VSA gate of every token, for this rank's heads.
    Gate,
    /// The attention output of every token, for this rank's heads.
    Attended,
    /// The attention output of this rank's tokens, for the heads of the rank it came from.
    Received(usize),
}

/// What a rank that shares a step with nobody does when it is asked for a region of `bytes` bytes of
/// which it holds `held`: the bytes to allocate, or nothing where those it holds will do.
pub fn whole_region(held: Option<usize>, bytes: usize) -> (allocate: Option<usize>)
    ensures
        allocate == (if (match held {
            Some(held) => held,
            None => 0,
        }) < bytes {
            Some(bytes)
        } else {
            None
        }),
{
    let have: usize = match held {
        Some(held) => held,
        None => 0,
    };
    if have < bytes {
        Some(bytes)
    } else {
        None
    }
}

/// What a rank that shares a step with nobody answers a write to a peer.
pub fn whole_write(peer: usize) -> (refusal: String)
    ensures
        refusal@ == "one rank cannot write to rank "@ + text::decimal(peer as nat),
{
    let mut refusal = String::from_str("one rank cannot write to rank ");
    text::push_size(&mut refusal, peer);
    refusal
}

/// Tensors one exchange of a block's inputs carries: q, k and v, and VSA's compressed query when
/// the block has one.
pub fn input_tensors(gated: bool) -> (tensors: usize)
    ensures
        tensors == (if gated {
            4usize
        } else {
            3usize
        }),
{
    if gated {
        4
    } else {
        3
    }
}

/// Where a lane of a head of a tensor of a token stands in `[tokens][tensors][heads][dim]`.
pub open spec fn packed_place(
    token: int,
    tensor: int,
    head: int,
    lane: int,
    tensors: int,
    heads: int,
    dim: int,
) -> int {
    ((token * tensors + tensor) * heads + head) * dim + lane
}

/// Whether `packed`, `[tokens][tensors][span][dim]`, is heads `span` of `source`,
/// `[tokens][tensors][heads][dim]`.
pub open spec fn is_packed(
    source: Seq<u16>,
    packed: Seq<u16>,
    tokens: int,
    tensors: int,
    heads: int,
    dim: int,
    span: Run,
) -> bool {
    forall|token: int, tensor: int, head: int, lane: int|
        0 <= token < tokens && 0 <= tensor < tensors && span.contains(head) && 0 <= lane < dim
            ==> packed[#[trigger] packed_place(token, tensor, head - span.start, lane, tensors, span.size(), dim)]
            == source[packed_place(token, tensor, head, lane, tensors, heads, dim)]
}

/// Whether `output`, `[tokens][heads][dim]`, is `before` with `part`, `[tokens][span][dim]`, in the heads
/// of `span`.
pub open spec fn is_unpacked(
    part: Seq<u16>,
    before: Seq<u16>,
    output: Seq<u16>,
    tokens: int,
    heads: int,
    dim: int,
    span: Run,
) -> bool {
    forall|token: int, head: int, lane: int|
        0 <= token < tokens && 0 <= head < heads && 0 <= lane < dim ==> output[#[trigger] packed_place(
            token,
            0,
            head,
            lane,
            1,
            heads,
            dim,
        )] == (if span.contains(head) {
            part[packed_place(token, 0, head - span.start, lane, 1, span.size(), dim)]
        } else {
            before[packed_place(token, 0, head, lane, 1, heads, dim)]
        })
}

/// Scattering the parts that heads were packed into puts them back where they were, and leaves the
/// other heads alone.
pub proof fn scattering_undoes_packing(
    source: Seq<u16>,
    packed: Seq<u16>,
    before: Seq<u16>,
    output: Seq<u16>,
    tokens: int,
    heads: int,
    dim: int,
    span: Run,
    token: int,
    head: int,
    lane: int,
)
    requires
        is_packed(source, packed, tokens, 1, heads, dim, span),
        is_unpacked(packed, before, output, tokens, heads, dim, span),
        span.end <= heads,
        0 <= token < tokens,
        0 <= head < heads,
        0 <= lane < dim,
    ensures
        output[packed_place(token, 0, head, lane, 1, heads, dim)] == (if span.contains(head) {
            source[packed_place(token, 0, head, lane, 1, heads, dim)]
        } else {
            before[packed_place(token, 0, head, lane, 1, heads, dim)]
        }),
{
    if span.contains(head) {
        assert(packed[packed_place(token, 0, head - span.start, lane, 1, span.size(), dim)]
            == source[packed_place(token, 0, head, lane, 1, heads, dim)]);
    }
}

/// The value at `index` of the pattern that a gather is tried on. A step of 40503 walks the whole
/// 16-bit range without repeating, so neighbouring values differ in every position the gathers could
/// confuse.
pub open spec fn pattern_value(index: int) -> int {
    (index * 40503) % 0x1_0000
}

fn value_at(index: usize) -> (value: u16)
    ensures
        value == pattern_value(index as int),
{
    proof {
        vstd::arithmetic::div_mod::lemma_mul_mod_noop_left(index as int, 40503, 0x1_0000);
    }
    ((index % 0x1_0000) * 40503 % 0x1_0000) as u16
}

/// The first `count` values of the pattern.
pub fn pattern(count: usize) -> (values: Vec<u16>)
    ensures
        values@.len() == count,
        forall|index: int| 0 <= index < count ==> (#[trigger] values@[index]) == pattern_value(index),
{
    let mut values: Vec<u16> = Vec::new();
    for index in 0..count
        invariant
            values@.len() == index,
            forall|k: int| 0 <= k < index ==> (#[trigger] values@[k]) == pattern_value(k),
    {
        values.push(value_at(index));
    }
    values
}

/// The lanes of a head that are looked at: the first, the middle and the last.
pub open spec fn looked_at(choice: int, dim: int) -> int {
    if choice == 0 {
        0
    } else if choice == 1 {
        dim / 2
    } else {
        dim - 1
    }
}

fn lane_of(choice: usize, dim: usize) -> (lane: usize)
    requires
        choice < 3,
        dim > 0,
    ensures
        lane == looked_at(choice as int, dim as int),
        lane < dim,
{
    match choice {
        0 => 0,
        1 => dim / 2,
        _ => dim - 1,
    }
}

fn came_back(what: String, found: u16, wanted: u16) -> (error: CudaError)
    ensures
        error.code == 0,
        error.message@ == what@ + mismatch(found, wanted),
{
    let mut message = what;
    message.append(" came back 0x");
    text::push_hex(&mut message, found as u64, 4);
    message.append(", not 0x");
    text::push_hex(&mut message, wanted as u64, 4);
    assert(message@ =~= what@ + mismatch(found, wanted));
    CudaError { code: 0, message }
}

/// How a value that is not the one it ought to be is put into words.
pub open spec fn mismatch(found: u16, wanted: u16) -> Seq<char> {
    " came back 0x"@ + text::hex_digits(found as nat, 4) + ", not 0x"@ + text::hex_digits(wanted as nat, 4)
}

/// A value of a packed head that is looked at: its token, its tensor, its head and its lane.
pub ghost struct Looked {
    pub token: int,
    pub tensor: int,
    pub head: int,
    pub lane: int,
}

impl Looked {
    /// The value number `number` of those that are looked at, lane by lane, head by head, tensor by
    /// tensor and token by token.
    pub open spec fn of(number: int, tensors: int, first: int, heads: int, dim: int) -> Looked {
        let at_head = number / 3;
        let at_tensor = at_head / heads;
        Looked {
            token: at_tensor / tensors,
            tensor: at_tensor % tensors,
            head: first + at_head % heads,
            lane: looked_at(number % 3, dim),
        }
    }
}

/// Whether the value number `number` of the packed heads `span` is the one the pattern has there.
pub open spec fn packed_right(gathered: Seq<u16>, number: int, heads: int, dim: int, span: Run) -> bool {
    let at = Looked::of(number, 3, span.start as int, span.size(), dim);
    gathered[packed_place(at.token, at.tensor, at.head - span.start, at.lane, 3, span.size(), dim)] == pattern_value(
        packed_place(at.token, at.tensor, at.head, at.lane, 3, heads, dim),
    )
}

proof fn looked_is_inside(number: int, tokens: int, tensors: int, first: int, heads: int, dim: int)
    requires
        0 <= number < tokens * tensors * heads * 3,
        tensors > 0,
        heads > 0,
        dim > 0,
        tokens >= 0,
    ensures
        ({
            let at = Looked::of(number, tensors, first, heads, dim);
            &&& 0 <= at.token < tokens
            &&& 0 <= at.tensor < tensors
            &&& first <= at.head < first + heads
            &&& 0 <= at.lane < dim
            &&& at.token * tensors + at.tensor == number / 3 / heads
        }),
{
    let at_head = number / 3;
    let at_tensor = at_head / heads;
    assert(0 <= at_head < tokens * tensors * heads);
    crate::arithmetic::quotient_is_inside(at_head, tokens * tensors, heads);
    crate::arithmetic::quotient_is_inside(at_tensor, tokens, tensors);
}

/// Whether the packed heads `span` are those of the pattern: it is looked at the first, the middle and
/// the last lane of each. The first that is not right is the one the error names.
pub fn check_packed(gathered: &Vec<u16>, tokens: usize, heads: usize, dim: usize, span: Run) -> (result: Result<
    (),
    CudaError,
>)
    requires
        dim > 0,
        span.start <= span.end <= heads,
        gathered@.len() == tokens * 3 * span.size() * dim,
        tokens * 3 * heads * dim <= usize::MAX,
        tokens * 3 * heads * 3 <= usize::MAX,
        tokens * 3 <= usize::MAX,
    ensures
        match result {
            Ok(_) => forall|number: int|
                0 <= number < tokens * 3 * span.size() * 3 ==> #[trigger] packed_right(
                    gathered@,
                    number,
                    heads as int,
                    dim as int,
                    span,
                ),
            Err(error) => exists|number: int|
                {
                    &&& 0 <= number < tokens * 3 * span.size() * 3
                    &&& !(#[trigger] packed_right(gathered@, number, heads as int, dim as int, span))
                    &&& forall|before: int|
                        0 <= before < number ==> #[trigger] packed_right(
                            gathered@,
                            before,
                            heads as int,
                            dim as int,
                            span,
                        )
                    &&& error.code == 0
                    &&& error.message@ == packing_error(gathered@, number, heads as int, dim as int, span)
                },
        },
{
    let width: usize = span.len();
    let size: usize = gathered.len();
    proof {
        crate::arithmetic::products_grow(tokens * 3, width as int, tokens * 3, heads as int);
    }
    if width == 0 {
        assert(tokens * 3 * 0 == 0) by (nonlinear_arith);
        return Ok(());
    }
    let count: usize = tokens * 3 * width * 3;
    for number in 0..count
        invariant
            width == span.size(),
            width > 0,
            dim > 0,
            span.start <= span.end <= heads,
            count == tokens * 3 * width * 3,
            gathered@.len() == tokens * 3 * width * dim,
            gathered@.len() == size,
            tokens * 3 * heads * dim <= usize::MAX,
            tokens * 3 * heads * 3 <= usize::MAX,
            forall|before: int|
                0 <= before < number ==> #[trigger] packed_right(gathered@, before, heads as int, dim as int, span),
    {
        let ghost look = Looked::of(number as int, 3, span.start as int, width as int, dim as int);
        let lane: usize = lane_of(number % 3, dim);
        let at_head: usize = number / 3;
        let head: usize = span.start + at_head % width;
        let at_tensor: usize = at_head / width;
        let token: usize = at_tensor / 3;
        let tensor: usize = at_tensor % 3;
        proof {
            looked_is_inside(number as int, tokens as int, 3, span.start as int, width as int, dim as int);
            crate::arithmetic::nested_is_inside(at_tensor as int, tokens * 3, head - span.start, width as int);
            crate::arithmetic::nested_is_inside(
                at_tensor * width + (head - span.start),
                tokens * 3 * width,
                lane as int,
                dim as int,
            );
            crate::arithmetic::nested_is_inside(at_tensor as int, tokens * 3, head as int, heads as int);
            crate::arithmetic::nested_is_inside(
                at_tensor * heads + head,
                tokens * 3 * heads,
                lane as int,
                dim as int,
            );
        }
        let wanted: u16 = value_at((at_tensor * heads + head) * dim + lane);
        let found: u16 = gathered[(at_tensor * width + (head - span.start)) * dim + lane];
        if found != wanted {
            let mut what = String::from_str("packing token ");
            text::push_size(&mut what, token);
            what.append(" tensor ");
            text::push_size(&mut what, tensor);
            what.append(" head ");
            text::push_size(&mut what, head);
            assert(!packed_right(gathered@, number as int, heads as int, dim as int, span));
            return Err(came_back(what, found, wanted));
        }
    }
    Ok(())
}

/// The error of the value number `number` of the packed heads.
pub open spec fn packing_error(gathered: Seq<u16>, number: int, heads: int, dim: int, span: Run) -> Seq<char> {
    let at = Looked::of(number, 3, span.start as int, span.size(), dim);
    "packing token "@ + text::decimal(at.token as nat) + " tensor "@ + text::decimal(at.tensor as nat) + " head "@
        + text::decimal(at.head as nat) + mismatch(
        gathered[packed_place(at.token, at.tensor, at.head - span.start, at.lane, 3, span.size(), dim)],
        pattern_value(packed_place(at.token, at.tensor, at.head, at.lane, 3, heads, dim)) as u16,
    )
}

/// The value that the pattern, scattered into the heads `span` of an output of zeros, has at the place
/// that is looked at.
pub open spec fn scattered_value(at: Looked, dim: int, span: Run) -> int {
    if span.contains(at.head) {
        pattern_value(packed_place(at.token, 0, at.head - span.start, at.lane, 1, span.size(), dim))
    } else {
        0
    }
}

/// Whether the value number `number` of the scattered heads is the one it ought to be.
pub open spec fn scattered_right(scattered: Seq<u16>, number: int, heads: int, dim: int, span: Run) -> bool {
    let at = Looked::of(number, 1, 0, heads, dim);
    scattered[packed_place(at.token, 0, at.head, at.lane, 1, heads, dim)] == scattered_value(at, dim, span)
}

/// The error of the value number `number` of the scattered heads.
pub open spec fn scattering_error(scattered: Seq<u16>, number: int, heads: int, dim: int, span: Run) -> Seq<char> {
    let at = Looked::of(number, 1, 0, heads, dim);
    "scattering token "@ + text::decimal(at.token as nat) + " head "@ + text::decimal(at.head as nat) + " lane "@
        + text::decimal(at.lane as nat) + mismatch(
        scattered[packed_place(at.token, 0, at.head, at.lane, 1, heads, dim)],
        scattered_value(at, dim, span) as u16,
    )
}

/// Whether the scattered heads are those of the pattern in `span`, and zeros in the others, which belong
/// to another rank and must stay untouched. The first that is not right is the one the error names.
pub fn check_scattered(scattered: &Vec<u16>, tokens: usize, heads: usize, dim: usize, span: Run) -> (result: Result<
    (),
    CudaError,
>)
    requires
        dim > 0,
        span.start <= span.end <= heads,
        scattered@.len() == tokens * heads * dim,
        tokens * heads * 3 <= usize::MAX,
    ensures
        match result {
            Ok(_) => forall|number: int|
                0 <= number < tokens * heads * 3 ==> #[trigger] scattered_right(
                    scattered@,
                    number,
                    heads as int,
                    dim as int,
                    span,
                ),
            Err(error) => exists|number: int|
                {
                    &&& 0 <= number < tokens * heads * 3
                    &&& !(#[trigger] scattered_right(scattered@, number, heads as int, dim as int, span))
                    &&& forall|before: int|
                        0 <= before < number ==> #[trigger] scattered_right(
                            scattered@,
                            before,
                            heads as int,
                            dim as int,
                            span,
                        )
                    &&& error.code == 0
                    &&& error.message@ == scattering_error(scattered@, number, heads as int, dim as int, span)
                },
        },
{
    let width: usize = span.len();
    let size: usize = scattered.len();
    if heads == 0 {
        assert(tokens * 0 == 0) by (nonlinear_arith);
        return Ok(());
    }
    proof {
        crate::arithmetic::products_grow(tokens as int, heads as int, tokens as int, heads as int);
    }
    let count: usize = tokens * heads * 3;
    for number in 0..count
        invariant
            width == span.size(),
            heads > 0,
            dim > 0,
            span.start <= span.end <= heads,
            count == tokens * heads * 3,
            scattered@.len() == tokens * heads * dim,
            scattered@.len() == size,
            forall|before: int|
                0 <= before < number ==> #[trigger] scattered_right(
                    scattered@,
                    before,
                    heads as int,
                    dim as int,
                    span,
                ),
    {
        let lane: usize = lane_of(number % 3, dim);
        let at_head: usize = number / 3;
        let head: usize = at_head % heads;
        let token: usize = at_head / heads;
        proof {
            assert(tokens * 1 * heads * 3 == tokens * heads * 3) by (nonlinear_arith);
            looked_is_inside(number as int, tokens as int, 1, 0, heads as int, dim as int);
            crate::arithmetic::nested_is_inside(token as int, tokens as int, head as int, heads as int);
            crate::arithmetic::nested_is_inside(
                token * heads + head,
                tokens * heads,
                lane as int,
                dim as int,
            );
        }
        let wanted: u16 = if span.start <= head && head < span.end {
            proof {
                let place = token * width + (head - span.start);
                crate::arithmetic::products_grow(token as int, width as int, token as int, heads as int);
                crate::arithmetic::products_grow(place, dim as int, token * heads + head, dim as int);
            }
            value_at((token * width + (head - span.start)) * dim + lane)
        } else {
            0
        };
        let found: u16 = scattered[(token * heads + head) * dim + lane];
        if found != wanted {
            let mut what = String::from_str("scattering token ");
            text::push_size(&mut what, token);
            what.append(" head ");
            text::push_size(&mut what, head);
            what.append(" lane ");
            text::push_size(&mut what, lane);
            assert(!scattered_right(scattered@, number as int, heads as int, dim as int, span));
            return Err(came_back(what, found, wanted));
        }
    }
    Ok(())
}

} // verus!
