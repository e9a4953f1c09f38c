//! What the actions of a shared-out attention compute: the regions of a rank as values, and the attention of its rows
//! as the formula of one machine.
use crate::attention::HEAD_DIM;
use crate::block::{Attending, Block, Linear, Part};
use crate::exchange;
use crate::exchange::{Phase, ShardStep, SharedCall};
use crate::model;
use crate::model::{AdapterPart, LinearStep};
use crate::shard;
use crate::shard::{Region, Run, Shard};
use crate::value::Value;
use crate::workspace::DitConfig;
use vstd::prelude::*;

verus! {

/// The operations of a shared-out attention.
#[allow(inconsistent_fields)]
pub enum ShareOp {
    /// A byte of the quantized block input, of every token.
    Input { byte: int },
    /// A byte of its scales.
    Scale { byte: int },
    /// An adapter's down projection of a row.
    Down { part: Part, columns: usize, inputs: usize },
    /// A column of a layer.
    Product { part: Part, column: int, features: usize, adapter: Option<AdapterPart> },
    /// A value of a head of q or k, normalized and rotated at a row.
    Turned { row: int, place: int, pairs: usize },
    /// What a kind of attention reads of a head.
    Prepared { attending: Attending, rows: usize, pairs: usize },
    /// A head as it is.
    Plain { rows: usize },
    /// A value of the attention of a head at a row.
    Attended { attending: Attending, rows: usize, row: int, place: int },
}

/// What a value of a region is.
pub type Held = Value<ShareOp>;

/// What a rank runs with: the shares, and what has arrived in its regions after so many barriers.
pub struct World {
    pub shard: Shard,
    pub config: DitConfig,
    pub arrives: spec_fn(nat, Region, int) -> Held,
}

/// What a rank holds.
pub struct Share {
    /// The regions on the device, by bytes or by values of two bytes.
    pub device: spec_fn(Region, int) -> Held,
    /// The regions where peers can read them.
    pub shown: spec_fn(Region, int) -> Held,
    /// What was sent to a peer's region after so many barriers.
    pub sent: spec_fn(nat, usize, Region, int) -> Held,
    /// The adapter's down projection of the rows at hand.
    pub scratch: spec_fn(int) -> Held,
    /// What the attention reads of each head.
    pub prepared: spec_fn(int) -> Held,
    /// The attention of this rank's rows, by row, head and place.
    pub output: spec_fn(int, int, int) -> Held,
    /// Whether the device may still be at work.
    pub busy: bool,
    /// The barriers that were passed.
    pub passed: nat,
}

/// A place in rows of so many places.
pub open spec fn spot(pitch: int, row: int, at: int) -> int {
    row * pitch + at
}

/// Bytes of a value of a region.
pub open spec fn unit(region: Region) -> int {
    match region {
        Region::Normalized | Region::Scales => 1,
        _ => 2,
    }
}

/// A region with some of its places written.
pub open spec fn put(
    device: spec_fn(Region, int) -> Held,
    region: Region,
    first: int,
    count: int,
    value: spec_fn(int) -> Held,
) -> spec_fn(Region, int) -> Held {
    |other: Region, place: int|
        if other == region && first <= place < first + count {
            value(place)
        } else {
            device(other, place)
        }
}

impl World {
    pub open spec fn own_rows(self) -> Run {
        self.shard.tokens@[self.shard.rank as int]
    }

    pub open spec fn own_heads(self) -> Run {
        self.shard.heads@[self.shard.rank as int]
    }

    /// The values of a row of this rank's heads.
    pub open spec fn width(self) -> int {
        exchange::span_width(self.own_heads())
    }
}

impl Share {
    /// What a projection reads of a row: its quantized values and its scale.
    pub open spec fn row(self, hidden: int, row: int) -> Seq<Held> {
        Seq::new(hidden as nat, |byte: int| (self.device)(Region::Normalized, spot(hidden, row, byte))) + Seq::new(
            4,
            |byte: int| (self.device)(Region::Scales, spot(4, row, byte)),
        )
    }

    /// q, k and v of a head of this rank, row by row.
    pub open spec fn head(self, width: int, rows: int, head: int) -> Seq<Held> {
        Seq::new(
            (rows * 384) as nat,
            |n: int|
                (self.device)(
                    Region::Inputs,
                    spot(3 * width, n / 384, spot(width, n % 384 / 128, spot(128, head, n % 128))),
                ),
        )
    }

    /// The gates of a head of this rank, row by row.
    pub open spec fn gates(self, width: int, rows: int, head: int) -> Seq<Held> {
        Seq::new(
            (rows * 128) as nat,
            |n: int| (self.device)(Region::Gate, spot(width, n / 128, spot(128, head, n % 128))),
        )
    }

    /// A layer's columns over rows, as an INT8 GEMM writes them from a place on.
    pub open spec fn projected(
        self,
        hidden: int,
        part: Part,
        first: int,
        region: Region,
        start: int,
        step: LinearStep,
    ) -> spec_fn(Region, int) -> Held {
        match step {
            LinearStep::Int8 { config, rows, first: column, outputs, features, stride, swiglu, adapter } => {
                let pitch = if stride == 0 {
                    outputs as int
                } else {
                    stride as int
                };
                |other: Region, place: int|
                    {
                        let (row, at) = ((place - start) / pitch, (place - start) % pitch);
                        if other == region && start <= place && row < rows && at < outputs {
                            if swiglu {
                                Value::Unset
                            } else {
                                Value::Made(
                                    ShareOp::Product { part, column: column + at, features, adapter },
                                    if adapter is Some {
                                        self.row(hidden, first + row).push((self.scratch)(row))
                                    } else {
                                        self.row(hidden, first + row)
                                    },
                                )
                            }
                        } else {
                            (self.device)(other, place)
                        }
                    }
            },
            _ => self.device,
        }
    }

    /// What a rank holds behind an action.
    pub open spec fn after(self, world: World, step: ShardStep) -> Share {
        let hidden = world.config.hidden as int;
        let width = world.width();
        match step {
            ShardStep::Reserve { region, bytes } => self,
            ShardStep::CopyRows { offset, bytes } => Share {
                device: put(
                    self.device,
                    Region::Normalized,
                    offset as int,
                    bytes as int,
                    |place: int| Value::given(ShareOp::Input { byte: world.own_rows().start * hidden + (place - offset) }),
                ),
                busy: true,
                ..self
            },
            ShardStep::CopyScales { offset, bytes } => Share {
                device: put(
                    self.device,
                    Region::Scales,
                    offset as int,
                    bytes as int,
                    |place: int| Value::given(ShareOp::Scale { byte: world.own_rows().start * 4 + (place - offset) }),
                ),
                busy: true,
                ..self
            },
            ShardStep::Synchronize => Share { busy: false, ..self },
            ShardStep::Publish { region, offset, bytes } => Share {
                shown: put(
                    self.shown,
                    region,
                    offset as int / unit(region),
                    bytes as int / unit(region),
                    |place: int|
                        if self.busy {
                            Value::Unset
                        } else {
                            (self.device)(region, place)
                        },
                ),
                ..self
            },
            ShardStep::Write { peer, from, from_offset, into, into_offset, bytes } => Share {
                sent: |passed: nat, other: usize, region: Region, place: int|
                    {
                        let start = into_offset as int / unit(into);
                        if passed == self.passed && other == peer && region == into && start <= place < start + bytes as int
                            / unit(into) {
                            (self.shown)(from, from_offset as int / unit(from) + (place - start))
                        } else {
                            (self.sent)(passed, other, region, place)
                        }
                    },
                ..self
            },
            ShardStep::Barrier => Share { passed: self.passed + 1, ..self },
            ShardStep::Receive { region, offset, bytes } => Share {
                device: put(
                    self.device,
                    region,
                    offset as int / unit(region),
                    bytes as int / unit(region),
                    |place: int| (world.arrives)(self.passed, region, place),
                ),
                ..self
            },
            ShardStep::Down { part, first, step } => match step {
                LinearStep::QuantizedDown { config, rows, columns, inputs } => Share {
                    scratch: |row: int|
                        if 0 <= row < rows {
                            Value::Made(ShareOp::Down { part, columns, inputs }, self.row(hidden, first + row))
                        } else {
                            (self.scratch)(row)
                        },
                    busy: true,
                    ..self
                },
                _ => self,
            },
            ShardStep::Project { part, first, region, offset, step } => Share {
                device: self.projected(hidden, part, first as int, region, offset as int / unit(region), step),
                busy: true,
                ..self
            },
            ShardStep::PrepareInputs { attending, rows, heads, pairs } => Share {
                prepared: |head: int|
                    if 0 <= head < heads {
                        Value::Made(
                            ShareOp::Prepared { attending, rows, pairs },
                            self.head(width, rows as int, head),
                        )
                    } else {
                        (self.prepared)(head)
                    },
                busy: true,
                ..self
            },
            ShardStep::QkNormRope { rows, heads, pairs } => Share {
                device: |region: Region, place: int|
                    {
                        let at = place % (3 * width);
                        if region == Region::Inputs && 0 <= place < rows * (3 * width) && at < 2 * width && at % width
                            < heads * 128 {
                            Value::Made(
                                ShareOp::Turned { row: place / (3 * width), place: at % width % 128, pairs },
                                Seq::new(128, |n: int| (self.device)(region, place - at % width % 128 + n)),
                            )
                        } else {
                            (self.device)(region, place)
                        }
                    },
                busy: true,
                ..self
            },
            ShardStep::Attend { attending, prepared, rows, heads } => Share {
                device: |region: Region, place: int|
                    {
                        let (row, head) = (place / width, place % width / 128);
                        if region == Region::Attended && 0 <= place < rows * width && head < heads {
                            let source = if prepared {
                                (self.prepared)(head)
                            } else {
                                Value::Made(ShareOp::Plain { rows }, self.head(width, rows as int, head))
                            };
                            Value::Made(
                                ShareOp::Attended { attending, rows, row, place: place % width % 128 },
                                if attending == (Attending::Vsa { gated: true }) {
                                    seq![source] + self.gates(width, rows as int, head)
                                } else {
                                    seq![source]
                                },
                            )
                        } else {
                            (self.device)(region, place)
                        }
                    },
                busy: true,
                ..self
            },
            ShardStep::Unpack { region, offset, rows, heads, span } => Share {
                output: |row: int, head: int, place: int|
                    if 0 <= row < rows && span.contains(head) && heads == world.config.heads {
                        (self.device)(
                            region,
                            offset as int / unit(region) + spot(
                                exchange::span_width(span),
                                row,
                                spot(128, head - span.start, place),
                            ),
                        )
                    } else {
                        (self.output)(row, head, place)
                    },
                busy: true,
                ..self
            },
            ShardStep::Charge(_) | ShardStep::Restart => self,
        }
    }

    /// What a rank holds behind actions.
    pub open spec fn behind(self, world: World, steps: Seq<ShardStep>) -> Share
        decreases steps.len(),
    {
        if steps.len() == 0 {
            self
        } else {
            self.behind(world, steps.drop_last()).after(world, steps.last())
        }
    }
}

/// A row of the block input, with its scale.
pub open spec fn input_row(hidden: int, row: int) -> Seq<Held> {
    Seq::new(hidden as nat, |byte: int| Value::given(ShareOp::Input { byte: spot(hidden, row, byte) })) + Seq::new(
        4,
        |byte: int| Value::given(ShareOp::Scale { byte: spot(4, row, byte) }),
    )
}

/// A column of a layer, with its adapter, at a row of the block input.
pub open spec fn product_of(linear: Linear, hidden: int, part: Part, column: int, row: int) -> Held {
    let input = input_row(hidden, row);
    match linear.adapter {
        None => Value::Made(
            ShareOp::Product { part, column, features: linear.layer->0.features, adapter: None },
            input,
        ),
        Some(low) => {
            let columns = low.columns->0;
            let down = Value::Made(ShareOp::Down { part, columns, inputs: low.inputs }, input);
            Value::Made(
                ShareOp::Product {
                    part,
                    column,
                    features: linear.layer->0.features,
                    adapter: Some(AdapterPart { rank: low.rank, stride: columns }),
                },
                input.push(down),
            )
        },
    }
}

/// One of q, k and v of a head at a row, normalized and rotated or as it is.
pub open spec fn head_value(
    block: Block,
    config: DitConfig,
    call: SharedCall,
    tensor: int,
    head: int,
    row: int,
    place: int,
) -> Held {
    let plain = |at: int|
        product_of(block.qkv, config.hidden as int, Part::Qkv, spot(config.width() as int, tensor, spot(128, head, at)), row);
    if call.attending(block) == Attending::Dense && tensor < 2 {
        Value::Made(ShareOp::Turned { row, place, pairs: call.pairs }, Seq::new(128, plain))
    } else {
        plain(place)
    }
}

/// The attention of a head at a row of the whole sequence.
pub open spec fn attention_of(
    block: Block,
    config: DitConfig,
    call: SharedCall,
    row: int,
    head: int,
    place: int,
) -> Held {
    let attending = call.attending(block);
    let rows = call.tokens;
    let heads = Seq::new(
        (rows * 384) as nat,
        |n: int| head_value(block, config, call, n % 384 / 128, head, n / 384, n % 128),
    );
    let gates = Seq::new(
        (rows * 128) as nat,
        |n: int| product_of(block.gate, config.hidden as int, Part::Gate, spot(128, head, n % 128), n / 128),
    );
    let source = if attending == Attending::Dense {
        Value::Made(ShareOp::Plain { rows }, heads)
    } else {
        Value::Made(ShareOp::Prepared { attending, rows, pairs: call.pairs }, heads)
    };
    Value::Made(
        ShareOp::Attended { attending, rows, row, place },
        if attending == (Attending::Vsa { gated: true }) {
            seq![source] + gates
        } else {
            seq![source]
        },
    )
}

proof fn behind_both(s: Share, world: World, one: Seq<ShardStep>, other: Seq<ShardStep>)
    ensures
        s.behind(world, one + other) == s.behind(world, one).behind(world, other),
    decreases other.len(),
{
    if other.len() == 0 {
        assert(one + other =~= one);
    } else {
        behind_both(s, world, one, other.drop_last());
        assert((one + other).drop_last() =~= one + other.drop_last());
    }
}

proof fn behind_one(s: Share, world: World, one: ShardStep)
    ensures
        s.behind(world, seq![one]) == s.after(world, one),
{
    reveal_with_fuel(Share::behind, 2);
    assert(seq![one].drop_last() =~= Seq::empty());
}

proof fn behind_two(s: Share, world: World, one: ShardStep, two: ShardStep)
    ensures
        s.behind(world, seq![one, two]) == s.after(world, one).after(world, two),
{
    behind_one(s, world, one);
    assert(seq![one, two].drop_last() =~= seq![one]);
}

proof fn behind_three(s: Share, world: World, one: ShardStep, two: ShardStep, three: ShardStep)
    ensures
        s.behind(world, seq![one, two, three]) == s.after(world, one).after(world, two).after(world, three),
{
    behind_two(s, world, one, two);
    assert(seq![one, two, three].drop_last() =~= seq![one, two]);
}

/// The row and the place in it of a place among rows, from a place of another row on.
proof fn places_part(pitch: int, row: int, at: int, first: int, start: int)
    requires
        0 <= at < pitch,
        0 <= start <= pitch,
    ensures
        ({
            let far = spot(pitch, row, at) - spot(pitch, first, start);
            if at >= start {
                far / pitch == row - first && far % pitch == at - start
            } else {
                far / pitch == row - first - 1 && far % pitch == pitch + at - start
            }
        }),
{
    let far = spot(pitch, row, at) - spot(pitch, first, start);
    if at >= start {
        assert(far == (row - first) * pitch + (at - start)) by (nonlinear_arith)
            requires
                far == (row * pitch + at) - (first * pitch + start),
        ;
        vstd::arithmetic::div_mod::lemma_fundamental_div_mod_converse(far, pitch, row - first, at - start);
    } else {
        assert(far == (row - first - 1) * pitch + (pitch + at - start)) by (nonlinear_arith)
            requires
                far == (row * pitch + at) - (first * pitch + start),
        ;
        vstd::arithmetic::div_mod::lemma_fundamental_div_mod_converse(far, pitch, row - first - 1, pitch + at - start);
    }
}

/// Whether a rank holds what it held, but for a region and what is at hand.
spec fn keeps(s: Share, then: Share, region: Region) -> bool {
    &&& then == (Share { device: then.device, scratch: then.scratch, busy: then.busy, ..s })
    &&& forall|other: Region, place: int|
        other != region ==> #[trigger] (then.device)(other, place) == (s.device)(other, place)
}

/// What a projection of rows leaves: the columns at their places in those rows.
proof fn a_projection_flows(
    s: Share,
    world: World,
    part: Part,
    region: Region,
    offset: usize,
    start: int,
    pitch: int,
    columns: Run,
    rows: Run,
    step: LinearStep,
)
    requires
        region == Region::Inputs || region == Region::Gate,
        rows.start <= rows.end,
        columns.start <= columns.end,
        0 <= start,
        start + columns.size() <= pitch,
        offset == spot(pitch, rows.start as int, start) * 2,
        step matches LinearStep::Int8 { config, rows: count, first, outputs, features, stride, swiglu, adapter }
            && count == rows.size() && first == columns.start && outputs == columns.size() && !swiglu && pitch == (if stride
            == 0 {
            outputs as int
        } else {
            stride as int
        }),
    ensures
        ({
            let then = s.after(world, ShardStep::Project { part, first: rows.start, region, offset, step });
            let hidden = world.config.hidden as int;
            &&& keeps(s, then, region)
            &&& then.scratch == s.scratch
            &&& forall|row: int, at: int|
                0 <= row && 0 <= at < pitch ==> #[trigger] (then.device)(region, spot(pitch, row, at)) == (if rows.contains(row)
                    && start <= at < start + columns.size() {
                    Value::Made(
                        ShareOp::Product {
                            part,
                            column: columns.start + (at - start),
                            features: step->Int8_features,
                            adapter: step->Int8_adapter,
                        },
                        if step->Int8_adapter is Some {
                            s.row(hidden, row).push((s.scratch)(row - rows.start))
                        } else {
                            s.row(hidden, row)
                        },
                    )
                } else {
                    (s.device)(region, spot(pitch, row, at))
                })
        }),
{
    let then = s.after(world, ShardStep::Project { part, first: rows.start, region, offset, step });
    let from = spot(pitch, rows.start as int, start);
    assert(offset as int / 2 == from);
    assert forall|row: int, at: int| 0 <= row && 0 <= at < pitch implies #[trigger] (then.device)(
        region,
        spot(pitch, row, at),
    ) == (if rows.contains(row) && start <= at < start + columns.size() {
        Value::Made(
            ShareOp::Product {
                part,
                column: columns.start + (at - start),
                features: step->Int8_features,
                adapter: step->Int8_adapter,
            },
            if step->Int8_adapter is Some {
                s.row(world.config.hidden as int, row).push((s.scratch)(row - rows.start))
            } else {
                s.row(world.config.hidden as int, row)
            },
        )
    } else {
        (s.device)(region, spot(pitch, row, at))
    }) by {
        places_part(pitch, row, at, rows.start as int, start);
        let far = spot(pitch, row, at) - from;
        if far >= 0 {
            vstd::arithmetic::div_mod::lemma_div_pos_is_pos(far, pitch);
        } else if rows.contains(row) && at >= start {
            assert((row - rows.start) * pitch + (at - start) >= 0) by (nonlinear_arith)
                requires
                    row >= rows.start,
                    at >= start,
                    pitch >= 0,
            ;
            assert((row - rows.start) * pitch == row * pitch - rows.start * pitch) by (nonlinear_arith);
        }
        assert((row - rows.start) + rows.start == row);
    }
}

/// Whether rows of the block input are on the device.
spec fn has_rows(s: Share, hidden: int, rows: Run) -> bool {
    forall|row: int| rows.contains(row) ==> #[trigger] s.row(hidden, row) == input_row(hidden, row)
}

/// What an adapter of a layer comes to in its GEMM.
spec fn part_of(linear: Linear) -> Option<AdapterPart> {
    match linear.adapter {
        None => None,
        Some(low) => Some(AdapterPart { rank: low.rank, stride: low.columns->0 }),
    }
}

/// Whether the adapter's down projection of rows is at hand.
spec fn has_downs(s: Share, linear: Linear, hidden: int, part: Part, rows: Run) -> bool {
    linear.adapter matches Some(low) ==> forall|row: int|
        0 <= row < rows.size() ==> #[trigger] (s.scratch)(row) == Value::Made(
            ShareOp::Down { part, columns: low.columns->0, inputs: low.inputs },
            input_row(hidden, rows.start + row),
        )
}

proof fn downs_flow(
    s: Share,
    world: World,
    name: Seq<char>,
    linear: Linear,
    part: Part,
    rows: Run,
    steps: Seq<LinearStep>,
    adapter: Option<AdapterPart>,
)
    requires
        rows.start <= rows.end,
        model::quantized_adapter(name, linear.adapter, rows.size() as usize) == Ok::<
            (Seq<LinearStep>, Option<AdapterPart>),
            Seq<char>,
        >((steps, adapter)),
        has_rows(s, world.config.hidden as int, rows),
    ensures
        ({
            let then = s.behind(world, exchange::downs(part, rows.start, steps));
            &&& then == (Share { scratch: then.scratch, busy: then.busy, ..s })
            &&& has_downs(then, linear, world.config.hidden as int, part, rows)
            &&& adapter == part_of(linear)
        }),
{
    let list = exchange::downs(part, rows.start, steps);
    if linear.adapter is Some {
        assert(list =~= seq![list[0]]);
        behind_one(s, world, list[0]);
        let then = s.behind(world, list);
        let hidden = world.config.hidden as int;
        let low = linear.adapter->0;
        assert forall|row: int| 0 <= row < rows.size() implies #[trigger] (then.scratch)(row) == Value::Made(
            ShareOp::Down { part, columns: low.columns->0, inputs: low.inputs },
            input_row(hidden, rows.start + row),
        ) by {
            assert(rows.contains(rows.start + row));
            assert(s.row(hidden, rows.start + row) == input_row(hidden, rows.start + row));
        }
    } else {
        assert(list =~= Seq::empty());
    }
}

/// A column range of a layer over rows whose input and whose adapter's part are there.
proof fn a_layer_flows(
    s: Share,
    world: World,
    name: Seq<char>,
    linear: Linear,
    part: Part,
    region: Region,
    offset: usize,
    start: int,
    pitch: int,
    columns: Run,
    rows: Run,
    stride: usize,
    step: LinearStep,
)
    requires
        region == Region::Inputs || region == Region::Gate,
        rows.start <= rows.end,
        columns.start <= columns.end,
        0 <= start,
        start + columns.size() <= pitch,
        offset == spot(pitch, rows.start as int, start) * 2,
        pitch == (if stride == 0 {
            columns.size()
        } else {
            stride as int
        }),
        model::range_step(name, linear.layer, rows.size() as usize, columns, stride, part_of(linear)) == Ok::<
            LinearStep,
            Seq<char>,
        >(step),
        has_rows(s, world.config.hidden as int, rows),
        has_downs(s, linear, world.config.hidden as int, part, rows),
    ensures
        ({
            let then = s.after(world, ShardStep::Project { part, first: rows.start, region, offset, step });
            let hidden = world.config.hidden as int;
            &&& keeps(s, then, region)
            &&& then.scratch == s.scratch
            &&& has_rows(then, hidden, rows)
            &&& forall|row: int, at: int|
                0 <= row && 0 <= at < pitch ==> #[trigger] (then.device)(region, spot(pitch, row, at)) == (
                if rows.contains(row) && start <= at < start + columns.size() {
                    product_of(linear, hidden, part, columns.start + (at - start), row)
                } else {
                    (s.device)(region, spot(pitch, row, at))
                })
        }),
{
    let then = s.after(world, ShardStep::Project { part, first: rows.start, region, offset, step });
    let hidden = world.config.hidden as int;
    a_projection_flows(s, world, part, region, offset, start, pitch, columns, rows, step);
    assert forall|row: int| rows.contains(row) implies #[trigger] then.row(hidden, row) == input_row(hidden, row) by {
        rows_stay(s, then, region, hidden, row);
    }
    assert forall|row: int, at: int| 0 <= row && 0 <= at < pitch implies #[trigger] (then.device)(
        region,
        spot(pitch, row, at),
    ) == (if rows.contains(row) && start <= at < start + columns.size() {
        product_of(linear, hidden, part, columns.start + (at - start), row)
    } else {
        (s.device)(region, spot(pitch, row, at))
    }) by {
        if rows.contains(row) {
            assert(s.row(hidden, row) == input_row(hidden, row));
            if linear.adapter is Some {
                let near = row - rows.start;
                assert((s.scratch)(near) == Value::Made(
                    ShareOp::Down {
                        part,
                        columns: linear.adapter->0.columns->0,
                        inputs: linear.adapter->0.inputs,
                    },
                    input_row(hidden, rows.start + near),
                ));
            }
        }
    }
}

/// A row of the block input stays as it was where another region was written.
proof fn rows_stay(s: Share, then: Share, region: Region, hidden: int, row: int)
    requires
        region == Region::Inputs || region == Region::Gate,
        keeps(s, then, region),
    ensures
        then.row(hidden, row) == s.row(hidden, row),
{
    assert(then.row(hidden, row) =~= s.row(hidden, row));
}

/// What a projection of q, k or v leaves.
proof fn a_tensor_flows(s: Share, world: World, block: Block, rows: Run, tokens: usize, tensor: int)
    requires
        exchange::shares(world.shard, world.config, tokens),
        rows.start < rows.end <= tokens,
        0 <= tensor < 3,
        exchange::tensor_plan(block, world.config, world.own_heads(), rows, tensor, part_of(block.qkv)) is Ok,
        has_rows(s, world.config.hidden as int, rows),
        has_downs(s, block.qkv, world.config.hidden as int, Part::Qkv, rows),
    ensures
        ({
            let then = s.behind(
                world,
                exchange::tensor_plan(block, world.config, world.own_heads(), rows, tensor, part_of(block.qkv))->Ok_0,
            );
            let (hidden, width) = (world.config.hidden as int, world.width());
            let own = world.own_heads();
            &&& keeps(s, then, Region::Inputs)
            &&& then.scratch == s.scratch
            &&& has_rows(then, hidden, rows)
            &&& forall|row: int, at: int|
                0 <= row && 0 <= at < 3 * width ==> #[trigger] (then.device)(Region::Inputs, spot(3 * width, row, at)) == (
                if rows.contains(row) && tensor * width <= at < tensor * width + width {
                    product_of(
                        block.qkv,
                        hidden,
                        Part::Qkv,
                        tensor * world.config.width() + own.start * HEAD_DIM + (at - tensor * width),
                        row,
                    )
                } else {
                    (s.device)(Region::Inputs, spot(3 * width, row, at))
                })
        }),
{
    let own = world.own_heads();
    let width = world.width();
    let config = world.config;
    exchange::span_is_narrow(own, config);
    let columns = exchange::tensor_columns(config, own, tensor);
    let list = exchange::tensor_plan(block, config, own, rows, tensor, part_of(block.qkv))->Ok_0;
    let step = list[0]->Project_step;
    let offset = list[0]->Project_offset;
    assert(list =~= seq![list[0]]);
    behind_one(s, world, list[0]);
    assert(0 <= tensor * width && tensor * width + width <= 3 * width) by (nonlinear_arith)
        requires
            0 <= tensor <= 2,
            width >= 0,
    ;
    assert(0 <= tensor * config.width() && tensor * config.width() + config.width() <= 3 * config.width())
        by (nonlinear_arith)
        requires
            0 <= tensor <= 2,
            config.width() >= 0,
    ;
    exchange::row_bytes(rows.start as int, rows.size(), tokens as int, 3 * width, 3 * config.width());
    assert(rows.size() * (3 * width) >= 3 * width) by (nonlinear_arith)
        requires
            rows.size() >= 1,
            width >= 0,
    ;
    a_layer_flows(
        s,
        world,
        block.name_of(Part::Qkv),
        block.qkv,
        Part::Qkv,
        Region::Inputs,
        offset,
        tensor * width,
        3 * width,
        columns,
        rows,
        (3 * width) as usize,
        step,
    );
}

/// Whether q, k and v of a row stand in their region, and its gate if there is one.
spec fn is_projected(s: Share, world: World, block: Block, gated: bool, row: int) -> bool {
    let (hidden, width) = (world.config.hidden as int, world.width());
    let first = world.own_heads().start * HEAD_DIM;
    &&& forall|tensor: int, at: int|
        0 <= tensor < 3 && 0 <= at < width ==> #[trigger] (s.device)(
            Region::Inputs,
            spot(3 * width, row, spot(width, tensor, at)),
        ) == product_of(
            block.qkv,
            hidden,
            Part::Qkv,
            spot(world.config.width() as int, tensor, first + at),
            row,
        )
    &&& gated ==> forall|at: int|
        0 <= at < width ==> #[trigger] (s.device)(Region::Gate, spot(width, row, at)) == product_of(
            block.gate,
            hidden,
            Part::Gate,
            first + at,
            row,
        )
}

/// Whether what stands of a row in the regions of the projections stands there still.
spec fn same_row(s: Share, then: Share, width: int, row: int) -> bool {
    &&& forall|at: int|
        0 <= at < 3 * width ==> #[trigger] (then.device)(Region::Inputs, spot(3 * width, row, at)) == (s.device)(
            Region::Inputs,
            spot(3 * width, row, at),
        )
    &&& forall|at: int|
        0 <= at < width ==> #[trigger] (then.device)(Region::Gate, spot(width, row, at)) == (s.device)(
            Region::Gate,
            spot(width, row, at),
        )
}

/// Whether a rank holds what it held, but for the projections and what is at hand.
spec fn keeps_most(s: Share, then: Share) -> bool {
    &&& then == (Share { device: then.device, scratch: then.scratch, busy: then.busy, ..s })
    &&& forall|other: Region, place: int|
        other != Region::Inputs && other != Region::Gate ==> #[trigger] (then.device)(other, place) == (s.device)(
            other,
            place,
        )
}

proof fn rows_stay_most(s: Share, then: Share, hidden: int)
    requires
        keeps_most(s, then),
    ensures
        forall|row: int| #[trigger] then.row(hidden, row) == s.row(hidden, row),
{
    assert forall|row: int| #[trigger] then.row(hidden, row) == s.row(hidden, row) by {
        assert(then.row(hidden, row) =~= s.row(hidden, row));
    }
}

/// A place in the row of three tensors is in one of them.
proof fn a_place_has_a_tensor(width: int, tensor: int, at: int)
    requires
        0 <= tensor < 3,
        0 <= at < width,
    ensures
        0 <= spot(width, tensor, at) < 3 * width,
        forall|other: int|
            0 <= other < 3 ==> ((#[trigger] (other * width) <= spot(width, tensor, at) < other * width + width) <==> other
                == tensor),
{
    assert forall|other: int| 0 <= other < 3 implies ((#[trigger] (other * width) <= spot(width, tensor, at) < other
        * width + width) <==> other == tensor) by {
        if other < tensor {
            assert(other * width + width <= tensor * width) by (nonlinear_arith)
                requires
                    other + 1 <= tensor,
                    width >= 0,
            ;
        } else if tensor < other {
            assert(tensor * width + width <= other * width) by (nonlinear_arith)
                requires
                    tensor + 1 <= other,
                    width >= 0,
            ;
        }
    }
    assert(0 <= tensor * width && tensor * width + width <= 3 * width) by (nonlinear_arith)
        requires
            0 <= tensor <= 2,
            width >= 0,
    ;
}

/// What the projections of q, k and v of rows leave.
proof fn qkv_flows(s: Share, world: World, block: Block, rows: Run, tokens: usize)
    requires
        exchange::shares(world.shard, world.config, tokens),
        rows.start < rows.end <= tokens,
        exchange::qkv_plan(block, world.config, world.own_heads(), rows) is Ok,
        has_rows(s, world.config.hidden as int, rows),
    ensures
        ({
            let then = s.behind(world, exchange::qkv_plan(block, world.config, world.own_heads(), rows)->Ok_0);
            &&& keeps(s, then, Region::Inputs)
            &&& forall|row: int| rows.contains(row) ==> #[trigger] is_projected(then, world, block, false, row)
            &&& forall|row: int|
                0 <= row && !rows.contains(row) ==> #[trigger] same_row(s, then, world.width(), row)
        }),
{
    reveal(exchange::qkv_plan);
    let (config, own, width) = (world.config, world.own_heads(), world.width());
    let name = block.name_of(Part::Qkv);
    let (steps, adapter) = model::quantized_adapter(name, block.qkv.adapter, rows.size() as usize)->Ok_0;
    let downs = exchange::downs(Part::Qkv, rows.start, steps);
    downs_flow(s, world, name, block.qkv, Part::Qkv, rows, steps, adapter);
    let ready = s.behind(world, downs);
    assert forall|row: int| rows.contains(row) implies #[trigger] ready.row(config.hidden as int, row) == input_row(
        config.hidden as int,
        row,
    ) by {
        assert(ready.row(config.hidden as int, row) =~= s.row(config.hidden as int, row));
    }
    let q = exchange::tensor_plan(block, config, own, rows, 0, adapter)->Ok_0;
    let k = exchange::tensor_plan(block, config, own, rows, 1, adapter)->Ok_0;
    let v = exchange::tensor_plan(block, config, own, rows, 2, adapter)->Ok_0;
    let all = exchange::qkv_plan(block, config, own, rows)->Ok_0;
    assert(all =~= downs + (q + (k + v)));
    behind_both(s, world, downs, q + (k + v));
    behind_both(ready, world, q, k + v);
    a_tensor_flows(ready, world, block, rows, tokens, 0);
    let one = ready.behind(world, q);
    behind_both(one, world, k, v);
    a_tensor_flows(one, world, block, rows, tokens, 1);
    let two = one.behind(world, k);
    a_tensor_flows(two, world, block, rows, tokens, 2);
    let then = two.behind(world, v);
    exchange::span_is_narrow(own, config);
    assert forall|row: int| rows.contains(row) implies #[trigger] is_projected(then, world, block, false, row) by {
        assert forall|tensor: int, at: int| 0 <= tensor < 3 && 0 <= at < width implies #[trigger] (then.device)(
            Region::Inputs,
            spot(3 * width, row, spot(width, tensor, at)),
        ) == product_of(
            block.qkv,
            config.hidden as int,
            Part::Qkv,
            spot(config.width() as int, tensor, own.start * HEAD_DIM + at),
            row,
        ) by {
            a_place_has_a_tensor(width, tensor, at);
            assert(tensor == 0 || tensor == 1 || tensor == 2);
            let place = spot(3 * width, row, spot(width, tensor, at));
            assert((one.device)(Region::Inputs, place) == (one.device)(Region::Inputs, place));
            assert((two.device)(Region::Inputs, place) == (two.device)(Region::Inputs, place));
        }
    }
    assert forall|row: int| 0 <= row && !rows.contains(row) implies #[trigger] same_row(s, then, width, row) by {
        assert forall|at: int| 0 <= at < 3 * width implies #[trigger] (then.device)(
            Region::Inputs,
            spot(3 * width, row, at),
        ) == (s.device)(Region::Inputs, spot(3 * width, row, at)) by {
            let place = spot(3 * width, row, at);
            assert((one.device)(Region::Inputs, place) == (ready.device)(Region::Inputs, place));
            assert((two.device)(Region::Inputs, place) == (one.device)(Region::Inputs, place));
        }
    }
}

/// What the projection of the gates of rows leaves.
proof fn gates_flow(s: Share, world: World, block: Block, rows: Run, tokens: usize)
    requires
        exchange::shares(world.shard, world.config, tokens),
        rows.start < rows.end <= tokens,
        exchange::gate_plan(block, world.own_heads(), rows) is Ok,
        has_rows(s, world.config.hidden as int, rows),
    ensures
        ({
            let then = s.behind(world, exchange::gate_plan(block, world.own_heads(), rows)->Ok_0);
            let (hidden, width) = (world.config.hidden as int, world.width());
            let first = world.own_heads().start * HEAD_DIM;
            &&& keeps(s, then, Region::Gate)
            &&& forall|row: int, at: int|
                0 <= row && 0 <= at < width ==> #[trigger] (then.device)(Region::Gate, spot(width, row, at)) == (
                if rows.contains(row) {
                    product_of(block.gate, hidden, Part::Gate, first + at, row)
                } else {
                    (s.device)(Region::Gate, spot(width, row, at))
                })
        }),
{
    reveal(exchange::gate_plan);
    let (config, own, width) = (world.config, world.own_heads(), world.width());
    let name = block.name_of(Part::Gate);
    let (steps, adapter) = model::quantized_adapter(name, block.gate.adapter, rows.size() as usize)->Ok_0;
    let downs = exchange::downs(Part::Gate, rows.start, steps);
    downs_flow(s, world, name, block.gate, Part::Gate, rows, steps, adapter);
    let ready = s.behind(world, downs);
    assert forall|row: int| rows.contains(row) implies #[trigger] ready.row(config.hidden as int, row) == input_row(
        config.hidden as int,
        row,
    ) by {
        assert(ready.row(config.hidden as int, row) =~= s.row(config.hidden as int, row));
    }
    exchange::span_is_narrow(own, config);
    let columns = Run { start: (own.start * HEAD_DIM) as usize, end: (own.end * HEAD_DIM) as usize };
    let all = exchange::gate_plan(block, own, rows)->Ok_0;
    let last = all[all.len() - 1];
    assert(all =~= downs + seq![last]);
    behind_both(s, world, downs, seq![last]);
    behind_one(ready, world, last);
    exchange::row_bytes(rows.start as int, rows.size(), tokens as int, width, 3 * config.width());
    a_layer_flows(
        ready,
        world,
        name,
        block.gate,
        Part::Gate,
        Region::Gate,
        last->Project_offset,
        0,
        width,
        columns,
        rows,
        0,
        last->Project_step,
    );
}

/// What the projections of rows leave.
proof fn inputs_flow(s: Share, world: World, block: Block, rows: Run, gated: bool, tokens: usize)
    requires
        exchange::shares(world.shard, world.config, tokens),
        rows.start <= rows.end <= tokens,
        exchange::inputs_plan(block, world.config, world.own_heads(), rows, gated) is Ok,
        has_rows(s, world.config.hidden as int, rows),
    ensures
        ({
            let then = s.behind(
                world,
                exchange::inputs_plan(block, world.config, world.own_heads(), rows, gated)->Ok_0,
            );
            &&& keeps_most(s, then)
            &&& forall|row: int| rows.contains(row) ==> #[trigger] is_projected(then, world, block, gated, row)
            &&& forall|row: int|
                0 <= row && !rows.contains(row) ==> #[trigger] same_row(s, then, world.width(), row)
        }),
{
    let (config, own, width) = (world.config, world.own_heads(), world.width());
    let hidden = config.hidden as int;
    let all = exchange::inputs_plan(block, config, own, rows, gated)->Ok_0;
    if rows.size() > 0 {
        let qkv = exchange::qkv_plan(block, config, own, rows)->Ok_0;
        qkv_flows(s, world, block, rows, tokens);
        let made = s.behind(world, qkv);
        if gated {
            let gate = exchange::gate_plan(block, own, rows)->Ok_0;
            behind_both(s, world, qkv, gate);
            assert forall|row: int| rows.contains(row) implies #[trigger] made.row(hidden, row) == input_row(
                hidden,
                row,
            ) by {
                rows_stay(s, made, Region::Inputs, hidden, row);
                assert(s.row(hidden, row) == input_row(hidden, row));
            }
            gates_flow(made, world, block, rows, tokens);
            let then = made.behind(world, gate);
            assert forall|row: int| rows.contains(row) implies #[trigger] is_projected(
                then,
                world,
                block,
                gated,
                row,
            ) by {
                assert(is_projected(made, world, block, false, row));
            }
            assert forall|row: int| 0 <= row && !rows.contains(row) implies #[trigger] same_row(
                s,
                then,
                width,
                row,
            ) by {
                assert(same_row(s, made, width, row));
            }
        } else {
            assert(all =~= qkv);
            assert forall|row: int| rows.contains(row) implies #[trigger] is_projected(
                made,
                world,
                block,
                gated,
                row,
            ) by {
                assert(is_projected(made, world, block, false, row));
            }
        }
    }
}

/// What the projections of the first `count` ranks' rows leave, without this rank's own.
proof fn peers_flow(s: Share, world: World, block: Block, gated: bool, tokens: usize, count: int)
    requires
        exchange::shares(world.shard, world.config, tokens),
        0 <= count <= world.shard.tokens@.len(),
        exchange::peers_plan(block, world.config, world.shard, gated, count) is Ok,
        forall|row: int| 0 <= row < tokens ==> #[trigger] s.row(world.config.hidden as int, row) == input_row(
            world.config.hidden as int,
            row,
        ),
    ensures
        ({
            let then = s.behind(world, exchange::peers_plan(block, world.config, world.shard, gated, count)->Ok_0);
            &&& keeps_most(s, then)
            &&& forall|row: int, rank: int|
                0 <= rank < count && rank != world.shard.rank && (#[trigger] world.shard.tokens@[rank]).contains(row)
                    ==> #[trigger] is_projected(then, world, block, gated, row)
            &&& forall|row: int|
                0 <= row && (forall|rank: int|
                    0 <= rank < count && rank != world.shard.rank ==> !(#[trigger] world.shard.tokens@[rank]).contains(
                        row,
                    )) ==> #[trigger] same_row(s, then, world.width(), row)
        }),
    decreases count,
{
    let (config, own, width) = (world.config, world.own_heads(), world.width());
    let hidden = config.hidden as int;
    let all = exchange::peers_plan(block, config, world.shard, gated, count)->Ok_0;
    if count > 0 {
        peers_flow(s, world, block, gated, tokens, count - 1);
        let before = exchange::peers_plan(block, config, world.shard, gated, count - 1)->Ok_0;
        let made = s.behind(world, before);
        if count - 1 == world.shard.rank {
            assert(all =~= before);
        } else {
            let rows = world.shard.tokens@[count - 1];
            let list = exchange::inputs_plan(block, config, own, rows, gated)->Ok_0;
            behind_both(s, world, before, list);
            rows_stay_most(s, made, hidden);
            assert forall|row: int| rows.contains(row) implies #[trigger] made.row(hidden, row) == input_row(
                hidden,
                row,
            ) by {
                assert(s.row(hidden, row) == input_row(hidden, row));
            }
            inputs_flow(made, world, block, rows, gated, tokens);
            let then = made.behind(world, list);
            assert forall|row: int, rank: int|
                0 <= rank < count && rank != world.shard.rank && (#[trigger] world.shard.tokens@[rank]).contains(
                    row,
                ) implies #[trigger] is_projected(then, world, block, gated, row) by {
                if !rows.contains(row) {
                    assert(is_projected(made, world, block, gated, row));
                    assert(same_row(made, then, width, row));
                    a_row_stays_projected(made, then, world, block, gated, row);
                }
            }
            assert forall|row: int|
                0 <= row && (forall|rank: int|
                    0 <= rank < count && rank != world.shard.rank ==> !(#[trigger] world.shard.tokens@[rank]).contains(
                        row,
                    )) implies #[trigger] same_row(s, then, width, row) by {
                assert(!world.shard.tokens@[count - 1].contains(row));
                assert(same_row(s, made, width, row));
                assert(same_row(made, then, width, row));
            }
        }
    }
}

proof fn a_row_stays_projected(s: Share, then: Share, world: World, block: Block, gated: bool, row: int)
    requires
        is_projected(s, world, block, gated, row),
        same_row(s, then, world.width(), row),
    ensures
        is_projected(then, world, block, gated, row),
{
    let width = world.width();
    assert forall|tensor: int, at: int| 0 <= tensor < 3 && 0 <= at < width implies #[trigger] (then.device)(
        Region::Inputs,
        spot(3 * width, row, spot(width, tensor, at)),
    ) == (s.device)(Region::Inputs, spot(3 * width, row, spot(width, tensor, at))) by {
        a_place_has_a_tensor(width, tensor, at);
    }
}

/// A place of a row is among those of the rows of a run if the row is.
proof fn places_are_in_rows(pitch: int, rows: Run, row: int, at: int)
    requires
        0 <= at < pitch,
        rows.start <= rows.end,
    ensures
        (rows.start * pitch <= spot(pitch, row, at) < rows.start * pitch + rows.size() * pitch) == rows.contains(row),
{
    assert(rows.start * pitch + rows.size() * pitch == rows.end * pitch) by (nonlinear_arith)
        requires
            rows.size() == rows.end - rows.start,
    ;
    if row < rows.start {
        assert(row * pitch + pitch <= rows.start * pitch) by (nonlinear_arith)
            requires
                row + 1 <= rows.start,
                pitch >= 0,
        ;
    } else {
        assert(rows.start * pitch <= row * pitch) by (nonlinear_arith)
            requires
                rows.start <= row,
                pitch >= 0,
        ;
    }
    if row < rows.end {
        assert(row * pitch + pitch <= rows.end * pitch) by (nonlinear_arith)
            requires
                row + 1 <= rows.end,
                pitch >= 0,
        ;
    } else {
        assert(rows.end * pitch <= row * pitch) by (nonlinear_arith)
            requires
                rows.end <= row,
                pitch >= 0,
        ;
    }
}

/// A place of one of so many rows is among theirs.
proof fn a_place_is_inside(pitch: int, rows: int, row: int, at: int)
    requires
        0 <= at < pitch,
        0 <= row < rows,
    ensures
        0 <= spot(pitch, row, at) < rows * pitch,
{
    assert(0 <= row * pitch && row * pitch + pitch <= rows * pitch) by (nonlinear_arith)
        requires
            0 <= row,
            row + 1 <= rows,
            pitch >= 0,
    ;
}

/// The bytes of the rows of a run can be counted.
proof fn rows_have_bytes(world: World, rows: Run, tokens: usize)
    requires
        exchange::shares(world.shard, world.config, tokens),
        rows.start <= rows.end <= tokens,
    ensures
        0 <= rows.start * world.config.hidden <= usize::MAX,
        0 <= rows.size() * world.config.hidden <= usize::MAX,
        0 <= rows.start * 4 <= usize::MAX,
        0 <= rows.size() * 4 <= usize::MAX,
{
    let hidden = world.config.hidden as int;
    exchange::row_bytes(rows.start as int, rows.size(), tokens as int, hidden, hidden);
}

/// Whether peers can read the rows of the block input that are this rank's.
spec fn shows_rows(s: Share, world: World) -> bool {
    let hidden = world.config.hidden as int;
    &&& forall|row: int, byte: int|
        world.own_rows().contains(row) && 0 <= byte < hidden ==> #[trigger] (s.shown)(
            Region::Normalized,
            spot(hidden, row, byte),
        ) == Value::given(ShareOp::Input { byte: spot(hidden, row, byte) })
    &&& forall|row: int, byte: int|
        world.own_rows().contains(row) && 0 <= byte < 4 ==> #[trigger] (s.shown)(Region::Scales, spot(4, row, byte))
            == Value::given(ShareOp::Scale { byte: spot(4, row, byte) })
}

/// What publishing a rank's rows leaves.
proof fn publishing_flows(s: Share, world: World, tokens: usize)
    requires
        exchange::shares(world.shard, world.config, tokens),
    ensures
        ({
            let then = s.behind(world, exchange::publishing(world.shard, world.config.hidden, tokens));
            &&& then == (Share { device: then.device, shown: then.shown, busy: then.busy, ..s })
            &&& has_rows(then, world.config.hidden as int, world.own_rows())
            &&& shows_rows(then, world)
        }),
{
    reveal(exchange::publishing);
    let rows = world.own_rows();
    let hidden = world.config.hidden as int;
    rows_have_bytes(world, rows, tokens);
    let all = exchange::publishing(world.shard, world.config.hidden, tokens);
    let (a, b, c) = (seq![all[0], all[1], all[2]], seq![all[3], all[4]], seq![all[5], all[6], all[7]]);
    assert(all =~= a + (b + c));
    behind_both(s, world, a, b + c);
    behind_three(s, world, all[0], all[1], all[2]);
    let one = s.behind(world, a);
    behind_both(one, world, b, c);
    behind_two(one, world, all[3], all[4]);
    let two = one.behind(world, b);
    behind_three(two, world, all[5], all[6], all[7]);
    let then = two.behind(world, c);
    assert forall|row: int, byte: int| rows.contains(row) && 0 <= byte < hidden implies #[trigger] (two.device)(
        Region::Normalized,
        spot(hidden, row, byte),
    ) == Value::given(ShareOp::Input { byte: spot(hidden, row, byte) }) by {
        places_are_in_rows(hidden, rows, row, byte);
    }
    assert forall|row: int, byte: int| rows.contains(row) && 0 <= byte < 4 implies #[trigger] (two.device)(
        Region::Scales,
        spot(4, row, byte),
    ) == Value::given(ShareOp::Scale { byte: spot(4, row, byte) }) by {
        places_are_in_rows(4, rows, row, byte);
    }
    assert forall|row: int| rows.contains(row) implies #[trigger] then.row(hidden, row) == input_row(hidden, row) by {
        assert(then.device == two.device);
        assert(then.row(hidden, row) =~= input_row(hidden, row));
    }
    assert forall|row: int, byte: int| rows.contains(row) && 0 <= byte < hidden implies #[trigger] (then.shown)(
        Region::Normalized,
        spot(hidden, row, byte),
    ) == Value::given(ShareOp::Input { byte: spot(hidden, row, byte) }) by {
        places_are_in_rows(hidden, rows, row, byte);
        assert((two.device)(Region::Normalized, spot(hidden, row, byte)) == Value::given(
            ShareOp::Input { byte: spot(hidden, row, byte) },
        ));
    }
    assert forall|row: int, byte: int| rows.contains(row) && 0 <= byte < 4 implies #[trigger] (then.shown)(
        Region::Scales,
        spot(4, row, byte),
    ) == Value::given(ShareOp::Scale { byte: spot(4, row, byte) }) by {
        places_are_in_rows(4, rows, row, byte);
        assert((two.device)(Region::Scales, spot(4, row, byte)) == Value::given(
            ShareOp::Scale { byte: spot(4, row, byte) },
        ));
    }
}

/// Whether this rank's rows of the block input went to a peer's region after so many barriers.
pub open spec fn told_rows(s: Share, world: World, passed: nat, peer: int) -> bool {
    let hidden = world.config.hidden as int;
    &&& forall|row: int, byte: int|
        world.own_rows().contains(row) && 0 <= byte < hidden ==> #[trigger] (s.sent)(
            passed,
            peer as usize,
            Region::Normalized,
            spot(hidden, row, byte),
        ) == Value::given(ShareOp::Input { byte: spot(hidden, row, byte) })
    &&& forall|row: int, byte: int|
        world.own_rows().contains(row) && 0 <= byte < 4 ==> #[trigger] (s.sent)(
            passed,
            peer as usize,
            Region::Scales,
            spot(4, row, byte),
        ) == Value::given(ShareOp::Scale { byte: spot(4, row, byte) })
}

/// What sending a rank's rows to the first `count` ranks leaves.
proof fn sending_flows(s: Share, world: World, tokens: usize, count: int)
    requires
        exchange::shares(world.shard, world.config, tokens),
        0 <= count <= world.shard.tokens@.len(),
        shows_rows(s, world),
    ensures
        ({
            let then = s.behind(
                world,
                exchange::for_peers(
                    world.shard,
                    count,
                    |peer: int| exchange::sent_to(world.own_rows(), world.config.hidden, peer),
                ),
            );
            &&& then == (Share { sent: then.sent, ..s })
            &&& forall|peer: int|
                0 <= peer < count && peer != world.shard.rank ==> #[trigger] told_rows(then, world, s.passed, peer)
            &&& forall|passed: nat, peer: usize, region: Region, place: int|
                passed != s.passed ==> #[trigger] (then.sent)(passed, peer, region, place) == (s.sent)(
                    passed,
                    peer,
                    region,
                    place,
                )
        }),
    decreases count,
{
    let rows = world.own_rows();
    let hidden = world.config.hidden as int;
    let send = |peer: int| exchange::sent_to(world.own_rows(), world.config.hidden, peer);
    assert(world.shard.tokens.len() == world.shard.tokens@.len());
    if count > 0 {
        sending_flows(s, world, tokens, count - 1);
        let before = exchange::for_peers(world.shard, count - 1, send);
        let made = s.behind(world, before);
        if count - 1 != world.shard.rank {
            rows_have_bytes(world, rows, tokens);
            let list = send(count - 1);
            behind_both(s, world, before, list);
            behind_two(made, world, list[0], list[1]);
            assert(list =~= seq![list[0], list[1]]);
            let then = made.behind(world, list);
            assert forall|peer: int| 0 <= peer < count && peer != world.shard.rank implies #[trigger] told_rows(
                then,
                world,
                s.passed,
                peer,
            ) by {
                if peer == count - 1 {
                    assert forall|row: int, byte: int| rows.contains(row) && 0 <= byte < hidden implies #[trigger] (
                    then.sent)(s.passed, peer as usize, Region::Normalized, spot(hidden, row, byte)) == Value::given(
                        ShareOp::Input { byte: spot(hidden, row, byte) },
                    ) by {
                        places_are_in_rows(hidden, rows, row, byte);
                        assert((s.shown)(Region::Normalized, spot(hidden, row, byte)) == Value::given(
                            ShareOp::Input { byte: spot(hidden, row, byte) },
                        ));
                    }
                    assert forall|row: int, byte: int| rows.contains(row) && 0 <= byte < 4 implies #[trigger] (
                    then.sent)(s.passed, peer as usize, Region::Scales, spot(4, row, byte)) == Value::given(
                        ShareOp::Scale { byte: spot(4, row, byte) },
                    ) by {
                        places_are_in_rows(4, rows, row, byte);
                        assert((s.shown)(Region::Scales, spot(4, row, byte)) == Value::given(
                            ShareOp::Scale { byte: spot(4, row, byte) },
                        ));
                    }
                } else {
                    assert(told_rows(made, world, s.passed, peer));
                }
            }
        }
    }
}

/// Whether what arrives in a rank's regions is what its peers send: their rows of the block input after one barrier,
/// and their heads of this rank's rows after three.
pub open spec fn is_told(world: World, block: Block, call: SharedCall) -> bool {
    let hidden = world.config.hidden as int;
    &&& forall|rank: int, row: int, byte: int|
        0 <= rank < world.shard.tokens@.len() && rank != world.shard.rank && (#[trigger] world.shard.tokens@[rank]).contains(
            row,
        ) && 0 <= byte < hidden ==> #[trigger] (world.arrives)(1, Region::Normalized, spot(hidden, row, byte))
            == Value::given(ShareOp::Input { byte: spot(hidden, row, byte) })
    &&& forall|rank: int, row: int, byte: int|
        0 <= rank < world.shard.tokens@.len() && rank != world.shard.rank && (#[trigger] world.shard.tokens@[rank]).contains(
            row,
        ) && 0 <= byte < 4 ==> #[trigger] (world.arrives)(1, Region::Scales, spot(4, row, byte)) == Value::given(
            ShareOp::Scale { byte: spot(4, row, byte) },
        )
    &&& forall|rank: int, row: int, head: int, place: int|
        0 <= rank < world.shard.heads@.len() && rank != world.shard.rank && 0 <= row < world.own_rows().size()
            && world.shard.heads@[rank].contains(head) && 0 <= place < 128 ==> #[trigger] (world.arrives)(
            3,
            Region::Received(rank as usize),
            span_spot(world.shard.heads@[rank], row, head, place),
        ) == attention_of(block, world.config, call, world.own_rows().start + row, head, place)
}

/// The place of a value of a head in rows of a run of heads.
pub open spec fn span_spot(span: Run, row: int, head: int, place: int) -> int {
    spot(exchange::span_width(span), row, spot(128, head - span.start, place))
}

/// What taking the first `count` ranks' rows to the device leaves.
proof fn fetching_flows(s: Share, world: World, block: Block, call: SharedCall, count: int)
    requires
        exchange::shares(world.shard, world.config, call.tokens),
        is_told(world, block, call),
        s.passed == 1,
        0 <= count <= world.shard.tokens@.len(),
    ensures
        ({
            let then = s.behind(
                world,
                exchange::for_peers(
                    world.shard,
                    count,
                    |peer: int| exchange::fetched_from(world.shard.tokens@[peer], world.config.hidden),
                ),
            );
            let hidden = world.config.hidden as int;
            &&& then == (Share { device: then.device, ..s })
            &&& forall|row: int, rank: int|
                0 <= rank < count && rank != world.shard.rank && (#[trigger] world.shard.tokens@[rank]).contains(row)
                    ==> #[trigger] then.row(hidden, row) == input_row(hidden, row)
            &&& forall|row: int|
                (forall|rank: int|
                    0 <= rank < count && rank != world.shard.rank ==> !(#[trigger] world.shard.tokens@[rank]).contains(
                        row,
                    )) ==> #[trigger] then.row(hidden, row) == s.row(hidden, row)
        }),
    decreases count,
{
    let hidden = world.config.hidden as int;
    let fetch = |peer: int| exchange::fetched_from(world.shard.tokens@[peer], world.config.hidden);
    if count > 0 {
        fetching_flows(s, world, block, call, count - 1);
        let before = exchange::for_peers(world.shard, count - 1, fetch);
        let made = s.behind(world, before);
        if count - 1 != world.shard.rank {
            let rows = world.shard.tokens@[count - 1];
            rows_have_bytes(world, rows, call.tokens);
            let list = fetch(count - 1);
            behind_both(s, world, before, list);
            behind_two(made, world, list[0], list[1]);
            assert(list =~= seq![list[0], list[1]]);
            let then = made.behind(world, list);
            assert forall|row: int| #[trigger] then.row(hidden, row) == (if rows.contains(row) {
                input_row(hidden, row)
            } else {
                made.row(hidden, row)
            }) by {
                let right = if rows.contains(row) {
                    input_row(hidden, row)
                } else {
                    made.row(hidden, row)
                };
                assert forall|byte: int| 0 <= byte < hidden implies (then.device)(
                    Region::Normalized,
                    spot(hidden, row, byte),
                ) == right[byte] by {
                    places_are_in_rows(hidden, rows, row, byte);
                    if world.shard.tokens@[count - 1].contains(row) {
                        assert((world.arrives)(1, Region::Normalized, spot(hidden, row, byte)) == Value::given(
                            ShareOp::Input { byte: spot(hidden, row, byte) },
                        ));
                    }
                }
                assert forall|byte: int| 0 <= byte < 4 implies (then.device)(Region::Scales, spot(4, row, byte))
                    == right[hidden + byte] by {
                    places_are_in_rows(4, rows, row, byte);
                    if world.shard.tokens@[count - 1].contains(row) {
                        assert((world.arrives)(1, Region::Scales, spot(4, row, byte)) == Value::given(
                            ShareOp::Scale { byte: spot(4, row, byte) },
                        ));
                    }
                }
                assert(then.row(hidden, row) =~= right);
            }
            assert forall|row: int, rank: int|
                0 <= rank < count && rank != world.shard.rank && (#[trigger] world.shard.tokens@[rank]).contains(
                    row,
                ) implies #[trigger] then.row(hidden, row) == input_row(hidden, row) by {
                if !rows.contains(row) {
                    assert(made.row(hidden, row) == input_row(hidden, row));
                }
            }
            assert forall|row: int|
                (forall|rank: int|
                    0 <= rank < count && rank != world.shard.rank ==> !(#[trigger] world.shard.tokens@[rank]).contains(
                        row,
                    )) implies #[trigger] then.row(hidden, row) == s.row(hidden, row) by {
                assert(!world.shard.tokens@[count - 1].contains(row));
                assert(made.row(hidden, row) == s.row(hidden, row));
            }
        }
    }
}

/// The parts of a place among rows.
proof fn a_spot_parts(pitch: int, row: int, at: int)
    requires
        0 <= at < pitch,
    ensures
        spot(pitch, row, at) / pitch == row,
        spot(pitch, row, at) % pitch == at,
        row >= 0 ==> spot(pitch, row, at) >= 0,
{
    places_part(pitch, row, at, 0, 0);
    assert(spot(pitch, 0, 0) == 0);
    if row >= 0 {
        assert(row * pitch >= 0) by (nonlinear_arith)
            requires
                row >= 0,
                pitch >= 0,
        ;
    }
}

/// The place of a head's value in a row of this rank's heads.
proof fn a_head_has_a_place(heads: Run, head: int, place: int)
    requires
        0 <= head < heads.size(),
        0 <= place < 128,
    ensures
        0 <= spot(128, head, place) < exchange::span_width(heads),
        spot(128, head, place) / 128 == head,
        spot(128, head, place) % 128 == place,
        heads.start * HEAD_DIM + spot(128, head, place) == spot(128, heads.start + head, place),
{
}

/// A value of one of q, k and v of a head, as it was projected.
proof fn a_head_is_projected(s: Share, world: World, block: Block, gated: bool, row: int, tensor: int, head: int, place: int)
    requires
        is_projected(s, world, block, gated, row),
        0 <= tensor < 3,
        0 <= head < world.own_heads().size(),
        0 <= place < 128,
    ensures
        ({
            let width = world.width();
            (s.device)(Region::Inputs, spot(3 * width, row, spot(width, tensor, spot(128, head, place)))) == product_of(
                block.qkv,
                world.config.hidden as int,
                Part::Qkv,
                spot(world.config.width() as int, tensor, spot(128, world.own_heads().start + head, place)),
                row,
            )
        }),
{
    a_head_has_a_place(world.own_heads(), head, place);
}

/// What normalizing and rotating q and k in place leaves of a head.
proof fn a_head_is_turned(s: Share, world: World, block: Block, call: SharedCall, row: int, tensor: int, head: int, place: int)
    requires
        call.attending(block) == Attending::Dense,
        0 <= row < call.tokens,
        is_projected(s, world, block, call.gated(block), row),
        0 <= tensor < 3,
        0 <= head < world.own_heads().size(),
        0 <= place < 128,
    ensures
        ({
            let width = world.width();
            let turn = ShardStep::QkNormRope {
                rows: call.tokens,
                heads: world.own_heads().size() as usize,
                pairs: call.pairs,
            };
            (s.after(world, turn).device)(
                Region::Inputs,
                spot(3 * width, row, spot(width, tensor, spot(128, head, place))),
            ) == head_value(block, world.config, call, tensor, world.own_heads().start + head, row, place)
        }),
{
    let width = world.width();
    let heads = world.own_heads();
    let at = spot(128, head, place);
    let inner = spot(width, tensor, at);
    let whole = spot(3 * width, row, inner);
    a_head_has_a_place(heads, head, place);
    a_place_has_a_tensor(width, tensor, at);
    a_spot_parts(width, tensor, at);
    a_spot_parts(3 * width, row, inner);
    a_place_is_inside(3 * width, call.tokens as int, row, inner);
    assert((0 * width) <= spot(width, tensor, at) < 0 * width + width <==> 0 == tensor);
    assert((1 * width) <= spot(width, tensor, at) < 1 * width + width <==> 1 == tensor);
    assert(inner < 2 * width <==> tensor < 2);
    a_head_is_projected(s, world, block, call.gated(block), row, tensor, head, place);
    let plain = |n: int|
        product_of(
            block.qkv,
            world.config.hidden as int,
            Part::Qkv,
            spot(world.config.width() as int, tensor, spot(128, heads.start + head, n)),
            row,
        );
    let read = Seq::new(128, |n: int| (s.device)(Region::Inputs, whole - at % 128 + n));
    let right = Seq::new(128, plain);
    assert forall|n: int| 0 <= n < 128 implies #[trigger] read[n] == right[n] by {
        a_head_is_projected(s, world, block, call.gated(block), row, tensor, head, n);
        assert(whole - at % 128 + n == spot(3 * width, row, spot(width, tensor, spot(128, head, n))));
    }
    assert(read =~= right);
}

/// What the attention of this rank's heads leaves.
proof fn attending_flows(s: Share, world: World, block: Block, call: SharedCall)
    requires
        exchange::shares(world.shard, world.config, call.tokens),
        forall|row: int|
            0 <= row < call.tokens ==> #[trigger] is_projected(s, world, block, call.gated(block), row),
    ensures
        ({
            let then = s.behind(world, exchange::attending_steps(block, world.shard, call));
            &&& then == (Share { device: then.device, prepared: then.prepared, busy: false, ..s })
            &&& forall|row: int, head: int, place: int|
                0 <= row < call.tokens && world.own_heads().contains(head) && 0 <= place < 128 ==> #[trigger] (then.device)(
                    Region::Attended,
                    span_spot(world.own_heads(), row, head, place),
                ) == attention_of(block, world.config, call, row, head, place)
        }),
{
    let steps = exchange::attending_steps(block, world.shard, call);
    let (width, heads, rows) = (world.width(), world.own_heads(), call.tokens as int);
    assert(steps =~= seq![steps[0], steps[1], steps[2]] + seq![steps[3], steps[4]]);
    behind_both(s, world, seq![steps[0], steps[1], steps[2]], seq![steps[3], steps[4]]);
    behind_three(s, world, steps[0], steps[1], steps[2]);
    let ready = s.after(world, steps[1]);
    let attended = ready.after(world, steps[2]);
    behind_two(attended, world, steps[3], steps[4]);
    let then = s.behind(world, steps);
    let dense = call.attending(block) == Attending::Dense;
    assert forall|head: int| 0 <= head < heads.size() implies #[trigger] ready.head(width, rows, head) == Seq::new(
        (rows * 384) as nat,
        |n: int| head_value(block, world.config, call, n % 384 / 128, heads.start + head, n / 384, n % 128),
    ) by {
        let right = Seq::new(
            (rows * 384) as nat,
            |n: int| head_value(block, world.config, call, n % 384 / 128, heads.start + head, n / 384, n % 128),
        );
        assert forall|n: int| 0 <= n < rows * 384 implies ready.head(width, rows, head)[n] == right[n] by {
            let (row, tensor, place) = (n / 384, n % 384 / 128, n % 128);
            assert(is_projected(s, world, block, call.gated(block), row));
            if dense {
                a_head_is_turned(s, world, block, call, row, tensor, head, place);
            } else {
                a_head_is_projected(s, world, block, call.gated(block), row, tensor, head, place);
            }
        }
        assert(ready.head(width, rows, head) =~= right);
    }
    assert forall|row: int, head: int, place: int|
        0 <= row < rows && heads.contains(head) && 0 <= place < 128 implies #[trigger] (then.device)(
        Region::Attended,
        span_spot(heads, row, head, place),
    ) == attention_of(block, world.config, call, row, head, place) by {
        let near = head - heads.start;
        let at = spot(128, near, place);
        a_head_has_a_place(heads, near, place);
        a_spot_parts(width, row, at);
        a_place_is_inside(width, call.tokens as int, row, at);
        let whole = span_spot(heads, row, head, place);
        assert(whole == spot(width, row, at));
        assert(whole / width == row && whole % width == at && at / 128 == near && at % 128 == place);
        assert(0 <= whole < rows * width);
        let own = Seq::new(
            (rows * 384) as nat,
            |n: int| head_value(block, world.config, call, n % 384 / 128, head, n / 384, n % 128),
        );
        let gates = Seq::new(
            (rows * 128) as nat,
            |n: int| product_of(block.gate, world.config.hidden as int, Part::Gate, spot(128, head, n % 128), n / 128),
        );
        assert(ready.head(width, rows, near) =~= own);
        let attending = call.attending(block);
        let source = if dense {
            Value::Made(ShareOp::Plain { rows: call.tokens }, own)
        } else {
            Value::Made(ShareOp::Prepared { attending, rows: call.tokens, pairs: call.pairs }, own)
        };
        if !dense {
            assert(s.head(width, rows, near) =~= ready.head(width, rows, near));
            assert((ready.prepared)(near) == source);
        }
        if attending == (Attending::Vsa { gated: true }) {
            assert forall|n: int| 0 <= n < rows * 128 implies ready.gates(width, rows, near)[n] == gates[n] by {
                assert(is_projected(s, world, block, call.gated(block), n / 128));
                a_head_has_a_place(heads, near, n % 128);
            }
            assert(ready.gates(width, rows, near) =~= gates);
        }
        let made = Value::Made(
            ShareOp::Attended { attending, rows: call.tokens, row, place },
            if attending == (Attending::Vsa { gated: true }) {
                seq![source] + gates
            } else {
                seq![source]
            },
        );
        assert((attended.device)(Region::Attended, whole) == made);
        assert(attention_of(block, world.config, call, row, head, place) == made);
    }
}

/// Whether this rank's heads of a peer's rows went to the peer after so many barriers.
pub open spec fn told_heads(s: Share, world: World, block: Block, call: SharedCall, passed: nat, peer: int) -> bool {
    let taken = world.shard.tokens@[peer];
    forall|row: int, head: int, place: int|
        0 <= row < taken.size() && world.own_heads().contains(head) && 0 <= place < 128 ==> #[trigger] (s.sent)(
            passed,
            peer as usize,
            Region::Received(world.shard.rank),
            span_spot(world.own_heads(), row, head, place),
        ) == attention_of(block, world.config, call, taken.start + row, head, place)
}

/// Whether the attention of this rank's heads stands in its region.
spec fn has_attended(s: Share, world: World, block: Block, call: SharedCall) -> bool {
    forall|row: int, head: int, place: int|
        0 <= row < call.tokens && world.own_heads().contains(head) && 0 <= place < 128 ==> #[trigger] (s.device)(
            Region::Attended,
            span_spot(world.own_heads(), row, head, place),
        ) == attention_of(block, world.config, call, row, head, place)
}

/// The bytes of rows of a run of heads are twice their values.
proof fn spans_have_bytes(world: World, rows: Run, span: Run, tokens: usize)
    requires
        exchange::shares(world.shard, world.config, tokens),
        rows.start <= rows.end <= tokens,
        span.start <= span.end <= world.config.heads,
    ensures
        ({
            let width = exchange::span_width(span);
            &&& 0 <= rows.start * (width * 2) <= usize::MAX
            &&& 0 <= rows.size() * (width * 2) <= usize::MAX
            &&& rows.start * (width * 2) / 2 == rows.start * width
            &&& rows.size() * (width * 2) / 2 == rows.size() * width
        }),
{
    let width = exchange::span_width(span);
    exchange::span_bytes(rows, span, world.config, tokens);
    assert(rows.start * (width * 2) == (rows.start * width) * 2) by (nonlinear_arith);
    assert(rows.size() * (width * 2) == (rows.size() * width) * 2) by (nonlinear_arith);
}

/// The place of a head's value in rows, from another row on.
proof fn a_span_spot_moves(span: Run, first: int, row: int, head: int, place: int)
    requires
        span.contains(head),
        0 <= place < 128,
    ensures
        first * exchange::span_width(span) + span_spot(span, row, head, place) == span_spot(span, first + row, head, place),
        0 <= spot(128, head - span.start, place) < exchange::span_width(span),
{
    let width = exchange::span_width(span);
    a_head_has_a_place(span, head - span.start, place);
    assert(first * width + row * width == (first + row) * width) by (nonlinear_arith);
}

/// What sending this rank's heads to the first `count` ranks leaves.
proof fn returning_flows(s: Share, world: World, block: Block, call: SharedCall, count: int)
    requires
        exchange::shares(world.shard, world.config, call.tokens),
        0 <= count <= world.shard.tokens@.len(),
        has_attended(s, world, block, call),
        !s.busy,
    ensures
        ({
            let then = s.behind(
                world,
                exchange::for_peers(world.shard, count, |peer: int| exchange::returned_to(world.shard, peer)),
            );
            &&& then == (Share { shown: then.shown, sent: then.sent, ..s })
            &&& forall|peer: int|
                0 <= peer < count && peer != world.shard.rank ==> #[trigger] told_heads(
                    then,
                    world,
                    block,
                    call,
                    s.passed,
                    peer,
                )
            &&& forall|passed: nat, peer: usize, region: Region, place: int|
                passed != s.passed ==> #[trigger] (then.sent)(passed, peer, region, place) == (s.sent)(
                    passed,
                    peer,
                    region,
                    place,
                )
        }),
    decreases count,
{
    let own = world.own_heads();
    let width = world.width();
    let give = |peer: int| exchange::returned_to(world.shard, peer);
    assert(world.shard.tokens.len() == world.shard.tokens@.len());
    if count > 0 {
        returning_flows(s, world, block, call, count - 1);
        let before = exchange::for_peers(world.shard, count - 1, give);
        let made = s.behind(world, before);
        if count - 1 != world.shard.rank {
            let taken = world.shard.tokens@[count - 1];
            spans_have_bytes(world, taken, own, call.tokens);
            let list = give(count - 1);
            behind_both(s, world, before, list);
            behind_two(made, world, list[0], list[1]);
            assert(list =~= seq![list[0], list[1]]);
            let then = made.behind(world, list);
            assert forall|peer: int| 0 <= peer < count && peer != world.shard.rank implies #[trigger] told_heads(
                then,
                world,
                block,
                call,
                s.passed,
                peer,
            ) by {
                if peer == count - 1 {
                    assert forall|row: int, head: int, place: int|
                        0 <= row < taken.size() && own.contains(head) && 0 <= place < 128 implies #[trigger] (then.sent)(
                        s.passed,
                        peer as usize,
                        Region::Received(world.shard.rank),
                        span_spot(own, row, head, place),
                    ) == attention_of(block, world.config, call, taken.start + row, head, place) by {
                        let at = spot(128, head - own.start, place);
                        a_span_spot_moves(own, taken.start as int, row, head, place);
                        a_place_is_inside(width, taken.size(), row, at);
                        places_are_in_rows(width, taken, taken.start + row, at);
                        assert((s.device)(Region::Attended, span_spot(own, taken.start + row, head, place))
                            == attention_of(block, world.config, call, taken.start + row, head, place));
                    }
                } else {
                    assert(told_heads(made, world, block, call, s.passed, peer));
                }
            }
        }
    }
}

/// Whether the heads of a rank of this rank's rows stand in the region they arrive in.
spec fn has_received(s: Share, world: World, block: Block, call: SharedCall, rank: int) -> bool {
    let (rows, span) = (world.own_rows(), world.shard.heads@[rank]);
    forall|row: int, head: int, place: int|
        0 <= row < rows.size() && span.contains(head) && 0 <= place < 128 ==> #[trigger] (s.device)(
            Region::Received(rank as usize),
            span_spot(span, row, head, place),
        ) == attention_of(block, world.config, call, rows.start + row, head, place)
}

/// What taking the heads of the first `count` ranks to the device leaves.
proof fn arriving_flows(s: Share, world: World, block: Block, call: SharedCall, count: int)
    requires
        exchange::shares(world.shard, world.config, call.tokens),
        is_told(world, block, call),
        s.passed == 3,
        0 <= count <= world.shard.tokens@.len(),
    ensures
        ({
            let then = s.behind(
                world,
                exchange::for_peers(world.shard, count, |peer: int| exchange::arrived_from(world.shard, peer)),
            );
            &&& then == (Share { device: then.device, ..s })
            &&& forall|rank: int|
                0 <= rank < count && rank != world.shard.rank ==> #[trigger] has_received(then, world, block, call, rank)
            &&& forall|place: int|
                #[trigger] (then.device)(Region::Attended, place) == (s.device)(Region::Attended, place)
        }),
    decreases count,
{
    let rows = world.own_rows();
    let take = |peer: int| exchange::arrived_from(world.shard, peer);
    assert(world.shard.tokens.len() == world.shard.tokens@.len());
    if count > 0 {
        arriving_flows(s, world, block, call, count - 1);
        let before = exchange::for_peers(world.shard, count - 1, take);
        let made = s.behind(world, before);
        if count - 1 != world.shard.rank {
            let span = world.shard.heads@[count - 1];
            let width = exchange::span_width(span);
            spans_have_bytes(world, rows, span, call.tokens);
            let list = take(count - 1);
            behind_both(s, world, before, list);
            behind_one(made, world, list[0]);
            assert(list =~= seq![list[0]]);
            let then = made.behind(world, list);
            assert forall|rank: int| 0 <= rank < count && rank != world.shard.rank implies #[trigger] has_received(
                then,
                world,
                block,
                call,
                rank,
            ) by {
                if rank == count - 1 {
                    assert forall|row: int, head: int, place: int|
                        0 <= row < rows.size() && span.contains(head) && 0 <= place < 128 implies #[trigger] (
                    then.device)(Region::Received(rank as usize), span_spot(span, row, head, place)) == attention_of(
                        block,
                        world.config,
                        call,
                        rows.start + row,
                        head,
                        place,
                    ) by {
                        let at = spot(128, head - span.start, place);
                        a_span_spot_moves(span, 0, row, head, place);
                        a_place_is_inside(width, rows.size(), row, at);
                        assert((world.arrives)(
                            3,
                            Region::Received(rank as usize),
                            span_spot(world.shard.heads@[rank], row, head, place),
                        ) == attention_of(block, world.config, call, rows.start + row, head, place));
                    }
                } else {
                    assert(has_received(made, world, block, call, rank));
                }
            }
        }
    }
}

/// What scattering the heads of the first `count` ranks leaves.
proof fn unpacking_flows(s: Share, world: World, block: Block, call: SharedCall, count: int)
    requires
        exchange::shares(world.shard, world.config, call.tokens),
        0 <= count <= world.shard.tokens@.len(),
        has_attended(s, world, block, call),
        forall|rank: int|
            0 <= rank < world.shard.tokens@.len() && rank != world.shard.rank ==> #[trigger] has_received(
                s,
                world,
                block,
                call,
                rank,
            ),
    ensures
        ({
            let then = s.behind(
                world,
                exchange::for_ranks(
                    count,
                    |peer: int| exchange::unpacked_from(world.shard, world.config.heads, peer),
                ),
            );
            &&& then == (Share { output: then.output, busy: then.busy, ..s })
            &&& forall|rank: int, row: int, head: int, place: int|
                0 <= rank < count && 0 <= row < world.own_rows().size() && (#[trigger] world.shard.heads@[rank]).contains(
                    head,
                ) && 0 <= place < 128 ==> #[trigger] (then.output)(row, head, place) == attention_of(
                    block,
                    world.config,
                    call,
                    world.own_rows().start + row,
                    head,
                    place,
                )
        }),
    decreases count,
{
    let rows = world.own_rows();
    let unpack = |peer: int| exchange::unpacked_from(world.shard, world.config.heads, peer);
    assert(world.shard.tokens.len() == world.shard.tokens@.len());
    if count > 0 {
        unpacking_flows(s, world, block, call, count - 1);
        let before = exchange::for_ranks(count - 1, unpack);
        let made = s.behind(world, before);
        let last = count - 1;
        let span = world.shard.heads@[last];
        let list = unpack(last);
        spans_have_bytes(world, rows, span, call.tokens);
        behind_both(s, world, before, list);
        if last == world.shard.rank {
            behind_one(made, world, list[0]);
            assert(list =~= seq![list[0]]);
        } else {
            behind_two(made, world, list[0], list[1]);
            assert(list =~= seq![list[0], list[1]]);
        }
        let then = made.behind(world, list);
        assert forall|rank: int, row: int, head: int, place: int|
            0 <= rank < count && 0 <= row < rows.size() && (#[trigger] world.shard.heads@[rank]).contains(head) && 0
                <= place < 128 implies #[trigger] (then.output)(row, head, place) == attention_of(
            block,
            world.config,
            call,
            rows.start + row,
            head,
            place,
        ) by {
            if span.contains(head) {
                if last == world.shard.rank {
                    a_span_spot_moves(span, rows.start as int, row, head, place);
                    assert((s.device)(Region::Attended, span_spot(span, rows.start + row, head, place)) == attention_of(
                        block,
                        world.config,
                        call,
                        rows.start + row,
                        head,
                        place,
                    ));
                } else {
                    assert(has_received(s, world, block, call, last));
                    assert((s.device)(Region::Received(last as usize), span_spot(span, row, head, place)) == attention_of(
                        block,
                        world.config,
                        call,
                        rows.start + row,
                        head,
                        place,
                    ));
                }
            } else {
                assert((made.output)(row, head, place) == attention_of(
                    block,
                    world.config,
                    call,
                    rows.start + row,
                    head,
                    place,
                ));
            }
        }
    }
}

/// Whether only what was sent after no barrier and after two is different.
spec fn sends_in_turn(s: Share, then: Share) -> bool {
    forall|passed: nat, peer: usize, region: Region, place: int|
        passed != 0 && passed != 2 ==> #[trigger] (then.sent)(passed, peer, region, place) == (s.sent)(
            passed,
            peer,
            region,
            place,
        )
}

/// What a rank holds once its own rows are projected and its peers have them.
proof fn own_rows_flow(s: Share, world: World, block: Block, call: SharedCall)
    requires
        exchange::shares(world.shard, world.config, call.tokens),
        exchange::own_plan(block, world.config, world.shard, call) is Ok,
        s.passed == 0,
    ensures
        ({
            let then = s.behind(world, exchange::own_plan(block, world.config, world.shard, call)->Ok_0).behind(
                world,
                exchange::sending(world.shard, world.config.hidden),
            );
            let ranks = world.shard.tokens@.len();
            &&& then.passed == 0
            &&& has_rows(then, world.config.hidden as int, world.own_rows())
            &&& forall|row: int|
                world.own_rows().contains(row) ==> #[trigger] is_projected(then, world, block, call.gated(block), row)
            &&& forall|peer: int|
                0 <= peer < ranks && peer != world.shard.rank ==> #[trigger] told_rows(then, world, 0, peer)
            &&& sends_in_turn(s, then)
        }),
{
    reveal(exchange::own_plan);
    reveal(exchange::sending);
    let (config, shard, own, rows) = (world.config, world.shard, world.own_heads(), world.own_rows());
    let hidden = config.hidden as int;
    let gated = call.gated(block);
    let publish = exchange::publishing(shard, config.hidden, call.tokens);
    let reserve = exchange::reserving(shard, call.tokens, gated);
    let project = exchange::inputs_plan(block, config, own, rows, gated)->Ok_0;
    let charge = seq![ShardStep::Charge(Phase::Attend)];
    let all = exchange::own_plan(block, config, shard, call)->Ok_0;
    assert(all =~= publish + (reserve + (project + charge)));
    behind_both(s, world, publish, reserve + (project + charge));
    publishing_flows(s, world, call.tokens);
    let shown = s.behind(world, publish);
    behind_both(shown, world, reserve, project + charge);
    if gated {
        assert(reserve =~= seq![reserve[0], reserve[1]]);
        behind_two(shown, world, reserve[0], reserve[1]);
    } else {
        assert(reserve =~= seq![reserve[0]]);
        behind_one(shown, world, reserve[0]);
    }
    assert(shown.behind(world, reserve) == shown);
    behind_both(shown, world, project, charge);
    inputs_flow(shown, world, block, rows, gated, call.tokens);
    let made = shown.behind(world, project);
    behind_one(made, world, charge[0]);
    rows_stay_most(shown, made, hidden);
    let send = exchange::for_peers(
        shard,
        shard.tokens@.len() as int,
        |peer: int| exchange::sent_to(rows, config.hidden, peer),
    );
    let read = ShardStep::Charge(Phase::Read);
    behind_both(made, world, send, seq![read]);
    sending_flows(made, world, call.tokens, shard.tokens@.len() as int);
    let sent = made.behind(world, send);
    behind_one(sent, world, read);
    assert forall|row: int| rows.contains(row) implies #[trigger] sent.row(hidden, row) == input_row(hidden, row) by {
        assert(shown.row(hidden, row) == input_row(hidden, row));
        assert(made.row(hidden, row) == shown.row(hidden, row));
        assert(sent.row(hidden, row) =~= made.row(hidden, row));
    }
    assert forall|row: int| rows.contains(row) implies #[trigger] is_projected(sent, world, block, gated, row) by {
        assert(is_projected(made, world, block, gated, row));
    }
}

/// What a rank holds once its peers' rows are there and are projected too.
proof fn peers_rows_flow(s: Share, world: World, block: Block, call: SharedCall)
    requires
        exchange::shares(world.shard, world.config, call.tokens),
        shard::is_partition(world.shard.tokens@, call.tokens as int),
        is_told(world, block, call),
        exchange::peers_plan(
            block,
            world.config,
            world.shard,
            call.gated(block),
            world.shard.tokens@.len() as int,
        ) is Ok,
        s.passed == 0,
        has_rows(s, world.config.hidden as int, world.own_rows()),
        forall|row: int|
            world.own_rows().contains(row) ==> #[trigger] is_projected(s, world, block, call.gated(block), row),
    ensures
        ({
            let then = s.behind(world, exchange::fetching(world.shard, world.config.hidden)).behind(
                world,
                exchange::peers_plan(
                    block,
                    world.config,
                    world.shard,
                    call.gated(block),
                    world.shard.tokens@.len() as int,
                )->Ok_0,
            );
            &&& then.passed == 2
            &&& then.sent == s.sent
            &&& forall|row: int|
                0 <= row < call.tokens ==> #[trigger] is_projected(then, world, block, call.gated(block), row)
        }),
{
    reveal(exchange::fetching);
    let (config, shard, width) = (world.config, world.shard, world.width());
    let hidden = config.hidden as int;
    let gated = call.gated(block);
    let ranks = shard.tokens@.len() as int;
    let head = seq![ShardStep::Barrier, ShardStep::Charge(Phase::Barrier)];
    let fetch = exchange::for_peers(
        shard,
        ranks,
        |peer: int| exchange::fetched_from(shard.tokens@[peer], config.hidden),
    );
    let tail = seq![ShardStep::Charge(Phase::Read), ShardStep::Barrier, ShardStep::Charge(Phase::Barrier)];
    let all = exchange::fetching(shard, config.hidden);
    assert(all =~= head + (fetch + tail));
    behind_both(s, world, head, fetch + tail);
    behind_two(s, world, head[0], head[1]);
    let met = s.behind(world, head);
    behind_both(met, world, fetch, tail);
    fetching_flows(met, world, block, call, ranks);
    let there = met.behind(world, fetch);
    behind_three(there, world, tail[0], tail[1], tail[2]);
    let ready = s.behind(world, all);
    assert(ready.device == there.device && ready.sent == s.sent && ready.passed == 2);
    assert forall|row: int| 0 <= row < call.tokens implies #[trigger] ready.row(hidden, row) == input_row(
        hidden,
        row,
    ) by {
        shard::a_partition_holds_each_place_once(shard.tokens@, call.tokens as int, row);
        let holder = choose|k: int| 0 <= k < ranks && #[trigger] shard.tokens@[k].contains(row);
        assert(ready.row(hidden, row) =~= there.row(hidden, row));
        if holder == shard.rank {
            assert forall|rank: int| 0 <= rank < ranks && rank != shard.rank implies !(#[trigger] shard.tokens@[rank]).contains(
                row,
            ) by {}
            assert(there.row(hidden, row) == met.row(hidden, row));
            assert(met.row(hidden, row) =~= s.row(hidden, row));
            assert(s.row(hidden, row) == input_row(hidden, row));
        } else {
            assert(shard.tokens@[holder].contains(row));
            assert(there.row(hidden, row) == input_row(hidden, row));
        }
    }
    the_fetched_keep(s, world);
    peers_flow(ready, world, block, gated, call.tokens, ranks);
    let then = ready.behind(world, exchange::peers_plan(block, config, shard, gated, ranks)->Ok_0);
    assert forall|row: int| 0 <= row < call.tokens implies #[trigger] is_projected(then, world, block, gated, row) by {
        shard::a_partition_holds_each_place_once(shard.tokens@, call.tokens as int, row);
        let holder = choose|k: int| 0 <= k < ranks && #[trigger] shard.tokens@[k].contains(row);
        if holder == shard.rank {
            assert forall|rank: int| 0 <= rank < ranks && rank != shard.rank implies !(#[trigger] shard.tokens@[rank]).contains(
                row,
            ) by {}
            assert(is_projected(s, world, block, gated, row));
            assert(same_row(ready, then, width, row));
            assert(is_projected(ready, world, block, gated, row));
            a_row_stays_projected(ready, then, world, block, gated, row);
        } else {
            assert(shard.tokens@[holder].contains(row));
        }
    }
}

/// Taking rows of the block input leaves the other regions as they were.
proof fn the_fetched_keep(s: Share, world: World)
    ensures
        ({
            let then = s.behind(world, exchange::fetching(world.shard, world.config.hidden));
            forall|region: Region, place: int|
                region != Region::Normalized && region != Region::Scales ==> #[trigger] (then.device)(region, place) == (
                s.device)(region, place)
        }),
{
    reveal(exchange::fetching);
    let fetch = |peer: int| exchange::fetched_from(world.shard.tokens@[peer], world.config.hidden);
    let head = seq![ShardStep::Barrier, ShardStep::Charge(Phase::Barrier)];
    let list = exchange::for_peers(world.shard, world.shard.tokens@.len() as int, fetch);
    let tail = seq![ShardStep::Charge(Phase::Read), ShardStep::Barrier, ShardStep::Charge(Phase::Barrier)];
    assert(exchange::fetching(world.shard, world.config.hidden) =~= head + (list + tail));
    behind_both(s, world, head, list + tail);
    behind_two(s, world, head[0], head[1]);
    let met = s.behind(world, head);
    behind_both(met, world, list, tail);
    receives_keep(met, world, world.shard.tokens@.len() as int);
    let there = met.behind(world, list);
    behind_three(there, world, tail[0], tail[1], tail[2]);
}

proof fn receives_keep(s: Share, world: World, count: int)
    requires
        0 <= count,
    ensures
        ({
            let fetch = |peer: int| exchange::fetched_from(world.shard.tokens@[peer], world.config.hidden);
            let then = s.behind(world, exchange::for_peers(world.shard, count, fetch));
            forall|region: Region, place: int|
                region != Region::Normalized && region != Region::Scales ==> #[trigger] (then.device)(region, place) == (
                s.device)(region, place)
        }),
    decreases count,
{
    let fetch = |peer: int| exchange::fetched_from(world.shard.tokens@[peer], world.config.hidden);
    if count > 0 {
        receives_keep(s, world, count - 1);
        let before = exchange::for_peers(world.shard, count - 1, fetch);
        if count - 1 != world.shard.rank {
            let list = fetch(count - 1);
            behind_both(s, world, before, list);
            let made = s.behind(world, before);
            behind_two(made, world, list[0], list[1]);
            assert(list =~= seq![list[0], list[1]]);
        }
    }
}

/// What a rank holds once its rows have every head's attention.
proof fn heads_flow(s: Share, world: World, block: Block, call: SharedCall)
    requires
        exchange::shares(world.shard, world.config, call.tokens),
        is_told(world, block, call),
        exchange::attended_plan(block, world.config, world.shard, call) is Ok,
        s.passed == 2,
        forall|row: int|
            0 <= row < call.tokens ==> #[trigger] is_projected(s, world, block, call.gated(block), row),
    ensures
        ({
            let then = s.behind(world, exchange::attended_plan(block, world.config, world.shard, call)->Ok_0);
            let ranks = world.shard.tokens@.len();
            &&& then.passed == 4
            &&& forall|peer: int|
                0 <= peer < ranks && peer != world.shard.rank ==> #[trigger] told_heads(then, world, block, call, 2, peer)
            &&& forall|passed: nat, peer: usize, region: Region, place: int|
                passed != 2 ==> #[trigger] (then.sent)(passed, peer, region, place) == (s.sent)(
                    passed,
                    peer,
                    region,
                    place,
                )
            &&& forall|rank: int, row: int, head: int, place: int|
                0 <= rank < ranks && 0 <= row < world.own_rows().size() && (#[trigger] world.shard.heads@[rank]).contains(
                    head,
                ) && 0 <= place < 128 ==> #[trigger] (then.output)(row, head, place) == attention_of(
                    block,
                    world.config,
                    call,
                    world.own_rows().start + row,
                    head,
                    place,
                )
        }),
{
    reveal(exchange::attended_plan);
    reveal(exchange::returning);
    let (config, shard) = (world.config, world.shard);
    let ranks = shard.tokens@.len() as int;
    let attend = exchange::attending_steps(block, shard, call);
    let back = exchange::returning(shard, config, call.tokens);
    behind_both(s, world, attend, back);
    attending_flows(s, world, block, call);
    let attended = s.behind(world, attend);
    let head = seq![back[0], back[1]];
    let give = exchange::for_peers(shard, ranks, |peer: int| exchange::returned_to(shard, peer));
    let meet = seq![ShardStep::Charge(Phase::Read), ShardStep::Barrier, ShardStep::Charge(Phase::Barrier)];
    let take = exchange::for_peers(shard, ranks, |peer: int| exchange::arrived_from(shard, peer));
    let scatter = exchange::for_ranks(ranks, |peer: int| exchange::unpacked_from(shard, config.heads, peer));
    let last = ShardStep::Charge(Phase::Gather);
    assert(back =~= head + (give + (meet + (take + (meet + (scatter + seq![last]))))));
    behind_both(attended, world, head, give + (meet + (take + (meet + (scatter + seq![last])))));
    behind_two(attended, world, back[0], back[1]);
    assert(attended.behind(world, head) == attended);
    behind_both(attended, world, give, meet + (take + (meet + (scatter + seq![last]))));
    returning_flows(attended, world, block, call, ranks);
    let given = attended.behind(world, give);
    behind_both(given, world, meet, take + (meet + (scatter + seq![last])));
    behind_three(given, world, meet[0], meet[1], meet[2]);
    let met = given.behind(world, meet);
    behind_both(met, world, take, meet + (scatter + seq![last]));
    arriving_flows(met, world, block, call, ranks);
    let taken = met.behind(world, take);
    behind_both(taken, world, meet, scatter + seq![last]);
    behind_three(taken, world, meet[0], meet[1], meet[2]);
    let free = taken.behind(world, meet);
    behind_both(free, world, scatter, seq![last]);
    assert forall|rank: int| 0 <= rank < ranks && rank != shard.rank implies #[trigger] has_received(
        free,
        world,
        block,
        call,
        rank,
    ) by {
        assert(has_received(taken, world, block, call, rank));
    }
    assert(has_attended(free, world, block, call));
    unpacking_flows(free, world, block, call, ranks);
    let whole = free.behind(world, scatter);
    behind_one(whole, world, last);
    assert forall|peer: int| 0 <= peer < ranks && peer != shard.rank implies #[trigger] told_heads(
        whole,
        world,
        block,
        call,
        2,
        peer,
    ) by {
        assert(told_heads(given, world, block, call, 2, peer));
    }
}

/// A rank of a shared-out block ends with every head's attention of its own rows, the very attention that one machine
/// computes from the whole block input: it sends its rows before the first barrier and its heads before the third, both
/// once the device is done with them, reads what arrived between the barriers that follow, and sends nothing while its
/// peers read.
pub proof fn a_shared_attention_is_the_whole_attention(s: Share, world: World, block: Block, call: SharedCall)
    requires
        exchange::shares(world.shard, world.config, call.tokens),
        shard::is_partition(world.shard.tokens@, call.tokens as int),
        shard::is_partition(world.shard.heads@, world.config.heads as int),
        is_told(world, block, call),
        exchange::shared_plan(block, world.config, world.shard, call) is Ok,
        s.passed == 0,
    ensures
        ({
            let then = s.behind(world, exchange::shared_plan(block, world.config, world.shard, call)->Ok_0);
            let ranks = world.shard.tokens@.len();
            &&& then.passed == 4
            &&& forall|row: int, head: int, place: int|
                0 <= row < world.own_rows().size() && 0 <= head < world.config.heads && 0 <= place < 128
                    ==> #[trigger] (then.output)(row, head, place) == attention_of(
                    block,
                    world.config,
                    call,
                    world.own_rows().start + row,
                    head,
                    place,
                )
            &&& forall|peer: int|
                0 <= peer < ranks && peer != world.shard.rank ==> #[trigger] told_rows(then, world, 0, peer)
            &&& forall|peer: int|
                0 <= peer < ranks && peer != world.shard.rank ==> #[trigger] told_heads(then, world, block, call, 2, peer)
            &&& forall|passed: nat, peer: usize, region: Region, place: int|
                passed != 0 && passed != 2 ==> #[trigger] (then.sent)(passed, peer, region, place) == (s.sent)(
                    passed,
                    peer,
                    region,
                    place,
                )
        }),
{
    let (config, shard) = (world.config, world.shard);
    let ranks = shard.tokens@.len() as int;
    let own = exchange::own_plan(block, config, shard, call)->Ok_0;
    let send = exchange::sending(shard, config.hidden);
    let fetch = exchange::fetching(shard, config.hidden);
    let peers = exchange::peers_plan(block, config, shard, call.gated(block), ranks)->Ok_0;
    let attend = exchange::attended_plan(block, config, shard, call)->Ok_0;
    let all = exchange::shared_plan(block, config, shard, call)->Ok_0;
    assert(all =~= own + (send + (fetch + (peers + attend))));
    behind_both(s, world, own, send + (fetch + (peers + attend)));
    let made = s.behind(world, own);
    behind_both(made, world, send, fetch + (peers + attend));
    own_rows_flow(s, world, block, call);
    let sent = made.behind(world, send);
    behind_both(sent, world, fetch, peers + attend);
    let fetched = sent.behind(world, fetch);
    behind_both(fetched, world, peers, attend);
    peers_rows_flow(sent, world, block, call);
    let ready = fetched.behind(world, peers);
    heads_flow(ready, world, block, call);
    let then = ready.behind(world, attend);
    assert forall|peer: int| 0 <= peer < ranks && peer != shard.rank implies #[trigger] told_rows(
        then,
        world,
        0,
        peer,
    ) by {
        assert(told_rows(sent, world, 0, peer));
    }
    assert forall|row: int, head: int, place: int|
        0 <= row < world.own_rows().size() && 0 <= head < config.heads && 0 <= place < 128 implies #[trigger] (
    then.output)(row, head, place) == attention_of(block, config, call, world.own_rows().start + row, head, place) by {
        shard::a_partition_holds_each_place_once(shard.heads@, config.heads as int, head);
        let holder = choose|k: int| 0 <= k < ranks && #[trigger] shard.heads@[k].contains(head);
        assert(shard.heads@[holder].contains(head));
    }
}

} // verus!
