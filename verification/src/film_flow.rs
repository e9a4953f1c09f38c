//! What the actions of a decode leave in each frame of the output, as a formula of the latent's chunks.
use crate::shard::Run;
use crate::vae;
use crate::vae::{DecodeStep, Decoding, TemporalPlan, TileGrid, VideoDecoderConfig};
use crate::value::Value;
use vstd::prelude::*;

verus! {

/// The operations of a decode.
pub enum FilmOp {
    /// The latent rows of a chunk from a latent frame on.
    Rows { first_frame: usize },
    /// The tiles that the decoder makes of rows.
    Decoded,
    /// The tiles blended into a canvas.
    Blended,
    /// A frame of a canvas.
    Frame { index: int },
    /// A frame faded into another, at its place among so many.
    Faded { place: int, count: nat },
}

/// What is held of frames.
pub type Held = Value<FilmOp>;

/// What a decode holds.
pub struct Film {
    pub rows: Held,
    pub tiles: Held,
    pub canvas: Held,
    /// The tiles whose first one was taken.
    pub taken: Seq<Held>,
    /// The frames kept of the chunk before.
    pub kept: Seq<Held>,
    pub output: Seq<Held>,
}

impl Film {
    /// What is held behind an action. A write past the end of the output leaves out what is past it.
    pub open spec fn after(self, step: DecodeStep) -> Film {
        match step {
            DecodeStep::Upload { first_frame } => Film { rows: Value::given(FilmOp::Rows { first_frame }), ..self },
            DecodeStep::Tiles => Film { tiles: Value::of(FilmOp::Decoded, self.rows), ..self },
            DecodeStep::FirstTile => Film { taken: self.taken.push(self.tiles), ..self },
            DecodeStep::Blend => Film { canvas: Value::of(FilmOp::Blended, self.tiles), ..self },
            DecodeStep::Write { first, count, blend, position } => Film {
                output: Seq::new(
                    self.output.len(),
                    |frame: int|
                        {
                            let place = frame - position;
                            let shown = Value::of(FilmOp::Frame { index: first + place }, self.canvas);
                            if !(0 <= place < count) {
                                self.output[frame]
                            } else if blend && place < self.kept.len() {
                                Value::of_both(
                                    FilmOp::Faded { place, count: self.kept.len() },
                                    self.kept[place],
                                    shown,
                                )
                            } else {
                                shown
                            }
                        },
                ),
                ..self
            },
            DecodeStep::Keep { first, count } => Film {
                kept: Seq::new(
                    count as nat,
                    |place: int| Value::of(FilmOp::Frame { index: first + place }, self.canvas),
                ),
                ..self
            },
        }
    }

    /// What is held behind actions.
    pub open spec fn behind(self, steps: Seq<DecodeStep>) -> Film
        decreases steps.len(),
    {
        if steps.len() == 0 {
            self
        } else {
            self.behind(steps.drop_last()).after(steps.last())
        }
    }
}

/// A frame of the chunk that starts at a latent frame.
pub open spec fn picture(first_frame: usize, index: int) -> Held {
    Value::of(
        FilmOp::Frame { index },
        Value::of(FilmOp::Blended, Value::of(FilmOp::Decoded, Value::given(FilmOp::Rows { first_frame }))),
    )
}

/// A frame of the output. Each chunk shows 17 of its frames, behind the first 3, and the first 5 of those are
/// faded in from the last 5 frames of the chunk before. Behind the last chunk come its own last 5 frames.
pub open spec fn frame_of(runs: Seq<Run>, frame: int) -> Held {
    let last = runs.len() - 1;
    let chunk = if frame / 17 < last {
        frame / 17
    } else {
        last
    };
    let place = frame - chunk * 17;
    if place >= 17 {
        picture(runs[chunk].start, 23 + (place - 17))
    } else if chunk > 0 && place < 5 {
        Value::of_both(
            FilmOp::Faded { place, count: 5 },
            picture(runs[chunk - 1].start, 23 + place),
            picture(runs[chunk].start, 3 + place),
        )
    } else {
        picture(runs[chunk].start, 3 + place)
    }
}

proof fn behind_both(film: Film, one: Seq<DecodeStep>, other: Seq<DecodeStep>)
    ensures
        film.behind(one + other) == film.behind(one).behind(other),
    decreases other.len(),
{
    if other.len() == 0 {
        assert(one + other =~= one);
    } else {
        behind_both(film, one, other.drop_last());
        assert((one + other).drop_last() =~= one + other.drop_last());
    }
}

proof fn behind_one(film: Film, one: DecodeStep)
    ensures
        film.behind(seq![one]) == film.after(one),
{
    reveal_with_fuel(Film::behind, 2);
    assert(seq![one].drop_last() =~= Seq::empty());
}

proof fn behind_two(film: Film, one: DecodeStep, two: DecodeStep)
    ensures
        film.behind(seq![one, two]) == film.after(one).after(two),
{
    behind_one(film, one);
    assert(seq![one, two].drop_last() =~= seq![one]);
}

proof fn behind_three(film: Film, one: DecodeStep, two: DecodeStep, three: DecodeStep)
    ensures
        film.behind(seq![one, two, three]) == film.after(one).after(two).after(three),
{
    behind_two(film, one, two);
    assert(seq![one, two, three].drop_last() =~= seq![one, two]);
}

/// The actions of a chunk up to its canvas.
proof fn a_canvas_is_made(film: Film, first_frame: usize, capture: bool)
    ensures
        ({
            let taken: Seq<DecodeStep> = if capture {
                seq![DecodeStep::FirstTile]
            } else {
                Seq::empty()
            };
            let tiles = Value::of(FilmOp::Decoded, Value::given(FilmOp::Rows { first_frame }));
            let then = film.behind(seq![DecodeStep::Upload { first_frame }, DecodeStep::Tiles] + taken);
            &&& then.tiles == tiles
            &&& then.taken == (if capture {
                film.taken.push(tiles)
            } else {
                film.taken
            })
            &&& then.kept == film.kept
            &&& then.output == film.output
        }),
{
    let taken: Seq<DecodeStep> = if capture {
        seq![DecodeStep::FirstTile]
    } else {
        Seq::empty()
    };
    let head = seq![DecodeStep::Upload { first_frame }, DecodeStep::Tiles];
    behind_both(film, head, taken);
    behind_two(film, head[0], head[1]);
    if capture {
        behind_one(film.behind(head), DecodeStep::FirstTile);
    }
}

/// What is held behind the first `count` chunks.
spec fn is_reached(film: Film, runs: Seq<Run>, output_frames: usize, count: int) -> bool {
    &&& film.output.len() == output_frames
    &&& forall|frame: int|
        0 <= frame < output_frames && (frame < count * 17 || (count == runs.len() && frame < count * 17 + 5))
            ==> #[trigger] film.output[frame] == frame_of(runs, frame)
    &&& 0 < count < runs.len() ==> film.kept == Seq::new(
        5,
        |place: int| picture(runs[count - 1].start, 23 + place),
    )
}

proof fn a_chunk_flows(film: Film, runs: Seq<Run>, output_frames: usize, capture: bool, chunk: int)
    requires
        0 <= chunk < runs.len(),
        runs.len() * 17 <= usize::MAX,
        is_reached(film, runs, output_frames, chunk),
    ensures
        ({
            let then = film.behind(
                vae::chunk_steps(runs[chunk].start, chunk, runs.len() as int, output_frames, capture),
            );
            &&& is_reached(then, runs, output_frames, chunk + 1)
            &&& then.taken == (if capture && chunk == 0 {
                film.taken.push(Value::of(FilmOp::Decoded, Value::given(FilmOp::Rows { first_frame: runs[0].start })))
            } else {
                film.taken
            })
        }),
{
    let first_frame = runs[chunk].start;
    let steps = vae::chunk_steps(first_frame, chunk, runs.len() as int, output_frames, capture);
    let caught: Seq<DecodeStep> = if capture && chunk == 0 {
        seq![DecodeStep::FirstTile]
    } else {
        Seq::empty()
    };
    let head = seq![DecodeStep::Upload { first_frame }, DecodeStep::Tiles] + caught;
    let (one, two, three) = (steps[steps.len() - 3], steps[steps.len() - 2], steps[steps.len() - 1]);
    assert(steps =~= head + seq![one, two, three]);
    behind_both(film, head, seq![one, two, three]);
    a_canvas_is_made(film, first_frame, capture && chunk == 0);
    let made = film.behind(head);
    behind_three(made, one, two, three);
    let then = film.behind(steps);
    assert(0 <= chunk * 17 && (chunk + 1) * 17 <= usize::MAX);
    assert forall|frame: int|
        0 <= frame < output_frames && (frame < (chunk + 1) * 17 || (chunk + 1 == runs.len() && frame < (chunk + 1) * 17
            + 5)) implies #[trigger] then.output[frame] == frame_of(runs, frame) by {
        if frame < chunk * 17 {
            assert(film.output[frame] == frame_of(runs, frame));
        }
    }
    if chunk + 1 < runs.len() {
        assert(then.kept =~= Seq::new(5, |place: int| picture(runs[chunk].start, 23 + place)));
    }
}

proof fn chunks_flow(film: Film, runs: Seq<Run>, output_frames: usize, capture: bool, count: int)
    requires
        0 <= count <= runs.len(),
        runs.len() > 0,
        runs.len() * 17 <= usize::MAX,
        film.output.len() == output_frames,
    ensures
        ({
            let then = film.behind(vae::chunks_steps(runs, output_frames, capture, count));
            &&& is_reached(then, runs, output_frames, count)
            &&& then.taken == (if capture && count > 0 {
                film.taken.push(Value::of(FilmOp::Decoded, Value::given(FilmOp::Rows { first_frame: runs[0].start })))
            } else {
                film.taken
            })
        }),
    decreases count,
{
    if count > 0 {
        chunks_flow(film, runs, output_frames, capture, count - 1);
        let before = vae::chunks_steps(runs, output_frames, capture, count - 1);
        let steps = vae::chunk_steps(
            runs[count - 1].start,
            count - 1,
            runs.len() as int,
            output_frames,
            capture,
        );
        behind_both(film, before, steps);
        a_chunk_flows(film.behind(before), runs, output_frames, capture, count - 1);
    }
}

/// Every frame that a decode owes holds the frame of its own chunk, faded in from the chunk before where the two
/// overlap, and a single latent frame gives its last frame. What is captured is the first chunk's tiles.
pub proof fn a_latent_becomes_its_frames(
    film: Film,
    config: VideoDecoderConfig,
    shape: Seq<usize>,
    plan: TemporalPlan,
    grid: TileGrid,
    capture: bool,
    decoding: Decoding,
    frame: int,
)
    requires
        vae::is_decoding(config, shape, plan, grid, capture, decoding),
        film.output.len() == decoding.output_frames,
        shape[1] != 1 ==> plan.chunks@.len() > 0 && plan.chunks@.len() * 17 <= usize::MAX && plan.frames
            <= plan.chunks@.len() * 17 + 5,
        0 <= frame < decoding.output_frames,
    ensures
        ({
            let then = film.behind(decoding.steps@);
            let first = if shape[1] == 1 {
                0usize
            } else {
                plan.chunks@[0].start
            };
            &&& then.output.len() == decoding.output_frames
            &&& then.output[frame] == (if shape[1] == 1 {
                picture(0, 3)
            } else {
                frame_of(plan.chunks@, frame)
            })
            &&& then.taken == (if capture {
                film.taken.push(Value::of(FilmOp::Decoded, Value::given(FilmOp::Rows { first_frame: first })))
            } else {
                film.taken
            })
        }),
{
    if shape[1] == 1 {
        let caught: Seq<DecodeStep> = if capture {
            seq![DecodeStep::FirstTile]
        } else {
            Seq::empty()
        };
        let head = seq![DecodeStep::Upload { first_frame: 0 }, DecodeStep::Tiles] + caught;
        let one = DecodeStep::Blend;
        let two = DecodeStep::Write { first: 3, count: 1, blend: false, position: 0 };
        assert(decoding.steps@ =~= head + seq![one, two]);
        behind_both(film, head, seq![one, two]);
        a_canvas_is_made(film, 0, capture);
        behind_two(film.behind(head), one, two);
    } else {
        chunks_flow(film, plan.chunks@, plan.frames, capture, plan.chunks@.len() as int);
    }
}

} // verus!
