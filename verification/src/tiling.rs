//! The tiles an input of the video encoder is read in, and the moments of a latent frame among those of a tile.
use crate::arithmetic;
use crate::vae::TileAxis;
use crate::video_encoder::{Encoding, LATENT_CHANNELS, SPATIAL_RATIO};
use vstd::prelude::*;

verus! {

/// Where in the input a tile is read: its first frame and its first pixel.
#[derive(Clone, Copy, Debug, PartialEq, Eq, Structural)]
pub struct TileInput {
    pub first_frame: usize,
    pub top: usize,
    pub left: usize,
}

/// The place of a tile among those of all groups: group by group, row by row, column by column.
pub open spec fn tile_place(clip: int, row: int, column: int, rows: int, columns: int) -> int {
    (clip * rows + row) * columns + column
}

/// Whether every tile of the groups whose place is in the list is there.
spec fn are_tiles(
    list: Seq<TileInput>,
    clip_frames: int,
    clips: int,
    rows: Seq<usize>,
    columns: Seq<usize>,
) -> bool {
    forall|clip: int, row: int, column: int|
        0 <= clip < clips && 0 <= row < rows.len() && 0 <= column < columns.len() && #[trigger] tile_place(
            clip,
            row,
            column,
            rows.len() as int,
            columns.len() as int,
        ) < list.len() ==> {
            let tile = list[tile_place(clip, row, column, rows.len() as int, columns.len() as int)];
            &&& tile.first_frame == clip * clip_frames
            &&& tile.top == rows[row]
            &&& tile.left == columns[column]
        }
}

/// The values of one latent frame among the moments of a tile: two for each channel of each latent pixel.
pub open spec fn frame_moments(height: int, width: int) -> int {
    (height / SPATIAL_RATIO as int) * (width / SPATIAL_RATIO as int) * 2 * LATENT_CHANNELS
}

proof fn places_are_apart(
    clip: int,
    row: int,
    column: int,
    other_clip: int,
    other_row: int,
    other_column: int,
    rows: int,
    columns: int,
)
    requires
        0 <= row < rows,
        0 <= other_row < rows,
        0 <= column < columns,
        0 <= other_column < columns,
        tile_place(clip, row, column, rows, columns) == tile_place(other_clip, other_row, other_column, rows, columns),
    ensures
        clip == other_clip,
        row == other_row,
        column == other_column,
{
    let lines = clip * rows + row;
    let other_lines = other_clip * rows + other_row;
    let place = lines * columns + column;
    vstd::arithmetic::div_mod::lemma_fundamental_div_mod_converse(place, columns, lines, column);
    vstd::arithmetic::div_mod::lemma_fundamental_div_mod_converse(place, columns, other_lines, other_column);
    vstd::arithmetic::div_mod::lemma_fundamental_div_mod_converse(lines, rows, clip, row);
    vstd::arithmetic::div_mod::lemma_fundamental_div_mod_converse(lines, rows, other_clip, other_row);
}

proof fn one_tile_more(
    list: Seq<TileInput>,
    tile: TileInput,
    clip: int,
    row: int,
    column: int,
    clip_frames: int,
    clips: int,
    rows: Seq<usize>,
    columns: Seq<usize>,
)
    requires
        0 <= clip < clips,
        0 <= row < rows.len(),
        0 <= column < columns.len(),
        list.len() == tile_place(clip, row, column, rows.len() as int, columns.len() as int),
        are_tiles(list, clip_frames, clips, rows, columns),
        tile.first_frame == clip * clip_frames,
        tile.top == rows[row],
        tile.left == columns[column],
    ensures
        are_tiles(list.push(tile), clip_frames, clips, rows, columns),
{
    let (height, width) = (rows.len() as int, columns.len() as int);
    assert forall|other: int, line: int, place: int|
        0 <= other < clips && 0 <= line < height && 0 <= place < width && #[trigger] tile_place(
            other,
            line,
            place,
            height,
            width,
        ) < list.len() + 1 implies {
        let found = list.push(tile)[tile_place(other, line, place, height, width)];
        &&& found.first_frame == other * clip_frames
        &&& found.top == rows[line]
        &&& found.left == columns[place]
    } by {
        let number = tile_place(other, line, place, height, width);
        vstd::arithmetic::mul::lemma_mul_nonnegative(other, height);
        vstd::arithmetic::mul::lemma_mul_nonnegative(other * height + line, width);
        if number == list.len() {
            places_are_apart(other, line, place, clip, row, column, height, width);
        }
    }
}

proof fn the_last_place(clip: int, row: int, rows: int, columns: int)
    ensures
        tile_place(clip, row, columns, rows, columns) == tile_place(clip, row + 1, 0, rows, columns),
        tile_place(clip, rows, 0, rows, columns) == tile_place(clip + 1, 0, 0, rows, columns),
{
    assert((clip * rows + row) * columns + columns == (clip * rows + (row + 1)) * columns) by (nonlinear_arith);
    assert(clip * rows + rows == (clip + 1) * rows) by (nonlinear_arith);
}

proof fn a_place_is_inside(clip: int, row: int, column: int, clips: int, rows: int, columns: int)
    requires
        0 <= clip < clips,
        0 <= row < rows,
        0 <= column < columns,
    ensures
        0 <= tile_place(clip, row, column, rows, columns) < clips * rows * columns,
{
    arithmetic::nested_is_inside(clip, clips, row, rows);
    arithmetic::nested_is_inside(clip * rows + row, clips * rows, column, columns);
}

impl Encoding {
    /// The tiles of the input, which the rows and the columns of its tiles cross in: those of one group behind those of
    /// the group before it, row by row.
    pub fn tiles(&self, rows: &TileAxis, columns: &TileAxis) -> (list: Vec<TileInput>)
        requires
            self.clips > 0 ==> (self.clips - 1) * self.clip_frames <= usize::MAX,
        ensures
            list@.len() == self.clips * rows.starts@.len() * columns.starts@.len(),
            forall|clip: int, row: int, column: int|
                0 <= clip < self.clips && 0 <= row < rows.starts@.len() && 0 <= column < columns.starts@.len() ==> {
                    let tile = list@[#[trigger] tile_place(
                        clip,
                        row,
                        column,
                        rows.starts@.len() as int,
                        columns.starts@.len() as int,
                    )];
                    &&& tile.first_frame == clip * self.clip_frames
                    &&& tile.top == rows.starts@[row]
                    &&& tile.left == columns.starts@[column]
                },
    {
        let mut list: Vec<TileInput> = Vec::new();
        let ghost frames = self.clip_frames as int;
        let ghost clips = self.clips as int;
        let ghost height = rows.starts@.len() as int;
        let ghost width = columns.starts@.len() as int;
        proof {
            assert(tile_place(0, 0, 0, height, width) == 0) by (nonlinear_arith);
            assert forall|clip: int, row: int, column: int|
                0 <= clip < clips && 0 <= row < height && 0 <= column < width implies #[trigger] tile_place(
                clip,
                row,
                column,
                height,
                width,
            ) >= 0 by {
                a_place_is_inside(clip, row, column, clips, height, width);
            }
        }
        for clip in 0..self.clips
            invariant
                self.clips > 0 ==> (self.clips - 1) * self.clip_frames <= usize::MAX,
                frames == self.clip_frames,
                clips == self.clips,
                height == rows.starts@.len(),
                width == columns.starts@.len(),
                list@.len() == tile_place(clip as int, 0, 0, height, width),
                are_tiles(list@, frames, clips, rows.starts@, columns.starts@),
        {
            proof {
                arithmetic::products_grow(clip as int, frames, clips - 1, frames);
            }
            let first_frame: usize = clip * self.clip_frames;
            for row in 0..rows.starts.len()
                invariant
                    clip < clips,
                    first_frame == clip * frames,
                    height == rows.starts@.len(),
                    width == columns.starts@.len(),
                    list@.len() == tile_place(clip as int, row as int, 0, height, width),
                    are_tiles(list@, frames, clips, rows.starts@, columns.starts@),
            {
                for column in 0..columns.starts.len()
                    invariant
                        clip < clips,
                        row < height,
                        first_frame == clip * frames,
                        height == rows.starts@.len(),
                        width == columns.starts@.len(),
                        list@.len() == tile_place(clip as int, row as int, column as int, height, width),
                        are_tiles(list@, frames, clips, rows.starts@, columns.starts@),
                {
                    let tile = TileInput { first_frame, top: rows.starts[row], left: columns.starts[column] };
                    proof {
                        one_tile_more(
                            list@,
                            tile,
                            clip as int,
                            row as int,
                            column as int,
                            frames,
                            clips,
                            rows.starts@,
                            columns.starts@,
                        );
                    }
                    list.push(tile);
                }
                proof {
                    the_last_place(clip as int, row as int, height, width);
                }
            }
            proof {
                the_last_place(clip as int, 0, height, width);
            }
        }
        proof {
            assert(tile_place(clips, 0, 0, height, width) == clips * height * width);
            assert forall|clip: int, row: int, column: int|
                0 <= clip < clips && 0 <= row < height && 0 <= column < width implies #[trigger] tile_place(
                clip,
                row,
                column,
                height,
                width,
            ) < list@.len() by {
                a_place_is_inside(clip, row, column, clips, height, width);
            }
        }
        list
    }

    /// The number of the latent frame that a group gives as its `token`th.
    pub fn latent_frame(&self, clip: usize, token: usize) -> (frame: usize)
        requires
            clip * self.tokens + token <= usize::MAX,
        ensures
            frame == clip * self.tokens + token,
    {
        proof {
            vstd::arithmetic::mul::lemma_mul_nonnegative(clip as int, self.tokens as int);
        }
        clip * self.tokens + token
    }
}

/// The moments of one latent frame of a tile of `height` and `width` pixels.
pub fn token_moments<T>(tile: &[T], height: usize, width: usize, token: usize) -> (moments: &[T])
    requires
        (token + 1) * frame_moments(height as int, width as int) <= tile@.len(),
    ensures
        moments@ == tile@.subrange(
            token * frame_moments(height as int, width as int),
            (token + 1) * frame_moments(height as int, width as int),
        ),
{
    let count: usize = tile.len();
    let ghost rows = (height / SPATIAL_RATIO) as int;
    let ghost columns = (width / SPATIAL_RATIO) as int;
    let ghost values = frame_moments(height as int, width as int);
    proof {
        assert(0 <= rows * columns) by (nonlinear_arith)
            requires
                0 <= rows,
                0 <= columns,
        ;
        assert((token + 1) * values == token * values + values && values <= (token + 1) * values && 0 <= token
            * values) by (nonlinear_arith)
            requires
                0 <= values,
                0 <= token,
        ;
        assert(values == rows * columns * 2 * LATENT_CHANNELS);
        assert(values <= count);
    }
    let pixels: usize = (height / SPATIAL_RATIO) * (width / SPATIAL_RATIO);
    let values: usize = pixels * 2 * LATENT_CHANNELS;
    let start: usize = token * values;
    vstd::slice::slice_subrange(tile, start, start + values)
}

} // verus!
