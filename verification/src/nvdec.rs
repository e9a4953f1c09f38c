//! H.264 decoding with NVDEC, for the reference clips of reference to video generation.
//!
//! The driver's parser and decoder hand every frame back as NV12 in host memory. Its conversion to RGB uses the colour
//! matrix and range the stream declares, or the guess players make when it declares none.
use crate::fault::{Fault, FaultKind};
use vstd::prelude::*;

verus! {

/// How a stream's luma and chroma become RGB: the weights of red and blue in ten-thousandths, and whether the values
/// use the whole 8-bit range or the studio range of 16 to 235.
#[derive(Clone, Copy, Debug, PartialEq, Eq, Structural)]
pub struct Colour {
    pub red: u32,
    pub blue: u32,
    pub full_range: bool,
}

/// The weights of BT.709, of BT.601, of SMPTE 240M and of BT.2020 in ten-thousandths.
pub open spec fn bt709() -> (u32, u32) {
    (2126, 722)
}

pub open spec fn bt601() -> (u32, u32) {
    (2990, 1140)
}

pub open spec fn smpte240m() -> (u32, u32) {
    (2120, 870)
}

pub open spec fn bt2020() -> (u32, u32) {
    (2627, 593)
}

/// The weights of red and blue of a matrix, by the code of H.264's VUI.
pub open spec fn weights(matrix: i32, height: usize) -> (u32, u32) {
    if matrix == 1 {
        bt709()
    } else if matrix == 5 || matrix == 6 {
        bt601()
    } else if matrix == 7 {
        smpte240m()
    } else if matrix == 9 || matrix == 10 {
        bt2020()
    } else if height > 576 {
        bt709()
    } else {
        bt601()
    }
}

impl Colour {
    /// The matrix a stream declares, by the code of H.264's VUI. A stream that declares none gets
    /// the guess players make from its height: BT.709 for high definition, BT.601 below it.
    pub fn of(matrix: i32, full_range: bool, height: usize) -> (colour: Colour)
        ensures
            (colour.red, colour.blue) == weights(matrix, height),
            colour.full_range == full_range,
    {
        let (red, blue): (u32, u32) = match matrix {
            1 => (2126, 722),
            5 | 6 => (2990, 1140),
            7 => (2120, 870),
            9 | 10 => (2627, 593),
            _ => if height > 576 {
                (2126, 722)
            } else {
                (2990, 1140)
            },
        };
        Colour { red, blue, full_range }
    }
}

/// A matrix leaves green a weight, which the chroma weights divide by.
pub proof fn green_has_a_weight(matrix: i32, height: usize)
    ensures
        weights(matrix, height).0 + weights(matrix, height).1 < 10000,
{
}

/// The size of decoded frames.
#[derive(Clone, Copy, Debug, PartialEq, Eq, Structural)]
pub struct FrameSize {
    pub width: usize,
    pub height: usize,
}

/// What the driver has reported of a stream.
#[derive(Clone, Copy, Debug, PartialEq, Eq, Structural)]
pub struct Decoder {
    /// The size the frames come out at, known once the first access unit has been parsed.
    pub size: Option<FrameSize>,
    pub colour: Option<Colour>,
}

/// What the driver answers when it is asked for the format of a stream.
#[derive(Clone, Copy, Debug, PartialEq, Eq, Structural)]
pub struct Format {
    pub status: i32,
    pub width: i32,
    pub height: i32,
    pub matrix: i32,
    pub full_range: i32,
}

impl Format {
    /// Whether the driver knows the format.
    pub open spec fn is_known(self) -> bool {
        self.status == 0 && self.width > 0 && self.height > 0
    }
}

/// Bytes of an NV12 frame.
pub open spec fn frame_bytes(size: FrameSize) -> int {
    size.width * size.height * 3 / 2
}

/// What a failed call is reported as: what failed, and the driver's last complaint, if it made one.
pub open spec fn complaint(what: Seq<char>, failure: Option<Seq<char>>) -> Seq<char> {
    match failure {
        Some(message) => what + ": "@ + message,
        None => what,
    }
}

/// What a failed call is reported as.
pub fn failed(what: &str, failure: Option<String>) -> (fault: Fault)
    ensures
        fault.says(
            FaultKind::Other,
            complaint(
                what@,
                match failure {
                    Some(message) => Some(message@),
                    None => None,
                },
            ),
        ),
{
    let mut message = String::from_str(what);
    if let Some(reason) = failure {
        message.append(": ");
        message.append(reason.as_str());
    }
    Fault { kind: FaultKind::Other, message }
}

impl Decoder {
    /// A decoder that the driver has answered `status` for.
    pub fn open(status: i32, is_null: bool) -> (decoder: Result<Decoder, Fault>)
        ensures
            match decoder {
                Ok(decoder) => status == 0 && !is_null && decoder.size is None && decoder.colour is None,
                Err(fault) => (status != 0 || is_null) && fault.says(FaultKind::Other, "NVDEC did not open the video track"@),
            },
    {
        if status != 0 || is_null {
            return Err(failed("NVDEC did not open the video track", None));
        }
        Ok(Decoder { size: None, colour: None })
    }

    /// The size of the decoded frames, once the driver has reported it.
    pub fn size(&self) -> (size: Option<FrameSize>)
        ensures
            size == self.size,
    {
        self.size
    }

    /// The colour the stream declares, once the driver has reported its format.
    pub fn colour(&self) -> (colour: Option<Colour>)
        ensures
            colour == self.colour,
    {
        self.colour
    }

    /// Whether the size and the colour are known together.
    pub open spec fn valid(self) -> bool {
        self.size is Some <==> self.colour is Some
    }

    /// Takes note of the format of the stream. The first one that the driver knows stays.
    pub fn refresh_size(&mut self, format: Format)
        requires
            old(self).valid(),
        ensures
            final(self).valid(),
            if old(self).size is None && format.is_known() {
                &&& final(self).size == Some(FrameSize { width: format.width as usize, height: format.height as usize })
                &&& final(self).colour matches Some(colour)
                &&& (colour.red, colour.blue) == weights(format.matrix, format.height as usize)
                &&& colour.full_range == (format.full_range != 0)
            } else {
                *final(self) == *old(self)
            },
    {
        if self.size.is_some() {
            return;
        }
        if format.status == 0 && format.width > 0 && format.height > 0 {
            let width: usize = format.width as usize;
            let height: usize = format.height as usize;
            self.size = Some(FrameSize { width, height });
            self.colour = Some(Colour::of(format.matrix, format.full_range != 0, height));
        }
    }

    /// Bytes of the oldest decoded frame, or nothing when none of them is ready.
    pub fn take(&self, ready: usize) -> (bytes: Result<Option<usize>, Fault>)
        requires
            self.size matches Some(size) ==> size.width * size.height * 3 <= usize::MAX,
        ensures
            if ready == 0 {
                bytes == Ok::<Option<usize>, Fault>(None)
            } else {
                match self.size {
                    Some(size) => bytes matches Ok(Some(count)) && count == frame_bytes(size),
                    None => bytes matches Err(fault) && fault.says(FaultKind::Other, "NVDEC has a frame of an unknown size"@),
                }
            },
    {
        if ready == 0 {
            return Ok(None);
        }
        match self.size {
            Some(size) => {
                proof {
                    assert(0 <= size.width * size.height) by (nonlinear_arith)
                        requires
                            size.width >= 0,
                            size.height >= 0,
                    ;
                }
                Ok(Some(size.width * size.height * 3 / 2))
            },
            None => Err(failed("NVDEC has a frame of an unknown size", None)),
        }
    }

    /// The size and the colour that a frame converts with.
    pub fn format(&self) -> (format: Result<(FrameSize, Colour), Fault>)
        ensures
            match self.size {
                None => format matches Err(fault) && fault.says(FaultKind::Other, "NVDEC has not reported a frame size"@),
                Some(size) => match self.colour {
                    None => format matches Err(fault) && fault.says(FaultKind::Other, "NVDEC has not reported a frame's colour"@),
                    Some(colour) => format == Ok::<(FrameSize, Colour), Fault>((size, colour)),
                },
            },
    {
        match self.size {
            None => Err(failed("NVDEC has not reported a frame size", None)),
            Some(size) => match self.colour {
                None => Err(failed("NVDEC has not reported a frame's colour", None)),
                Some(colour) => Ok((size, colour)),
            },
        }
    }
}

/// Where the chroma of a pixel begins, blue before red. It is shared by every 2 x 2 block of pixels.
pub open spec fn chroma_place(width: int, height: int, x: int, y: int) -> int {
    width * height + (y / 2) * width + (x / 2) * 2
}

/// Whether the samples of every pixel are there.
pub open spec fn has_frame(length: int, width: int, height: int) -> bool {
    width > 0 && height > 0 ==> chroma_place(width, height, width - 1, height - 1) + 1 < length
}

proof fn chroma_is_inside(length: int, width: int, height: int, x: int, y: int)
    requires
        has_frame(length, width, height),
        0 <= x < width,
        0 <= y < height,
    ensures
        0 <= y * width <= y * width + x < width * height <= chroma_place(width, height, x, y) < length - 1,
        0 <= (y / 2) * width,
        width * height + (y / 2) * width <= chroma_place(width, height, x, y),
{
    crate::arithmetic::nested_is_inside(y, height, x, width);
    assert(height * width == width * height) by (nonlinear_arith);
    assert((y / 2) * width <= ((height - 1) / 2) * width) by (nonlinear_arith)
        requires
            y / 2 <= (height - 1) / 2,
            0 <= width,
    ;
    assert(0 <= (y / 2) * width && 0 <= y * width) by (nonlinear_arith)
        requires
            0 <= y / 2,
            0 <= y,
            0 <= width,
    ;
}

/// The luma, the blue and the red of a pixel of an NV12 frame.
pub open spec fn samples(nv12: Seq<u8>, width: int, height: int, x: int, y: int) -> (u8, u8, u8) {
    let chroma = chroma_place(width, height, x, y);
    (nv12[y * width + x], nv12[chroma], nv12[chroma + 1])
}

/// The samples of NV12 pixels as `[height, width, 3]`: the luma, the blue and the red of each.
pub fn nv12_samples(nv12: &Vec<u8>, width: usize, height: usize) -> (pixels: Vec<u8>)
    requires
        has_frame(nv12@.len() as int, width as int, height as int),
        width * height * 3 <= usize::MAX,
    ensures
        pixels@.len() == height * width * 3,
        forall|x: int, y: int|
            #![trigger samples(nv12@, width as int, height as int, x, y)]
            0 <= x < width && 0 <= y < height ==> {
                let place = (y * width + x) * 3;
                samples(nv12@, width as int, height as int, x, y) == (
                    pixels@[place],
                    pixels@[place + 1],
                    pixels@[place + 2],
                )
            },
{
    let length: usize = nv12.len();
    let mut pixels: Vec<u8> = Vec::new();
    let ghost (w, h) = (width as int, height as int);
    assert(0 * w == 0) by (nonlinear_arith);
    for y in 0..height
        invariant
            w == width,
            h == height,
            length == nv12@.len(),
            has_frame(length as int, w, h),
            width * height * 3 <= usize::MAX,
            pixels@.len() == y * width * 3,
            forall|i: int, j: int|
                #![trigger samples(nv12@, w, h, i, j)]
                0 <= i < w && 0 <= j < y ==> {
                    let place = (j * w + i) * 3;
                    samples(nv12@, w, h, i, j) == (pixels@[place], pixels@[place + 1], pixels@[place + 2])
                },
    {
        for x in 0..width
            invariant
                w == width,
                h == height,
                y < height,
                length == nv12@.len(),
                has_frame(length as int, w, h),
                width * height * 3 <= usize::MAX,
                pixels@.len() == (y * width + x) * 3,
                forall|i: int, j: int|
                    #![trigger samples(nv12@, w, h, i, j)]
                    0 <= i < w && (0 <= j < y || (j == y && i < x)) ==> {
                        let place = (j * w + i) * 3;
                        samples(nv12@, w, h, i, j) == (pixels@[place], pixels@[place + 1], pixels@[place + 2])
                    },
        {
            proof {
                chroma_is_inside(length as int, w, h, x as int, y as int);
            }
            let ghost before = pixels@;
            let offset: usize = width * height + (y / 2) * width + (x / 2) * 2;
            pixels.push(nv12[y * width + x]);
            pixels.push(nv12[offset]);
            pixels.push(nv12[offset + 1]);
            proof {
                assert forall|i: int, j: int|
                    #![trigger samples(nv12@, w, h, i, j)]
                    0 <= i < w && (0 <= j < y || (j == y && i < x + 1)) implies {
                    let place = (j * w + i) * 3;
                    samples(nv12@, w, h, i, j) == (pixels@[place], pixels@[place + 1], pixels@[place + 2])
                } by {
                    if j < y {
                        assert(j * w + i + 1 <= y * w) by (nonlinear_arith)
                            requires
                                j + 1 <= y,
                                i < w,
                                0 <= w,
                        ;
                    }
                    assert(0 <= j * w) by (nonlinear_arith)
                        requires
                            0 <= j,
                            0 <= w,
                    ;
                }
            }
        }
        assert(y * width + width == (y + 1) * width) by (nonlinear_arith);
    }
    pixels
}

/// What comes next for a track that is decoded.
#[derive(Clone, Copy, Debug, PartialEq, Eq, Structural)]
pub enum Next {
    /// Feed the decoder the access unit of a sample.
    Feed { index: usize },
    /// Take a frame, if one is ready.
    Take,
    /// End the stream.
    Flush,
    /// Nothing more is decoded.
    Done,
}

/// A track that is decoded until it has given `frames` frames or has no more.
#[derive(Clone, Copy, Debug, PartialEq, Eq, Structural)]
pub struct Frames {
    pub samples: usize,
    pub frames: usize,
    /// Access units that were fed, and frames that came out.
    pub fed: usize,
    pub decoded: usize,
    /// Whether the stream has ended, and whether frames may be ready.
    pub flushed: bool,
    pub collecting: bool,
}

impl Frames {
    /// Whether no more was fed or taken than there is and is wanted, and the stream ended only behind the last sample.
    pub open spec fn valid(self) -> bool {
        &&& self.fed <= self.samples
        &&& self.decoded <= self.frames
        &&& self.flushed ==> self.fed == self.samples
    }

    pub fn new(samples: usize, frames: usize) -> (track: Frames)
        ensures
            track.valid(),
            track == (Frames { samples, frames, fed: 0, decoded: 0, flushed: false, collecting: false }),
    {
        Frames { samples, frames, fed: 0, decoded: 0, flushed: false, collecting: false }
    }

    /// What comes next: frames that are ready are taken first, then samples are fed in their order, and behind the last
    /// of them the stream ends once.
    pub open spec fn due(self) -> Next {
        if self.decoded >= self.frames {
            Next::Done
        } else if self.collecting {
            Next::Take
        } else if self.fed < self.samples {
            Next::Feed { index: self.fed }
        } else if !self.flushed {
            Next::Flush
        } else {
            Next::Done
        }
    }

    pub fn next(&self) -> (next: Next)
        ensures
            next == self.due(),
    {
        if self.decoded >= self.frames {
            Next::Done
        } else if self.collecting {
            Next::Take
        } else if self.fed < self.samples {
            Next::Feed { index: self.fed }
        } else if !self.flushed {
            Next::Flush
        } else {
            Next::Done
        }
    }

    /// Takes note that the sample that was due was fed.
    pub fn fed(&mut self)
        requires
            old(self).valid(),
            old(self).due() is Feed,
        ensures
            final(self).valid(),
            *final(self) == (Frames { fed: (old(self).fed + 1) as usize, collecting: true, ..*old(self) }),
    {
        self.fed = self.fed + 1;
        self.collecting = true;
    }

    /// Takes note that the stream has ended.
    pub fn flushed(&mut self)
        requires
            old(self).valid(),
            old(self).due() is Flush,
        ensures
            final(self).valid(),
            *final(self) == (Frames { flushed: true, collecting: true, ..*old(self) }),
    {
        self.flushed = true;
        self.collecting = true;
    }

    /// Takes note of a frame that was taken, or that none was ready.
    pub fn took(&mut self, frame: bool)
        requires
            old(self).valid(),
            old(self).due() is Take,
        ensures
            final(self).valid(),
            if frame {
                *final(self) == (Frames { decoded: (old(self).decoded + 1) as usize, ..*old(self) })
            } else {
                *final(self) == (Frames { collecting: false, ..*old(self) })
            },
    {
        if frame {
            self.decoded = self.decoded + 1;
        } else {
            self.collecting = false;
        }
    }

    /// The shape `[frames, height, width, 3]` of what was decoded.
    pub fn shape(&self, size: Option<FrameSize>) -> (shape: Result<Vec<usize>, Fault>)
        ensures
            match size {
                Some(size) if self.decoded > 0 => shape matches Ok(shape) && shape@ == seq![
                    self.decoded,
                    size.height,
                    size.width,
                    3usize,
                ],
                _ => shape matches Err(fault) && fault.says(FaultKind::Other, "the video track decoded no frame"@),
            },
    {
        match size {
            Some(size) => {
                if self.decoded == 0 {
                    return Err(failed("the video track decoded no frame", None));
                }
                let mut shape: Vec<usize> = Vec::new();
                shape.push(self.decoded);
                shape.push(size.height);
                shape.push(size.width);
                shape.push(3);
                assert(shape@ =~= seq![self.decoded, size.height, size.width, 3usize]);
                Ok(shape)
            },
            None => Err(failed("the video track decoded no frame", None)),
        }
    }
}

/// A track that is done has given the frames that were wanted, or has fed every sample, ended the stream and taken what
/// was ready.
pub proof fn a_done_track_is_exhausted(track: Frames)
    requires
        track.valid(),
        track.due() is Done,
    ensures
        track.decoded == track.frames || (track.fed == track.samples && track.flushed && !track.collecting),
{
}

/// Every step of a track brings it nearer to its end.
pub proof fn a_track_ends(track: Frames, frame: bool)
    requires
        track.valid(),
        track.due() !is Done,
    ensures
        ({
            let after = match track.due() {
                Next::Feed { index } => (Frames { fed: (track.fed + 1) as usize, collecting: true, ..track }),
                Next::Flush => (Frames { flushed: true, collecting: true, ..track }),
                _ => if frame {
                    (Frames { decoded: (track.decoded + 1) as usize, ..track })
                } else {
                    (Frames { collecting: false, ..track })
                },
            };
            steps_left(after) < steps_left(track)
        }),
{
}

/// A bound on the steps that are left of a track.
pub open spec fn steps_left(track: Frames) -> int {
    2 * (track.samples - track.fed) + (if track.flushed {
        0int
    } else {
        2int
    }) + (track.frames - track.decoded) + (if track.collecting {
        1int
    } else {
        0int
    })
}

} // verus!
