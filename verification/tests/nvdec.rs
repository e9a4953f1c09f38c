use mmh3::nvdec::{failed, nv12_samples, Colour, Decoder, Format, FrameSize, Frames, Next};

#[test]
fn guesses_the_matrix_a_stream_leaves_out() {
    // High definition without signalling is BT.709, standard definition BT.601.
    assert_eq!(Colour::of(2, false, 768), Colour::of(1, false, 768));
    assert_eq!(Colour::of(2, false, 256), Colour::of(5, false, 256));
    assert!(Colour::of(1, true, 768).full_range);
}

#[test]
fn knows_the_weights_of_every_matrix() {
    let weights = |matrix: i32, height: usize| {
        let colour = Colour::of(matrix, false, height);
        (colour.red, colour.blue)
    };
    assert_eq!(weights(1, 100), (2126, 722));
    assert_eq!(weights(6, 1000), (2990, 1140));
    assert_eq!(weights(7, 1000), (2120, 870));
    assert_eq!(weights(9, 1000), (2627, 593));
    assert_eq!(weights(10, 1000), (2627, 593));
    assert_eq!(weights(2, 576), (2990, 1140));
    assert_eq!(weights(2, 577), (2126, 722));
}

#[test]
fn chroma_is_shared_by_a_block_of_pixels() {
    // Four by two pixels: two blocks.
    let nv12 = vec![1, 2, 3, 4, 5, 6, 7, 8, 100, 101, 110, 111];
    let pixels = nv12_samples(&nv12, 4, 2);
    assert_eq!(pixels.len(), 24);
    assert_eq!(&pixels[..6], &[1, 100, 101, 2, 100, 101]);
    assert_eq!(&pixels[6..12], &[3, 110, 111, 4, 110, 111]);
    assert_eq!(&pixels[12..15], &[5, 100, 101]);
    assert_eq!(&pixels[21..], &[8, 110, 111]);
}

#[test]
fn the_first_known_format_stays() {
    let mut decoder = Decoder::open(0, false).unwrap();
    let format = Format { status: 0, width: 64, height: 32, matrix: 2, full_range: 1 };
    decoder.refresh_size(Format { status: 1, ..format });
    assert_eq!(decoder.size(), None);
    decoder.refresh_size(Format { width: 0, ..format });
    assert_eq!(decoder.size(), None);
    decoder.refresh_size(format);
    assert_eq!(decoder.size(), Some(FrameSize { width: 64, height: 32 }));
    assert_eq!(decoder.colour(), Some(Colour::of(5, true, 32)));
    decoder.refresh_size(Format { width: 128, ..format });
    assert_eq!(decoder.size(), Some(FrameSize { width: 64, height: 32 }));
    assert_eq!(decoder.take(1).unwrap(), Some(64 * 32 * 3 / 2));
    assert_eq!(decoder.take(0).unwrap(), None);
    assert!(decoder.format().is_ok());
}

#[test]
fn a_decoder_says_what_it_does_not_know() {
    assert_eq!(Decoder::open(1, false).unwrap_err().message, "NVDEC did not open the video track");
    assert_eq!(Decoder::open(0, true).unwrap_err().message, "NVDEC did not open the video track");
    let decoder = Decoder::open(0, false).unwrap();
    assert_eq!(decoder.take(1).unwrap_err().message, "NVDEC has a frame of an unknown size");
    assert_eq!(decoder.format().unwrap_err().message, "NVDEC has not reported a frame size");
    let sized = Decoder { size: Some(FrameSize { width: 2, height: 2 }), colour: None };
    assert_eq!(sized.format().unwrap_err().message, "NVDEC has not reported a frame's colour");
    assert_eq!(failed("NVDEC failed", None).message, "NVDEC failed");
    assert_eq!(failed("NVDEC failed", Some("why".to_owned())).message, "NVDEC failed: why");
}

/// Runs a track whose units complete `ready[i]` frames each, and whose end completes `rest`.
fn run(ready: &[usize], rest: usize, frames: usize) -> (Frames, Vec<usize>, usize) {
    let mut track = Frames::new(ready.len(), frames);
    let (mut waiting, mut fed, mut flushes): (usize, Vec<usize>, usize) = (0, Vec::new(), 0);
    loop {
        match track.next() {
            Next::Feed { index } => {
                fed.push(index);
                waiting += ready[index];
                track.fed();
            }
            Next::Take => {
                let frame = waiting > 0;
                if frame {
                    waiting -= 1;
                }
                track.took(frame);
            }
            Next::Flush => {
                flushes += 1;
                waiting += rest;
                track.flushed();
            }
            Next::Done => return (track, fed, flushes),
        }
    }
}

#[test]
fn a_track_stops_at_the_frames_that_are_wanted() {
    let (track, fed, flushes) = run(&[0, 2, 2, 1], 3, 3);
    assert_eq!((track.decoded, fed, flushes), (3, vec![0, 1, 2], 0));
}

#[test]
fn a_short_track_is_flushed_once() {
    let (track, fed, flushes) = run(&[0, 1, 1], 1, 10);
    assert_eq!((track.decoded, fed, flushes), (3, vec![0, 1, 2], 1));
    let size = Some(FrameSize { width: 4, height: 2 });
    assert_eq!(track.shape(size).unwrap(), vec![3, 2, 4, 3]);
    assert_eq!(track.shape(None).unwrap_err().message, "the video track decoded no frame");
    let (none, _, _) = run(&[], 0, 1);
    assert_eq!(none.shape(size).unwrap_err().message, "the video track decoded no frame");
}
