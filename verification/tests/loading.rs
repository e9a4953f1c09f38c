use mmh3::device::{Allocations, CudaError, DeviceBuffer};
use mmh3::fault::{Fault, FaultKind};
use mmh3::loader::{LoadError, Uploader, MERGE_GAP, STAGING_BYTES};
use mmh3::streaming::{
    answer, fits, Answer, Asked, Entering, Kept, Pass, Region, Settling, Stream, Unit, UnitTensor, HEADROOM,
};

/// Streams queued pieces of `file` and answers what is on a device of `size` bytes then, and how often each byte of it
/// was written.
fn upload(file: &[u8], pieces: &[(u64, usize, usize)], alignment: u64, size: usize) -> (Vec<u8>, Vec<usize>, usize) {
    let mut allocations = Allocations::new();
    let base: usize = 0x1000;
    let buffer = DeviceBuffer::new(&mut allocations, 0, base, size);
    let mut uploader = Uploader::new("weights".to_owned(), alignment);
    for &(at, length, offset) in pieces {
        uploader.queue("weights", at, length, &buffer, offset);
    }
    let mut streaming = uploader.start();
    let (mut device, mut writes): (Vec<u8>, Vec<usize>) = (vec![0; size], vec![0; size]);
    let mut slots = [Vec::new(), Vec::new()];
    while let Some(read) = streaming.next() {
        assert_eq!(read.position % alignment, 0);
        assert_eq!(read.length as u64 % alignment, 0);
        let start = read.position as usize;
        let end = file.len().min(start + read.length);
        slots[read.slot] = file[start..end].to_vec();
        for copy in streaming.copies(end - start).unwrap() {
            for place in 0..copy.bytes {
                let to = copy.destination - base + place;
                device[to] = slots[read.slot][copy.source + place];
                writes[to] += 1;
            }
        }
    }
    let uploaded = streaming.uploaded();
    buffer.release(&mut allocations);
    (device, writes, uploaded)
}

#[test]
fn every_queued_byte_reaches_its_place_once() {
    let file: Vec<u8> = (0..5000u32).map(|value| (value * 7 % 251) as u8).collect();
    let pieces = [(4000, 900, 0), (10, 100, 900), (110, 1, 1000), (2047, 2, 1001), (0, 0, 0)];
    let (device, writes, uploaded) = upload(&file, &pieces, 512, 1003);
    assert_eq!(&device[..900], &file[4000..4900]);
    assert_eq!(&device[900..1001], &file[10..111]);
    assert_eq!(&device[1001..], &file[2047..2049]);
    assert_eq!(writes, vec![1; 1003]);
    assert_eq!(uploaded, 1003);
}

#[test]
fn a_wide_gap_is_not_read() {
    let mut allocations = Allocations::new();
    let buffer = DeviceBuffer::new(&mut allocations, 0, 0x1000, 20);
    let mut uploader = Uploader::new("weights".to_owned(), 4096);
    uploader.queue("weights", 0, 10, &buffer, 0);
    uploader.queue("weights", MERGE_GAP * 3, 10, &buffer, 10);
    let mut streaming = uploader.start();
    let first = streaming.next().unwrap();
    assert_eq!((first.slot, first.wait, first.position, first.length), (0, false, 0, 4096));
    streaming.copies(4096).unwrap();
    let second = streaming.next().unwrap();
    assert_eq!((second.slot, second.position, second.length), (1, MERGE_GAP * 3, 4096));
    streaming.copies(10).unwrap();
    assert!(streaming.next().is_none());
    buffer.release(&mut allocations);
}

#[test]
fn a_long_stretch_is_read_a_staging_buffer_at_a_time() {
    let mut allocations = Allocations::new();
    let length: usize = 2 * STAGING_BYTES + 1;
    let buffer = DeviceBuffer::new(&mut allocations, 0, 0x1000, length);
    let mut uploader = Uploader::new("weights".to_owned(), 4096);
    uploader.queue("weights", 0, length, &buffer, 0);
    let mut streaming = uploader.start();
    for (slot, wait, bytes) in [(0, false, STAGING_BYTES), (1, false, STAGING_BYTES), (0, true, 4096)] {
        let read = streaming.next().unwrap();
        assert_eq!((read.slot, read.wait, read.length), (slot, wait, bytes));
        streaming.copies(bytes.min(length - read.position as usize)).unwrap();
    }
    assert!(streaming.next().is_none());
    buffer.release(&mut allocations);
}

#[test]
fn a_short_file_is_refused() {
    let mut allocations = Allocations::new();
    let buffer = DeviceBuffer::new(&mut allocations, 0, 0x1000, 20);
    let mut uploader = Uploader::new("weights".to_owned(), 512);
    uploader.queue("weights", 0, 20, &buffer, 0);
    let mut streaming = uploader.start();
    assert!(matches!(streaming.copies(19), Err(LoadError::Io(_))));
    let fault = Fault { kind: FaultKind::Other, message: "no".to_owned() };
    assert_eq!(LoadError::Io(fault).text(), "reading weights: no");
    buffer.release(&mut allocations);
}

#[test]
fn the_reader_says_why_it_stopped() {
    assert!(answer(Answer::Read).is_ok());
    assert_eq!(answer(Answer::Failed("x".to_owned())).unwrap_err().text(), "reading weights: x");
    assert_eq!(answer(Answer::NotStarted("x".to_owned())).unwrap_err().text(), "starting the weight reader: x");
    assert_eq!(answer(Answer::Stopped).unwrap_err().text(), "the weight reader stopped");
}

#[test]
fn units_leave_the_headroom() {
    assert!(fits(Ok(HEADROOM + 5), 5).unwrap());
    assert!(!fits(Ok(HEADROOM + 4), 5).unwrap());
    let error = CudaError { code: 3, message: String::new() };
    assert_eq!(fits(Err(error), 5).unwrap_err().code, 3);
}

fn unit(name: &str, bytes: usize) -> Unit {
    let tensors = vec![UnitTensor { name: format!("{name}.weight"), offset: 0, bytes }];
    Unit { name: name.to_owned(), bytes, tensors }
}

fn stream() -> Stream {
    let units = vec![unit("blocks.0", 100), unit("blocks.1", 120), unit("blocks.10", 80), unit("head", 300)];
    Stream::new("blocks".to_owned(), units, vec![3, 0, 1, 2], 0, 3)
}

#[test]
fn a_tensor_belongs_to_the_longest_name() {
    let stream = stream();
    assert_eq!(stream.unit_of("blocks.1.mlp.fc1.weight"), Some(1));
    assert_eq!(stream.unit_of("blocks.10.mlp.fc1.weight"), Some(2));
    assert_eq!(stream.unit_of("blocks.1"), None);
    assert_eq!(stream.unit_of("tail.weight"), None);
}

#[test]
fn a_region_has_its_halves() {
    assert_eq!(Region::One(1).halves(), vec![1]);
    assert_eq!(Region::Both.halves(), vec![0, 1]);
    assert_eq!((Region::One(0).offset(64), Region::One(1).offset(64), Region::Both.offset(64)), (0, 64, 0));
}

/// A stream that has let go of its units, with regions of its own.
fn reading(allocations: &mut Allocations) -> Stream {
    let mut stream = stream();
    assert!(!stream.reads() && stream.make_room());
    let gone = stream.let_go(64, 7);
    assert!(gone.freed.is_empty());
    // Half of the largest unit is 150, which is more than any of the sized ones.
    assert_eq!(gone.wants, Some(192));
    let device = DeviceBuffer::new(allocations, 0, 0x1000, 2 * 192);
    stream.open(192, device, 7);
    stream.resume();
    stream
}

#[test]
fn units_take_turns_in_the_regions() {
    let mut allocations = Allocations::new();
    let mut stream = reading(&mut allocations);
    assert!(stream.reads() && stream.unsettled() && !stream.make_room());
    assert!(matches!(stream.kept[0], Kept::Read(Region::One(0))));
    assert!(matches!(stream.kept[1], Kept::Read(Region::One(1))));
    assert!(matches!(stream.kept[2], Kept::Read(Region::One(0))));
    assert!(matches!(stream.kept[3], Kept::Read(Region::Both)));

    let mut pass = Pass::new(&stream, &vec![0, 1, 2, 3]);
    for unit in [0, 1] {
        match pass.request(&mut stream) {
            Asked::Load(request) => assert_eq!((request.unit, request.gated), (unit, true)),
            _ => panic!("unit {unit} is not asked for"),
        }
    }
    // The third unit goes where the first one still is.
    assert!(matches!(pass.request(&mut stream), Asked::Nothing));
    assert!(matches!(pass.enter(&stream, 0), Entering::Answer));
    pass.answered(&mut stream, true);
    match pass.enter(&stream, 0) {
        Entering::Copies(halves) => assert_eq!(halves, vec![0]),
        Entering::Answer => panic!("the first unit is there"),
    }
    // What is still on its way is not left.
    assert!(pass.has_arrived(&stream, 0) && !pass.has_arrived(&stream, 1));
    assert_eq!(pass.leave(&stream, 0), Some(vec![0]));
    assert_eq!(pass.busy, [None, Some(1)]);
    match pass.request(&mut stream) {
        Asked::Load(request) => assert_eq!((request.unit, request.destination), (2, 0x1000)),
        _ => panic!("the third unit is not asked for"),
    }
    assert!(pass.owed());
}

#[test]
fn settling_keeps_back_what_fits() {
    let mut allocations = Allocations::new();
    let mut stream = reading(&mut allocations);
    let mut settling = Settling::new(&stream, HEADROOM + 250);
    // The units given up last come first: 80 and 120 fit, 100 more do not.
    assert_eq!(settling.wants(&stream), Some(80));
    settling.took(&stream, DeviceBuffer::new(&mut allocations, 0, 0x5000, 80));
    assert_eq!(settling.wants(&stream), Some(120));
    settling.took(&stream, DeviceBuffer::new(&mut allocations, 0, 0x6000, 120));
    assert_eq!(settling.wants(&stream), None);
    assert_eq!(settling.line(&stream), "keeping 2 of 4 blocks on the device and reading the rest as they run");
    assert_eq!(settling.requests(&stream).len(), 2);
    stream.settle(settling);
    assert!(!stream.unsettled() && stream.make_room());
    assert!(matches!(stream.kept[2], Kept::Buffer(_)));
    assert!(matches!(stream.kept[1], Kept::Buffer(_)));
    assert!(matches!(stream.kept[0], Kept::Read(_)));
}
