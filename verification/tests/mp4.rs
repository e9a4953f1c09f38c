use mmh3::fault::FaultKind;
use mmh3::mp4::{
    access_unit, audio_trim, chunk_offsets, sample_durations, sample_sizes, Kind, Mp4File, TopLevel, Walked, Wanted,
};

fn atom(kind: &[u8; 4], payload: &[u8]) -> Vec<u8> {
    let mut bytes = ((payload.len() + 8) as u32).to_be_bytes().to_vec();
    bytes.extend(kind);
    bytes.extend(payload);
    bytes
}

/// A full box of `values.len() / per_entry` entries, each `per_entry` words wide.
fn table(kind: &[u8; 4], values: &[u32], per_entry: usize) -> Vec<u8> {
    let mut payload = vec![0u8; 4];
    payload.extend(((values.len() / per_entry) as u32).to_be_bytes());
    for value in values {
        payload.extend(value.to_be_bytes());
    }
    atom(kind, &payload)
}

/// A file with one H.264 track whose samples each sit in their own chunk.
fn file(samples: &[Vec<u8>]) -> Vec<u8> {
    let sps = [0x67u8, 0x64, 0x00, 0x1f];
    let pps = [0x68u8, 0xee, 0x3c, 0x80];
    let mut record = vec![1, sps[1], sps[2], sps[3], 0xff, 0xe1];
    record.extend((sps.len() as u16).to_be_bytes());
    record.extend(sps);
    record.push(1);
    record.extend((pps.len() as u16).to_be_bytes());
    record.extend(pps);

    let mut entry = vec![0u8; 78];
    entry[24..26].copy_from_slice(&64u16.to_be_bytes());
    entry[26..28].copy_from_slice(&32u16.to_be_bytes());
    entry.extend(atom(b"avcC", &record));
    let mut description = vec![0u8; 4];
    description.extend(1u32.to_be_bytes());
    description.extend(atom(b"avc1", &entry));

    let mut media_header = vec![0u8; 12];
    media_header.extend(1000u32.to_be_bytes());
    media_header.extend(0u32.to_be_bytes());
    media_header.extend([0u8; 4]);

    // A handler box holds its type after the version, flags and a reserved word.
    let mut handler = vec![0u8; 12];
    handler[8..12].copy_from_slice(b"vide");

    let mut sizes = vec![0u8; 4];
    sizes.extend(0u32.to_be_bytes());
    sizes.extend((samples.len() as u32).to_be_bytes());
    for sample in samples {
        sizes.extend((sample.len() as u32).to_be_bytes());
    }

    // The chunk offsets are absolute, so the header is built once to measure it and again
    // with the offsets it puts the payload at.
    let movie = |offsets: &[u32]| {
        let mut stbl = atom(b"stsd", &description);
        stbl.extend(table(b"stts", &[samples.len() as u32, 40], 2));
        stbl.extend(table(b"stsc", &[1, 1, 1], 3));
        stbl.extend(atom(b"stsz", &sizes));
        stbl.extend(table(b"stss", &[1], 1));
        stbl.extend(table(b"stco", offsets, 1));
        let media = [
            atom(b"mdhd", &media_header),
            atom(b"hdlr", &handler),
            atom(b"minf", &atom(b"stbl", &stbl)),
        ]
        .concat();
        atom(b"moov", &atom(b"trak", &atom(b"mdia", &media)))
    };
    let ftyp = atom(b"ftyp", b"isom\0\0\x02\0isom");
    let zeros = vec![0u32; samples.len()];
    let base = (ftyp.len() + movie(&zeros).len() + 8) as u32;
    let mut position = base;
    let offsets: Vec<u32> = samples
        .iter()
        .map(|sample| {
            let offset = position;
            position += sample.len() as u32;
            offset
        })
        .collect();

    let mut bytes = ftyp;
    bytes.extend(movie(&offsets));
    assert_eq!(bytes.len() + 8, base as usize, "the payload starts at the offsets");
    bytes.extend(atom(b"mdat", &samples.concat()));
    bytes
}

fn nal(length: usize, value: u8) -> Vec<u8> {
    let mut unit = (length as u32).to_be_bytes().to_vec();
    unit.extend(vec![value; length]);
    unit
}

/// The payload of a top-level box of bytes in memory.
fn top_level(bytes: &[u8], kind: Kind) -> Result<Vec<u8>, FaultKind> {
    let mut walk = TopLevel::new(kind, bytes.len() as u64);
    let mut wanted = walk.next().map_err(|fault| fault.kind)?;
    loop {
        let walked = match wanted {
            Wanted::Header(at) => {
                let at = at as usize;
                walk.header(&bytes[at..at + 8]).map_err(|fault| fault.kind)?
            }
            Wanted::LargeSize(at) => {
                let at = at as usize;
                walk.large_size(&bytes[at..at + 8]).map_err(|fault| fault.kind)?
            }
            Wanted::Payload(at, length) => {
                let at = at as usize;
                return Ok(bytes[at..at + length].to_vec());
            }
        };
        wanted = match walked {
            Walked::On => walk.next().map_err(|fault| fault.kind)?,
            Walked::Found(found) => found,
        };
    }
}

#[test]
fn reads_the_sample_table_and_the_parameter_sets() {
    let samples = vec![
        [nal(6, 0xaa), nal(4, 0xbb)].concat(),
        nal(5, 0xcc),
        nal(7, 0xdd),
    ];
    let bytes = file(&samples);
    let movie = top_level(&bytes, Kind::Moov).unwrap();
    let reader = Mp4File::new(&movie).unwrap();
    let track = reader.track();
    assert_eq!((track.width, track.height), (64, 32));
    assert_eq!(track.timescale, 1000);
    assert_eq!(track.samples.len(), 3);
    // 1000 ticks per second and 40 ticks per frame make 25 frames per second.
    let (frames, ticks) = track.pace().unwrap();
    let fps = frames as f64 * f64::from(track.timescale) / ticks as f64;
    assert!((fps - 25.0).abs() < 1e-9);
    // The sync table names the first sample alone.
    assert_eq!(
        track.samples.iter().map(|sample| sample.keyframe).collect::<Vec<_>>(),
        vec![true, false, false]
    );
    assert_eq!(
        track.samples.iter().map(|sample| sample.size).collect::<Vec<_>>(),
        samples.iter().map(Vec::len).collect::<Vec<_>>()
    );
    // The parameter sets come out as Annex B, the sequence set first.
    assert_eq!(&track.parameter_sets[..5], &[0, 0, 0, 1, 0x67]);
    assert_eq!(&track.parameter_sets[8..13], &[0, 0, 0, 1, 0x68]);

    // The lengths of both NAL units of the first sample become start codes.
    let read = |index: usize| {
        let sample = reader.sample(index)?;
        let start = sample.offset as usize;
        reader.access_unit(&bytes[start..start + sample.size])
    };
    let unit = read(0).unwrap();
    assert_eq!(unit.len(), 4 + 6 + 4 + 4);
    assert_eq!(&unit[..5], &[0, 0, 0, 1, 0xaa]);
    assert_eq!(&unit[10..15], &[0, 0, 0, 1, 0xbb]);
    assert_eq!(read(2).unwrap().len(), 4 + 7);
    assert!(read(3).is_err());
}

#[test]
fn a_file_without_a_movie_is_refused() {
    let bytes = atom(b"ftyp", b"isom");
    assert_eq!(top_level(&bytes, Kind::Moov), Err(FaultKind::InvalidData));
}

#[test]
fn a_large_box_says_its_size_behind_its_kind() {
    let mut bytes = atom(b"ftyp", b"isom");
    bytes.extend(1u32.to_be_bytes());
    bytes.extend(b"moov");
    bytes.extend(19u64.to_be_bytes());
    bytes.extend([7, 8, 9]);
    assert_eq!(top_level(&bytes, Kind::Moov).unwrap(), vec![7, 8, 9]);
}

#[test]
fn samples_of_one_size_say_it_once() {
    let mut payload = vec![0u8; 4];
    payload.extend(12u32.to_be_bytes());
    payload.extend(3u32.to_be_bytes());
    assert_eq!(sample_sizes(&payload).unwrap(), vec![12, 12, 12]);
    assert!(sample_sizes(&payload[..8]).is_err());
}

#[test]
fn durations_run_over_their_samples() {
    let mut payload = vec![0u8; 4];
    payload.extend(2u32.to_be_bytes());
    for value in [2u32, 10, 1, 20] {
        payload.extend(value.to_be_bytes());
    }
    assert_eq!(sample_durations(&payload, 3).unwrap(), vec![10, 10, 20]);
}

#[test]
fn offsets_may_have_sixty_four_bits() {
    let mut payload = vec![0u8; 4];
    payload.extend(1u32.to_be_bytes());
    payload.extend(0x1_0000_0002u64.to_be_bytes());
    let wide = atom(b"co64", &payload);
    assert_eq!(chunk_offsets(&wide).unwrap(), vec![0x1_0000_0002]);
    assert!(chunk_offsets(&[]).is_err());
}

#[test]
fn a_nal_unit_that_ends_early_is_refused() {
    assert_eq!(access_unit(&[0, 0, 0, 2, 5, 6], 4).unwrap(), vec![0, 0, 0, 1, 5, 6]);
    assert!(access_unit(&[0, 0, 0, 3, 5, 6], 4).is_err());
    assert!(access_unit(&[0, 0], 4).is_err());
    assert_eq!(access_unit(&[1, 9, 2, 7, 8], 1).unwrap(), vec![0, 0, 0, 1, 9, 0, 0, 0, 1, 7, 8]);
}

/// A movie of a timescale of 600 with one sound track of a timescale of 48000, whose edit list is `list`.
fn sound(list: Option<&[u8]>) -> Vec<u8> {
    let mut movie_header = vec![0u8; 12];
    movie_header.extend(600u32.to_be_bytes());
    let mut media_header = vec![0u8; 12];
    media_header.extend(48000u32.to_be_bytes());
    let mut handler = vec![0u8; 12];
    handler[8..12].copy_from_slice(b"soun");
    let media = [atom(b"mdhd", &media_header), atom(b"hdlr", &handler)].concat();
    let mut track = atom(b"mdia", &media);
    if let Some(list) = list {
        track.extend(atom(b"edts", &atom(b"elst", list)));
    }
    [atom(b"mvhd", &movie_header), atom(b"trak", &track)].concat()
}

#[test]
fn an_edit_list_says_what_is_played() {
    let mut list = vec![0u8; 4];
    list.extend(1u32.to_be_bytes());
    list.extend(1200u32.to_be_bytes());
    list.extend(1024u32.to_be_bytes());
    // Two seconds from sample 1024 on.
    assert_eq!(audio_trim(&sound(Some(&list))).unwrap(), Some((1024, 96000)));
    list[12..16].copy_from_slice(&(-1i32).to_be_bytes());
    assert_eq!(audio_trim(&sound(Some(&list))).unwrap(), Some((0, 96000)));
    assert_eq!(audio_trim(&sound(None)).unwrap(), None);
}

#[test]
fn a_trim_needs_a_movie_header() {
    let samples = vec![nal(5, 0xcc)];
    let movie = top_level(&file(&samples), Kind::Moov).unwrap();
    assert_eq!(audio_trim(&movie).unwrap_err().message, "no mvhd box");
}

#[test]
fn a_walk_finds_the_first_box_of_a_kind() {
    let mut bytes = Vec::new();
    bytes.extend([0, 0, 0, 12]);
    bytes.extend(b"freexxxx");
    bytes.extend([0, 0, 0, 1]);
    bytes.extend(b"mdat");
    bytes.extend([0, 0, 0, 0, 0, 0, 0, 18, 7, 7]);
    bytes.extend([0, 0, 0, 10]);
    bytes.extend(b"moov\x01\x02");
    bytes.extend([0, 0, 0, 0]);
    bytes.extend(b"moov\x03");
    assert_eq!(top_level(&bytes, Kind::Moov), Ok(vec![1, 2]));
    assert_eq!(top_level(&bytes[40..], Kind::Moov), Ok(vec![3]));
    assert_eq!(top_level(&bytes[..30], Kind::Moov), Err(FaultKind::InvalidData));
    assert_eq!(top_level(&[0, 0, 0, 7, b'f', b'r', b'e', b'e'], Kind::Moov), Err(FaultKind::InvalidData));
}
