use mmh3::shard::{
    check_packed, check_scattered, input_tensors, pattern, whole_region, whole_write, Duration, Run, Shard, ShardTiming,
};

#[test]
fn times_add_up() {
    let one = Duration { secs: 1, nanos: 600_000_000 };
    let timing = ShardTiming { gather: one, barrier: one, read: one, attend: one };
    let total = timing.total();
    assert_eq!((total.secs, total.nanos), (6, 400_000_000));
    let sum = one.plus(Duration { secs: 0, nanos: 1 });
    assert_eq!((sum.secs, sum.nanos), (1, 600_000_001));
}

#[test]
fn runs_overlap() {
    let run = Run { start: 3, end: 9 };
    assert_eq!(run.len(), 6);
    assert_eq!(run.within(Run { start: 5, end: 20 }), Some(Run { start: 5, end: 9 }));
    assert_eq!(run.within(Run { start: 9, end: 20 }), None);
}

#[test]
fn a_shard_covers_its_step() {
    let shard = Shard {
        rank: 1,
        tokens: vec![Run { start: 0, end: 6 }, Run { start: 6, end: 10 }],
        heads: vec![Run { start: 0, end: 2 }, Run { start: 2, end: 4 }],
    };
    assert_eq!(shard.ranks(), 2);
    assert_eq!((shard.own_tokens(), shard.own_heads()), (Run { start: 6, end: 10 }, Run { start: 2, end: 4 }));
    assert!(shard.covers(10, 4));
    assert!(!shard.covers(11, 4));
    assert!(!shard.covers(10, 3));
}

#[test]
fn a_rank_alone_grows_its_regions() {
    assert_eq!(whole_region(None, 5), Some(5));
    assert_eq!(whole_region(Some(4), 5), Some(5));
    assert_eq!(whole_region(Some(5), 5), None);
    assert_eq!(whole_write(3), "one rank cannot write to rank 3");
    assert_eq!((input_tensors(false), input_tensors(true)), (3, 4));
}

fn packed(tokens: usize, heads: usize, dim: usize, span: Run) -> Vec<u16> {
    let source = pattern(tokens * 3 * heads * dim);
    let mut values: Vec<u16> = Vec::new();
    for token in 0..tokens {
        for tensor in 0..3 {
            for head in span.start..span.end {
                for lane in 0..dim {
                    values.push(source[((token * 3 + tensor) * heads + head) * dim + lane]);
                }
            }
        }
    }
    values
}

#[test]
fn a_pattern_walks_the_range() {
    assert_eq!(pattern(3), vec![0, 40503, (2 * 40503 % 65536) as u16]);
    let mut seen: Vec<u16> = pattern(65536);
    seen.sort();
    seen.dedup();
    assert_eq!(seen.len(), 65536);
}

#[test]
fn packed_heads_are_those_of_the_span() {
    let (tokens, heads, dim): (usize, usize, usize) = (2, 4, 8);
    let span = Run { start: 2, end: 4 };
    let mut values = packed(tokens, heads, dim, span);
    assert!(check_packed(&values, tokens, heads, dim, span).is_ok());
    let place = ((1 * 3 + 2) * 2 + 1) * dim + 7;
    let wanted = values[place];
    values[place] = wanted ^ 1;
    let error = check_packed(&values, tokens, heads, dim, span).unwrap_err();
    assert_eq!(error.code, 0);
    assert_eq!(
        error.message,
        format!("packing token 1 tensor 2 head 3 came back {:#06x}, not {wanted:#06x}", wanted ^ 1)
    );
}

#[test]
fn scattered_heads_leave_the_others() {
    let (tokens, heads, dim): (usize, usize, usize) = (2, 4, 8);
    let span = Run { start: 2, end: 4 };
    let part = pattern(tokens * 2 * dim);
    let mut output = vec![0u16; tokens * heads * dim];
    for token in 0..tokens {
        for head in 2..4 {
            for lane in 0..dim {
                output[(token * heads + head) * dim + lane] = part[(token * 2 + head - 2) * dim + lane];
            }
        }
    }
    assert!(check_scattered(&output, tokens, heads, dim, span).is_ok());
    output[dim] = 5;
    let error = check_scattered(&output, tokens, heads, dim, span).unwrap_err();
    assert_eq!(error.message, "scattering token 0 head 1 lane 0 came back 0x0005, not 0x0000");
}
