use mmh3::device::{status_table, MemoryAction, MemoryEvent, MemoryQuery, StatusTable};
use mmh3::{
    allocated_bytes, check, current_device, free_bytes, memory_info_on, set_allocation_limit, set_device, Allocations,
    CudaError, DeviceBuffer, INVALID_DEVICE, MAX_DEVICES, OUT_OF_MEMORY,
};

fn error(code: i32) -> CudaError {
    CudaError { code, message: "no".to_owned() }
}

/// A device this build cannot index is refused rather than counted against another one, since the
/// allocation counters and the kernels' per-device answers are indexed by it.
#[test]
fn refuses_a_device_past_the_ones_it_indexes() {
    let error = set_device(MAX_DEVICES).unwrap_err();
    assert_eq!(error.code, INVALID_DEVICE);
}

/// The device belongs to the host thread, and a buffer remembers the one it was made on so that it
/// is freed there whatever the thread has moved to since.
#[test]
fn a_buffer_says_which_device_it_is_on() {
    let device = current_device(Ok(0)).unwrap();
    assert_eq!(set_device(device).unwrap(), 0);
    assert_eq!(current_device(Ok(0)).unwrap(), device);

    let mut allocations = Allocations::new();
    let buffer = DeviceBuffer::new(&mut allocations, device, 4096, 64);
    assert_eq!(buffer.device(), device);
}

/// An allocation past the limit fails as it would on a device that small, and the memory the
/// process was holding is its own again once it lets go. The counters are per device, so this
/// answers for the one this thread computes on.
#[test]
fn an_allocation_past_the_limit_finds_no_memory() {
    let bytes: usize = 64 * 64 * 4;
    let mut allocations = Allocations::new();
    let current = || current_device(Ok(0));

    allocations.reserve(0, bytes).unwrap();
    let held = DeviceBuffer::new(&mut allocations, 0, 4096, bytes);
    assert_eq!(held.device(), current().unwrap());
    assert_eq!(allocated_bytes(&allocations, &current()), bytes);

    // Room for what is held and nothing more.
    set_allocation_limit(&mut allocations, bytes);
    let Err(error) = allocations.reserve(0, bytes) else {
        panic!("a limit gave away memory it had none of");
    };
    assert!(error.is_out_of_memory(), "{}", error.text());

    assert_eq!(held.release(&mut allocations), Some((0, 4096)));
    assert_eq!(allocated_bytes(&allocations, &current()), 0);
    allocations.reserve(0, bytes).unwrap();

    set_allocation_limit(&mut allocations, 0);
}

#[test]
fn a_view_is_not_freed() {
    let mut allocations = Allocations::new();
    let owner = DeviceBuffer::new(&mut allocations, 1, 1000, 256);
    let view = DeviceBuffer::view(&owner, 64, 32);
    assert_eq!((view.pointer(), view.bytes(), view.device()), (1064, 32, 1));
    assert_eq!(view.release(&mut allocations), None);
    assert_eq!(allocated_bytes(&allocations, &Ok(1)), 256);
    assert_eq!(owner.release(&mut allocations), Some((1, 1000)));
    assert_eq!(allocated_bytes(&allocations, &Ok(1)), 0);
}

#[test]
fn a_range_of_values_lies_inside_its_buffer() {
    let mut allocations = Allocations::new();
    let buffer = DeviceBuffer::new(&mut allocations, 0, 4096, 40);
    assert_eq!(buffer.f32_range(2, 3), Some((8, 12)));
    assert_eq!(buffer.f32_range(0, 10), Some((0, 40)));
    assert_eq!(buffer.f32_range(1, 10), None);
    assert_eq!(buffer.f32_range(usize::MAX, 1), None);
    assert!(buffer.covers(0, 40));
    assert!(!buffer.covers(1, 40));
    assert!(!buffer.covers(usize::MAX, 1));
    assert_eq!(buffer.pointer_at(16), 4112);
}

#[test]
fn a_status_becomes_an_error() {
    assert!(check(0, String::new()).is_ok());
    let error = check(OUT_OF_MEMORY, "out of memory".to_owned()).unwrap_err();
    assert!(error.is_out_of_memory());
    assert_eq!(error.text(), "CUDA error 2: out of memory");
    assert!(!self::error(1).is_out_of_memory());
    assert!(matches!(status_table(700), StatusTable::Cuda));
    assert!(matches!(status_table(1007), StatusTable::CublasLt));
}

#[test]
fn a_device_past_the_last_is_refused_when_it_is_current() {
    assert_eq!(current_device(Ok(3)).unwrap(), 3);
    assert_eq!(current_device(Ok(16)).unwrap_err().code, INVALID_DEVICE);
    assert_eq!(current_device(Err(error(3))).unwrap_err().code, 3);
    assert_eq!(set_device(15).unwrap(), 15);
}

/// Asking for the memory of another device leaves the thread on the one it was on.
#[test]
fn a_memory_query_comes_back_to_its_device() {
    let query = memory_info_on(2);
    assert!(matches!(query.action(), Some(MemoryAction::AskDevice)));
    let query = query.answered(MemoryEvent::Device(Ok(0)));
    assert!(matches!(query.action(), Some(MemoryAction::Bind(2))));
    let query = query.answered(MemoryEvent::Bound(Ok(())));
    assert!(matches!(query.action(), Some(MemoryAction::AskMemory)));
    let query = query.answered(MemoryEvent::Memory(Ok((10, 20))));
    assert!(matches!(query.action(), Some(MemoryAction::Bind(0))));
    let query = query.answered(MemoryEvent::Bound(Ok(())));
    assert!(query.action().is_none());
    match query {
        MemoryQuery::Done { answer } => assert_eq!(answer.unwrap(), (10, 20)),
        _ => panic!("the query has not ended"),
    }
}

#[test]
fn a_limit_bounds_the_free_memory() {
    let mut allocations = Allocations::new();
    assert_eq!(free_bytes(&allocations, Ok(0), Ok((500, 1000))).unwrap(), 500);
    let held = DeviceBuffer::new(&mut allocations, 0, 4096, 100);
    set_allocation_limit(&mut allocations, 300);
    assert_eq!(free_bytes(&allocations, Ok(0), Ok((500, 1000))).unwrap(), 200);
    assert_eq!(free_bytes(&allocations, Ok(0), Ok((50, 1000))).unwrap(), 50);
    assert_eq!(free_bytes(&allocations, Err(error(3)), Ok((1, 2))).unwrap_err().code, 3);
    held.release(&mut allocations);
}
