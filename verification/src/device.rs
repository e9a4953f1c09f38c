//! Devices, what this process holds of each, and the buffers it holds.
use crate::arithmetic;
use crate::text;
use vstd::prelude::*;

verus! {

/// An error of the CUDA runtime or of cuBLAS, or one that this build answers in their place.
#[derive(Debug)]
pub struct CudaError {
    pub code: i32,
    pub message: String,
}

impl Clone for CudaError {
    fn clone(&self) -> (copy: Self)
        ensures
            copy == *self,
    {
        CudaError { code: self.code, message: self.message.clone() }
    }
}

/// `cudaErrorMemoryAllocation`, which a caller holding memory it could let go of can do something
/// about, unlike every other way a call here fails.
pub const OUT_OF_MEMORY: i32 = 2;

/// `cudaErrorInvalidDevice`, which is also what this build answers for a device it cannot index.
pub const INVALID_DEVICE: i32 = 101;

/// The most devices this process computes on.
pub const MAX_DEVICES: usize = 16;

/// Codes from this one up are cuBLAS statuses.
pub const CUBLAS_STATUS: i32 = 1000;

impl CudaError {
    /// Whether the device, or the limit this process is held to, had no memory left to give.
    pub fn is_out_of_memory(&self) -> (answer: bool)
        ensures
            answer == (self.code == OUT_OF_MEMORY),
    {
        self.code == OUT_OF_MEMORY
    }

    /// The error as a line of text.
    pub fn text(&self) -> (line: String)
        ensures
            line@ == "CUDA error "@ + text::signed_decimal(self.code as int) + ": "@ + self.message@,
    {
        let mut line = String::from_str("CUDA error ");
        text::push_signed(&mut line, self.code as i64);
        line.append(": ");
        line.append(self.message.as_str());
        line
    }
}

/// Where the text of a status comes from.
#[derive(Clone, Copy, Debug, PartialEq, Eq, Structural)]
pub enum StatusTable {
    Cuda,
    CublasLt,
}

/// The table that holds the text of `code`.
pub fn status_table(code: i32) -> (table: StatusTable)
    ensures
        table == (if code >= CUBLAS_STATUS {
            StatusTable::CublasLt
        } else {
            StatusTable::Cuda
        }),
{
    if code >= CUBLAS_STATUS {
        StatusTable::CublasLt
    } else {
        StatusTable::Cuda
    }
}

/// What a call that answered `code` comes to: zero is success, and every other code an error with
/// the text `message` that its table holds for it.
pub fn check(code: i32, message: String) -> (result: Result<(), CudaError>)
    ensures
        result is Ok <==> code == 0,
        result matches Err(error) ==> error.code == code && error.message@ == message@,
{
    if code == 0 {
        Ok(())
    } else {
        Err(CudaError { code, message })
    }
}

/// What the driver says of a device.
#[derive(Debug)]
pub struct DeviceInfo {
    pub name: String,
    pub compute_capability: (i32, i32),
    pub multiprocessor_count: i32,
    pub shared_memory_per_block_optin: i32,
    pub shared_memory_per_multiprocessor: i32,
    pub l2_cache_bytes: i32,
    pub integrated: bool,
    pub total_global_bytes: u64,
}

impl Clone for DeviceInfo {
    fn clone(&self) -> (copy: Self)
        ensures
            copy == *self,
    {
        DeviceInfo {
            name: self.name.clone(),
            compute_capability: self.compute_capability,
            multiprocessor_count: self.multiprocessor_count,
            shared_memory_per_block_optin: self.shared_memory_per_block_optin,
            shared_memory_per_multiprocessor: self.shared_memory_per_multiprocessor,
            l2_cache_bytes: self.l2_cache_bytes,
            integrated: self.integrated,
            total_global_bytes: self.total_global_bytes,
        }
    }
}

/// The text of the error that a device this build cannot index is refused with.
pub open spec fn past_the_devices(device: nat) -> Seq<char> {
    "device "@ + text::decimal(device) + " is past the "@ + text::decimal(MAX_DEVICES as nat) + " this build computes on at once"@
}

/// Refuses a device this build cannot index.
fn refused_device(device: usize) -> (error: CudaError)
    ensures
        error.code == INVALID_DEVICE,
        error.message@ == past_the_devices(device as nat),
{
    let mut message = String::from_str("device ");
    text::push_size(&mut message, device);
    message.append(" is past the ");
    text::push_size(&mut message, MAX_DEVICES);
    message.append(" this build computes on at once");
    CudaError { code: INVALID_DEVICE, message }
}

/// A signed device number of the driver as an index, which wraps below zero.
pub open spec fn device_index(device: i32) -> nat {
    if device < 0 {
        (usize::MAX + 1 + device) as nat
    } else {
        device as nat
    }
}

/// The device this thread computes on, from what the driver answered.
///
/// NOTE: the current device belongs to the host thread rather than to the process, so a thread
/// that has not chosen one is on device 0 whatever another thread is doing. A device this build
/// cannot index is refused rather than counted against another one.
pub fn current_device(answer: Result<i32, CudaError>) -> (device: Result<usize, CudaError>)
    ensures
        match answer {
            Err(error) => device == Err::<usize, CudaError>(error),
            Ok(number) => if device_index(number) < MAX_DEVICES {
                device == Ok::<usize, CudaError>(device_index(number) as usize)
            } else {
                &&& device matches Err(error)
                &&& error.code == INVALID_DEVICE
                &&& error.message@ == past_the_devices(device_index(number))
            },
        },
{
    match answer {
        Err(error) => Err(error),
        Ok(number) => {
            let device: usize = if number < 0 {
                usize::MAX - (-(number + 1)) as usize
            } else {
                number as usize
            };
            if device >= MAX_DEVICES {
                Err(refused_device(device))
            } else {
                Ok(device)
            }
        },
    }
}

/// The number to bind so that this thread computes on `device` from then on.
pub fn set_device(device: usize) -> (number: Result<i32, CudaError>)
    ensures
        device < MAX_DEVICES ==> number == Ok::<i32, CudaError>(device as i32),
        device >= MAX_DEVICES ==> {
            &&& number matches Err(error)
            &&& error.code == INVALID_DEVICE
            &&& error.message@ == past_the_devices(device as nat)
        },
{
    if device >= MAX_DEVICES {
        Err(refused_device(device))
    } else {
        Ok(device as i32)
    }
}

/// What `memory_info_on` asks of the driver next.
#[derive(Clone, Copy, Debug, PartialEq, Eq, Structural)]
pub enum MemoryAction {
    /// Ask which device this thread computes on.
    AskDevice,
    /// Bind this device to the thread.
    Bind(i32),
    /// Ask what is free and what there is in all.
    AskMemory,
}

/// What the driver answered to a `MemoryAction`.
pub enum MemoryEvent {
    Device(Result<i32, CudaError>),
    Bound(Result<(), CudaError>),
    Memory(Result<(usize, usize), CudaError>),
}

/// How far a question about another device's memory has come.
pub enum MemoryQuery {
    /// The device this thread is on is still to be asked.
    Start { device: usize },
    /// `device` is to be bound, and `here` again after it.
    Binding { device: usize, here: usize },
    /// The memory of the bound device is to be asked.
    Asking { here: usize },
    /// `here` is to be bound again, and `answer` handed back.
    Restoring { here: usize, answer: Result<(usize, usize), CudaError> },
    /// The question came to an end.
    Done { answer: Result<(usize, usize), CudaError> },
}

/// Starts asking what `device` has free and in all, from whichever device this thread computes on,
/// which it is left computing on afterwards.
pub fn memory_info_on(device: usize) -> (query: MemoryQuery)
    ensures
        query == (MemoryQuery::Start { device }),
{
    MemoryQuery::Start { device }
}

impl MemoryQuery {
    /// Every device a question would bind is one this build indexes.
    pub open spec fn valid(self) -> bool {
        match self {
            MemoryQuery::Binding { device, here } => device < MAX_DEVICES && here < MAX_DEVICES,
            MemoryQuery::Asking { here } => here < MAX_DEVICES,
            MemoryQuery::Restoring { here, answer } => here < MAX_DEVICES,
            _ => true,
        }
    }

    /// What to ask next, or nothing once there is an answer.
    pub open spec fn wants(self) -> Option<MemoryAction> {
        match self {
            MemoryQuery::Start { device } => Some(MemoryAction::AskDevice),
            MemoryQuery::Binding { device, here } => Some(MemoryAction::Bind(device as i32)),
            MemoryQuery::Asking { here } => Some(MemoryAction::AskMemory),
            MemoryQuery::Restoring { here, answer } => Some(MemoryAction::Bind(here as i32)),
            MemoryQuery::Done { answer } => None,
        }
    }

    /// Whether `event` answers what is asked.
    pub open spec fn takes(self, event: MemoryEvent) -> bool {
        match self {
            MemoryQuery::Start { device } => event is Device,
            MemoryQuery::Binding { device, here } => event is Bound,
            MemoryQuery::Asking { here } => event is Memory,
            MemoryQuery::Restoring { here, answer } => event is Bound,
            MemoryQuery::Done { answer } => false,
        }
    }

    pub fn action(&self) -> (action: Option<MemoryAction>)
        requires
            self.valid(),
        ensures
            action == self.wants(),
    {
        match self {
            MemoryQuery::Start { device } => Some(MemoryAction::AskDevice),
            MemoryQuery::Binding { device, here } => Some(MemoryAction::Bind(*device as i32)),
            MemoryQuery::Asking { here } => Some(MemoryAction::AskMemory),
            MemoryQuery::Restoring { here, answer } => Some(MemoryAction::Bind(*here as i32)),
            MemoryQuery::Done { answer } => None,
        }
    }

    /// Takes the driver's answer. An error ends the question with that error, except one of the
    /// memory itself, which is handed back once the thread is on its own device again.
    pub fn answered(self, event: MemoryEvent) -> (next: MemoryQuery)
        requires
            self.valid(),
            self.takes(event),
        ensures
            next.valid(),
            match (self, event) {
                (MemoryQuery::Start { device }, MemoryEvent::Device(Err(error))) => {
                    next == (MemoryQuery::Done { answer: Err(error) })
                },
                (MemoryQuery::Start { device }, MemoryEvent::Device(Ok(number))) => {
                    if device_index(number) >= MAX_DEVICES {
                        &&& next matches MemoryQuery::Done { answer: Err(error) }
                        &&& error.code == INVALID_DEVICE
                        &&& error.message@ == past_the_devices(device_index(number))
                    } else if device >= MAX_DEVICES {
                        &&& next matches MemoryQuery::Done { answer: Err(error) }
                        &&& error.code == INVALID_DEVICE
                        &&& error.message@ == past_the_devices(device as nat)
                    } else {
                        next == (MemoryQuery::Binding { device, here: device_index(number) as usize })
                    }
                },
                (MemoryQuery::Binding { device, here }, MemoryEvent::Bound(Err(error))) => {
                    next == (MemoryQuery::Done { answer: Err(error) })
                },
                (MemoryQuery::Binding { device, here }, MemoryEvent::Bound(Ok(_))) => {
                    next == (MemoryQuery::Asking { here })
                },
                (MemoryQuery::Asking { here }, MemoryEvent::Memory(answer)) => {
                    next == (MemoryQuery::Restoring { here, answer })
                },
                (MemoryQuery::Restoring { here, answer }, MemoryEvent::Bound(Err(error))) => {
                    next == (MemoryQuery::Done { answer: Err(error) })
                },
                (MemoryQuery::Restoring { here, answer }, MemoryEvent::Bound(Ok(_))) => {
                    next == (MemoryQuery::Done { answer })
                },
                _ => false,
            },
    {
        match (self, event) {
            (MemoryQuery::Start { device }, MemoryEvent::Device(answer)) => {
                match current_device(answer) {
                    Err(error) => MemoryQuery::Done { answer: Err(error) },
                    Ok(here) => match set_device(device) {
                        Err(error) => MemoryQuery::Done { answer: Err(error) },
                        Ok(_) => MemoryQuery::Binding { device, here },
                    },
                }
            },
            (MemoryQuery::Binding { device: _, here }, MemoryEvent::Bound(bound)) => {
                match bound {
                    Err(error) => MemoryQuery::Done { answer: Err(error) },
                    Ok(_) => MemoryQuery::Asking { here },
                }
            },
            (MemoryQuery::Asking { here }, MemoryEvent::Memory(answer)) => {
                MemoryQuery::Restoring { here, answer }
            },
            (MemoryQuery::Restoring { here: _, answer }, MemoryEvent::Bound(bound)) => {
                match bound {
                    Err(error) => MemoryQuery::Done { answer: Err(error) },
                    Ok(_) => MemoryQuery::Done { answer },
                }
            },
            (query, _) => query,
        }
    }
}

/// Bytes in live device allocations, per device, and the most this process will hold on one device.
/// Everything a model and its work allocate is counted here, so this is what this process is
/// holding, which the device does not say: what it reports free is what every program on the GPU
/// has left between them.
pub struct Allocations {
    allocated: Vec<usize>,
    limit: Vec<usize>,
}

impl Allocations {
    /// One counter and one limit for every device this build indexes.
    pub closed spec fn valid(self) -> bool {
        self.allocated@.len() == MAX_DEVICES && self.limit@.len() == MAX_DEVICES
    }

    /// Bytes in live allocations on `device`.
    pub closed spec fn held(self, device: int) -> nat {
        self.allocated@[device] as nat
    }

    /// The most that is held on `device`, or zero for as much as the device will give.
    pub closed spec fn limit(self, device: int) -> nat {
        self.limit@[device] as nat
    }

    /// Nothing held, and no limit.
    pub fn new() -> (allocations: Allocations)
        ensures
            allocations.valid(),
            forall|device: int|
                0 <= device < MAX_DEVICES ==> #[trigger] allocations.held(device) == 0 && allocations.limit(device)
                    == 0,
    {
        Allocations { allocated: vec![0usize; 16], limit: vec![0usize; 16] }
    }

    /// Whether `bytes` more may be asked of `device`, which an allocation has to be before the
    /// device is asked for it.
    pub fn reserve(&self, device: usize, bytes: usize) -> (result: Result<(), CudaError>)
        requires
            self.valid(),
            device < MAX_DEVICES,
            self.limit(device as int) != 0 ==> self.held(device as int) + bytes <= usize::MAX,
        ensures
            result is Err <==> self.limit(device as int) != 0 && self.held(device as int) + bytes > self.limit(
                device as int,
            ),
            result matches Err(error) ==> {
                &&& error.code == OUT_OF_MEMORY
                &&& error.message@ == text::decimal(bytes as nat)
                    + " bytes would take this process past its limit on device "@ + text::decimal(device as nat)
            },
    {
        let limit: usize = self.limit[device];
        if limit != 0 && self.allocated[device] + bytes > limit {
            let mut message = String::new();
            text::push_size(&mut message, bytes);
            message.append(" bytes would take this process past its limit on device ");
            text::push_size(&mut message, device);
            proof {
                assert(message@ =~= text::decimal(bytes as nat)
                    + " bytes would take this process past its limit on device "@ + text::decimal(device as nat));
            }
            return Err(CudaError { code: OUT_OF_MEMORY, message });
        }
        Ok(())
    }
}

/// Bytes in live device allocations on the device this thread computes on, and none where that is
/// not known.
pub fn allocated_bytes(allocations: &Allocations, current: &Result<usize, CudaError>) -> (bytes: usize)
    requires
        allocations.valid(),
        current matches Ok(device) ==> device < MAX_DEVICES,
    ensures
        bytes == (match current {
            Ok(device) => allocations.held(*device as int),
            Err(_) => 0,
        }),
{
    match current {
        Ok(device) => allocations.allocated[*device],
        Err(_) => 0,
    }
}

/// Holds this process to `bytes` on every device, beyond which an allocation fails as it would on a
/// device that small. Zero lifts the limit.
///
/// NOTE: the budget is what one device may give rather than what they may give between them.
pub fn set_allocation_limit(allocations: &mut Allocations, bytes: usize)
    requires
        old(allocations).valid(),
    ensures
        final(allocations).valid(),
        forall|device: int|
            0 <= device < MAX_DEVICES ==> #[trigger] final(allocations).limit(device) == bytes,
        forall|device: int|
            0 <= device < MAX_DEVICES ==> #[trigger] final(allocations).held(device) == old(allocations).held(device),
{
    let limit: Vec<usize> = vec![bytes; 16];
    allocations.limit = limit;
}

/// Bytes this process may still allocate on `device`, the one this thread computes on: what the
/// device has left, held to what the limit leaves.
pub fn free_bytes(
    allocations: &Allocations,
    current: Result<usize, CudaError>,
    memory: Result<(usize, usize), CudaError>,
) -> (bytes: Result<usize, CudaError>)
    requires
        allocations.valid(),
        current matches Ok(device) ==> device < MAX_DEVICES,
    ensures
        match (current, memory) {
            (Err(error), _) => bytes == Err::<usize, CudaError>(error),
            (Ok(_), Err(error)) => bytes == Err::<usize, CudaError>(error),
            (Ok(device), Ok((free, _))) => {
                &&& bytes matches Ok(count)
                &&& count == (if allocations.limit(device as int) == 0 {
                    free as int
                } else {
                    arithmetic::min(
                        free as int,
                        arithmetic::max(
                            0,
                            allocations.limit(device as int) - allocations.held(device as int),
                        ),
                    )
                })
            },
        },
{
    match current {
        Err(error) => Err(error),
        Ok(device) => match memory {
            Err(error) => Err(error),
            Ok((free, _)) => {
                let limit: usize = allocations.limit[device];
                if limit == 0 {
                    Ok(free)
                } else {
                    Ok(arithmetic::least(free, limit.saturating_sub(allocations.allocated[device])))
                }
            },
        },
    }
}

/// A device allocation, or a view into one that somebody else owns.
pub struct DeviceBuffer {
    address: usize,
    bytes: usize,
    owned: bool,
    device: usize,
}

impl DeviceBuffer {
    /// The last byte has an address, and the device is one this build indexes.
    pub closed spec fn valid(self) -> bool {
        self.address + self.bytes <= usize::MAX && self.device < MAX_DEVICES
    }

    /// The device address of the first byte.
    pub closed spec fn at(self) -> nat {
        self.address as nat
    }

    pub closed spec fn size(self) -> nat {
        self.bytes as nat
    }

    /// Whether the memory is freed with this buffer.
    pub closed spec fn owns(self) -> bool {
        self.owned
    }

    /// The device it was allocated on, which is where it is freed and where a kernel may read it.
    pub closed spec fn home(self) -> nat {
        self.device as nat
    }

    /// A valid buffer's last byte has an address.
    pub proof fn ends_at_an_address(&self)
        requires
            self.valid(),
        ensures
            self.at() + self.size() <= usize::MAX,
            self.home() < MAX_DEVICES,
    {
    }

    /// A buffer of `bytes` bytes that the device gave out at `address`, counted against `device`.
    pub fn new(allocations: &mut Allocations, device: usize, address: usize, bytes: usize) -> (buffer: DeviceBuffer)
        requires
            old(allocations).valid(),
            device < MAX_DEVICES,
            old(allocations).held(device as int) + bytes <= usize::MAX,
        ensures
            buffer.valid() == (address + bytes <= usize::MAX),
            buffer.at() == address,
            buffer.size() == bytes,
            buffer.owns(),
            buffer.home() == device,
            final(allocations).valid(),
            final(allocations).held(device as int) == old(allocations).held(device as int) + bytes,
            forall|other: int|
                0 <= other < MAX_DEVICES && other != device ==> #[trigger] final(allocations).held(other) == old(
                    allocations,
                ).held(other),
            forall|other: int|
                0 <= other < MAX_DEVICES ==> #[trigger] final(allocations).limit(other) == old(allocations).limit(other),
    {
        let held: usize = allocations.allocated[device];
        allocations.allocated.set(device, held + bytes);
        DeviceBuffer { address, bytes, owned: true, device }
    }

    /// Lets go of the buffer: what an owned one held is its device's again, and its address is
    /// handed back to be freed. A view frees nothing.
    pub fn release(self, allocations: &mut Allocations) -> (freed: Option<(usize, usize)>)
        requires
            self.home() < MAX_DEVICES,
            old(allocations).valid(),
            self.owns() ==> self.size() <= old(allocations).held(self.home() as int),
        ensures
            final(allocations).valid(),
            freed == (if self.owns() {
                Some((self.home() as usize, self.at() as usize))
            } else {
                None
            }),
            final(allocations).held(self.home() as int) == old(allocations).held(self.home() as int) - (if self.owns() {
                self.size() as int
            } else {
                0
            }),
            forall|other: int|
                0 <= other < MAX_DEVICES && other != self.home() ==> #[trigger] final(allocations).held(other) == old(
                    allocations,
                ).held(other),
            forall|other: int|
                0 <= other < MAX_DEVICES ==> #[trigger] final(allocations).limit(other) == old(allocations).limit(other),
    {
        if !self.owned {
            return None;
        }
        let held: usize = allocations.allocated[self.device];
        allocations.allocated.set(self.device, held - self.bytes);
        Some((self.device, self.address))
    }

    /// `bytes` bytes from `offset` into `owner`, freed with it rather than with the view.
    pub fn view(owner: &DeviceBuffer, offset: usize, bytes: usize) -> (buffer: DeviceBuffer)
        requires
            owner.valid(),
            offset + bytes <= owner.size(),
        ensures
            buffer.valid(),
            buffer.at() == owner.at() + offset,
            buffer.size() == bytes,
            !buffer.owns(),
            buffer.home() == owner.home(),
    {
        DeviceBuffer { address: owner.address + offset, bytes, owned: false, device: owner.device }
    }

    pub fn bytes(&self) -> (bytes: usize)
        ensures
            bytes == self.size(),
    {
        self.bytes
    }

    /// The device this buffer lives on.
    pub fn device(&self) -> (device: usize)
        ensures
            device == self.home(),
    {
        self.device
    }

    /// The device address for native API interoperability. This is not a host address.
    pub fn pointer(&self) -> (address: usize)
        ensures
            address == self.at(),
    {
        self.address
    }

    /// The address `offset` bytes into the allocation.
    pub fn pointer_at(&self, offset: usize) -> (address: usize)
        requires
            self.valid(),
            offset <= self.size(),
        ensures
            address == self.at() + offset,
    {
        self.address + offset
    }

    /// Whether `bytes` bytes from `offset` lie inside the allocation.
    pub fn covers(&self, offset: usize, bytes: usize) -> (inside: bool)
        ensures
            inside == (offset + bytes <= self.size()),
    {
        offset <= self.bytes && bytes <= self.bytes - offset
    }

    /// The byte offset and length of `count` four-byte values starting at value `first`, where they
    /// lie inside the allocation.
    pub fn f32_range(&self, first: usize, count: usize) -> (range: Option<(usize, usize)>)
        ensures
            range == (if (first + count) * 4 <= self.size() {
                Some(((first * 4) as usize, (count * 4) as usize))
            } else {
                None
            }),
    {
        if first <= self.bytes / 4 && count <= self.bytes / 4 - first {
            Some((first * 4, count * 4))
        } else {
            None
        }
    }
}

/// Letting go of a buffer gives back exactly what it took: the counters are what they were before
/// it was allocated.
pub proof fn a_released_buffer_is_its_devices_again(
    before: Allocations,
    between: Allocations,
    after: Allocations,
    buffer: DeviceBuffer,
    device: int,
)
    requires
        0 <= device < MAX_DEVICES,
        0 <= buffer.home() < MAX_DEVICES,
        buffer.owns(),
        between.held(buffer.home() as int) == before.held(buffer.home() as int) + buffer.size(),
        forall|other: int|
            0 <= other < MAX_DEVICES && other != buffer.home() ==> #[trigger] between.held(other) == before.held(other),
        after.held(buffer.home() as int) == between.held(buffer.home() as int) - buffer.size(),
        forall|other: int|
            0 <= other < MAX_DEVICES && other != buffer.home() ==> #[trigger] after.held(other) == between.held(other),
    ensures
        after.held(device) == before.held(device),
{
}

/// An allocation does not take what is held on a device past its limit, one up to the very limit is let through, as is any
/// without a limit, and one that is refused leaves what is held.
pub proof fn an_allocation_keeps_to_the_limit(
    before: Allocations,
    after: Allocations,
    device: int,
    bytes: usize,
    reserved: Result<(), CudaError>,
)
    requires
        0 <= device < MAX_DEVICES,
        reserved is Err <==> before.limit(device) != 0 && before.held(device) + bytes > before.limit(device),
        after.limit(device) == before.limit(device),
        after.held(device) == before.held(device) + (if reserved is Ok {
            bytes as int
        } else {
            0
        }),
    ensures
        reserved is Ok && after.limit(device) != 0 ==> after.held(device) <= after.limit(device),
        before.limit(device) == 0 || before.held(device) + bytes <= before.limit(device) ==> reserved is Ok,
        reserved is Err ==> after.held(device) == before.held(device),
{
}

} // verus!
