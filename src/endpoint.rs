//! Endpoint records, the software endpoint table and its allocation rule.

use vstd::prelude::*;

verus! {

/// Number of hardware endpoint slots.
pub const NUM_ENDPOINTS: usize = 7;

/// Transfer direction, seen from the host.
#[derive(Clone, Copy, PartialEq, Eq, Debug, Structural)]
pub enum Direction {
    /// Host to device.
    Out,
    /// Device to host.
    In,
}

/// Endpoint transfer type.
#[derive(Clone, Copy, PartialEq, Eq, Debug, Structural)]
pub enum EndpointKind {
    Control,
    Isochronous,
    Bulk,
    Interrupt,
}

/// An endpoint address: slot number and direction.
#[derive(Clone, Copy, PartialEq, Eq, Debug, Structural)]
pub struct EpAddr {
    pub index: u8,
    pub dir: Direction,
}

/// What the software table records of an allocated slot.
#[derive(Clone, Copy, PartialEq, Eq, Debug, Structural)]
pub struct EndpointRecord {
    pub kind: EndpointKind,
    pub dir: Direction,
    pub max_packet_size: u16,
    pub interval: u8,
}

/// Errors reported to the USB stack.
#[derive(Clone, Copy, PartialEq, Eq, Debug, Structural)]
pub enum BusError {
    /// Unknown, unallocated or out-of-range slot.
    InvalidEndpoint,
    /// The endpoint selector did not take the requested slot.
    InvalidState,
    /// The endpoint FIFO is not ready.
    WouldBlock,
    /// The caller's buffer or the hardware FIFO is too small for the data.
    BufferOverflow,
    /// No slot can hold the requested endpoint, or the controller refused its layout.
    EndpointMemoryOverflow,
}

/// Capacity in bytes of hardware slot `i`.
pub open spec fn slot_capacity(i: int) -> int {
    if i == 1 {
        256
    } else {
        64
    }
}

/// Capacity in bytes of hardware slot `i`.
pub fn capacity(i: usize) -> (r: u16)
    ensures
        r == slot_capacity(i as int),
{
    if i == 1 {
        256
    } else {
        64
    }
}

/// Slot `j` of table `t` is free and can hold packets of `mps` bytes.
pub open spec fn fits(t: Seq<Option<EndpointRecord>>, j: int, mps: u16) -> bool {
    t[j] is None && mps <= slot_capacity(j)
}

/// `j` is the lowest slot above zero that fits a packet size of `mps`.
pub open spec fn is_first_fit(t: Seq<Option<EndpointRecord>>, mps: u16, j: int) -> bool {
    &&& 1 <= j < NUM_ENDPOINTS
    &&& fits(t, j, mps)
    &&& forall|k: int| 1 <= k < j ==> !fits(t, k, mps)
}

/// No slot above zero fits a packet size of `mps`.
pub open spec fn no_fit(t: Seq<Option<EndpointRecord>>, mps: u16) -> bool {
    forall|k: int| 1 <= k < NUM_ENDPOINTS ==> !fits(t, k, mps)
}

/// Packet size in bytes selected by the EPSIZE code `code`: 8 << code.
pub open spec fn epsize_bytes(code: int) -> int
    decreases code,
{
    if code <= 0 {
        8
    } else {
        2 * epsize_bytes(code - 1)
    }
}

/// EPSIZE code of a packet size of at most 512 bytes.
pub open spec fn epsize_spec(mps: u16) -> u8 {
    if mps <= 8 {
        0
    } else if mps <= 16 {
        1
    } else if mps <= 32 {
        2
    } else if mps <= 64 {
        3
    } else if mps <= 128 {
        4
    } else if mps <= 256 {
        5
    } else {
        6
    }
}

/// EPSIZE code for a packet size: the smallest of 8, 16, ..., 512 bytes that holds `mps`,
/// i.e. `max(8, next_pow2(mps))`.
pub fn epsize_code(mps: u16) -> (code: u8)
    requires
        mps <= 512,
    ensures
        code == epsize_spec(mps),
        code <= 6,
        mps <= epsize_bytes(code as int) <= 512,
        code == 0 || epsize_bytes(code - 1) < mps,
{
    let mut code: u8 = 0;
    let mut size: u16 = 8;
    while size < mps
        invariant
            code <= 6,
            size == epsize_bytes(code as int),
            size <= 512,
            mps <= 512,
            code == 0 || epsize_bytes(code - 1) < mps,
        decreases 6 - code,
    {
        assert(code < 6) by {
            reveal_with_fuel(epsize_bytes, 7);
        }
        size = size * 2;
        code = code + 1;
        assert(size <= 512) by {
            reveal_with_fuel(epsize_bytes, 7);
        }
    }
    assert(code == epsize_spec(mps)) by {
        reveal_with_fuel(epsize_bytes, 7);
    }
    code
}

/// The software mirror of the hardware endpoint configuration: one optional record per slot.
pub struct EndpointTable {
    slots: [Option<EndpointRecord>; 7],
}

impl View for EndpointTable {
    type V = Seq<Option<EndpointRecord>>;

    closed spec fn view(&self) -> Seq<Option<EndpointRecord>> {
        self.slots@
    }
}

impl EndpointTable {
    /// A table with every slot free.
    pub fn new() -> (t: Self)
        ensures
            t@.len() == NUM_ENDPOINTS,
            forall|i: int| 0 <= i < NUM_ENDPOINTS ==> #[trigger] t@[i] is None,
    {
        EndpointTable { slots: [None, None, None, None, None, None, None] }
    }

    /// The record of slot `i`, if it is allocated.
    pub fn get(&self, i: usize) -> (r: Option<EndpointRecord>)
        requires
            i < NUM_ENDPOINTS,
        ensures
            r == self@[i as int],
    {
        self.slots[i]
    }

    /// The lowest slot above zero that is free and holds `mps` bytes.
    fn first_fit(&self, mps: u16) -> (r: Option<usize>)
        ensures
            r matches Some(j) ==> is_first_fit(self@, mps, j as int),
            r is None ==> no_fit(self@, mps),
    {
        let mut j: usize = 1;
        while j < NUM_ENDPOINTS
            invariant
                1 <= j <= NUM_ENDPOINTS,
                self@.len() == NUM_ENDPOINTS,
                forall|k: int| 1 <= k < j ==> !fits(self@, k, mps),
            decreases NUM_ENDPOINTS - j,
        {
            if self.slots[j].is_none() && mps <= capacity(j) {
                return Some(j);
            }
            j = j + 1;
        }
        None
    }

    /// Records an endpoint in a slot, as `alloc_ep` of the USB stack asks.
    ///
    /// Without an address, the lowest free slot above zero that holds `mps` bytes is taken.
    /// With one, that slot is taken if it is free and large enough, and the search above is
    /// made otherwise. A request for slot zero IN succeeds and changes nothing: slot zero is
    /// one bidirectional control endpoint, recorded by its OUT request.
    pub fn allocate(
        &mut self,
        dir: Direction,
        addr: Option<EpAddr>,
        kind: EndpointKind,
        mps: u16,
        interval: u8,
    ) -> (r: Result<EpAddr, BusError>)
        requires
            old(self)@.len() == NUM_ENDPOINTS,
            addr matches Some(a) ==> a.dir == dir,
        ensures
            final(self)@.len() == NUM_ENDPOINTS,
            ({
                let t = old(self)@;
                let rec = EndpointRecord { kind, dir, max_packet_size: mps, interval };
                match addr {
                    Some(a) if a.index >= NUM_ENDPOINTS => r == Err::<EpAddr, BusError>(
                        BusError::InvalidEndpoint,
                    ) && final(self)@ == t,
                    Some(a) if a.index == 0 && dir == Direction::In => r == Ok::<
                        EpAddr,
                        BusError,
                    >(a) && final(self)@ == t,
                    Some(a) if fits(t, a.index as int, mps) => r == Ok::<EpAddr, BusError>(a)
                        && final(self)@ == t.update(a.index as int, Some(rec)),
                    _ => match r {
                        Ok(b) => b.dir == dir && is_first_fit(t, mps, b.index as int)
                            && final(self)@ == t.update(b.index as int, Some(rec)),
                        Err(e) => e == BusError::EndpointMemoryOverflow && no_fit(t, mps)
                            && final(self)@ == t,
                    },
                }
            }),
    {
        let rec = EndpointRecord { kind, dir, max_packet_size: mps, interval };
        if let Some(a) = addr {
            if a.index as usize >= NUM_ENDPOINTS {
                return Err(BusError::InvalidEndpoint);
            }
            if a.index == 0 && dir == Direction::In {
                return Ok(a);
            }
            let i = a.index as usize;
            if self.slots[i].is_none() && mps <= capacity(i) {
                self.slots[i] = Some(rec);
                return Ok(a);
            }
        }
        match self.first_fit(mps) {
            Some(j) => {
                self.slots[j] = Some(rec);
                Ok(EpAddr { index: j as u8, dir })
            },
            None => Err(BusError::EndpointMemoryOverflow),
        }
    }
}

/// Two endpoints allocated one after the other without an address land in increasing slots,
/// both above slot zero.
pub proof fn lemma_unaddressed_allocations_increase(
    t: Seq<Option<EndpointRecord>>,
    rec: EndpointRecord,
    mps1: u16,
    j1: int,
    mps2: u16,
    j2: int,
)
    requires
        t.len() == NUM_ENDPOINTS,
        is_first_fit(t, mps1, j1),
        is_first_fit(t.update(j1, Some(rec)), mps2, j2),
    ensures
        1 <= j1 < j2,
{
    let t1 = t.update(j1, Some(rec));
    if j2 < j1 {
        assert(t1[j2] == t[j2]);
        assert(!fits(t, j2, mps1));
    }
}

} // verus!
